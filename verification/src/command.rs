//! External programs the app runs: a program name and its arguments, and the
//! platform they are chosen for.
use vstd::prelude::*;
use crate::text::{push_str, string_of, string_views};

verus! {

/// The operating system the app runs on.
pub enum Platform {
    Windows,
    MacOs,
    Linux,
}

/// A program to run and its arguments.
pub struct CommandLine {
    pub program: String,
    pub args: Vec<String>,
}

/// The program and the arguments as texts.
pub open spec fn command_text(c: CommandLine) -> (Seq<char>, Seq<Seq<char>>) {
    (c.program@, string_views(c.args@))
}

pub fn push_arg(args: &mut Vec<String>, a: &str)
    ensures
        string_views(final(args)@) == string_views(old(args)@).push(a@),
{
    let ghost before = args@;
    let s = String::from_str(a);
    args.push(s);
    proof {
        crate::text::lemma_string_views_push(before, s);
    }
}

pub fn command(program: &str, args: Vec<String>) -> (c: CommandLine)
    ensures
        c.program@ == program@,
        c.args@ == args@,
{
    CommandLine { program: String::from_str(program), args }
}

/// How the app checks that a program is installed: `where {name}` on
/// Windows, else `sh -c "command -v {name}"`.
pub open spec fn probe_text(platform: Platform, name: Seq<char>) -> (Seq<char>, Seq<Seq<char>>) {
    match platform {
        Platform::Windows => ("where"@, seq![name]),
        _ => ("sh"@, seq!["-c"@, "command -v "@ + name]),
    }
}

pub fn probe_command(platform: &Platform, name: &str) -> (c: CommandLine)
    ensures
        command_text(c) == probe_text(*platform, name@),
{
    let mut args: Vec<String> = Vec::new();
    proof {
        assert(string_views(args@) =~= Seq::<Seq<char>>::empty());
    }
    match platform {
        Platform::Windows => {
            push_arg(&mut args, name);
            command("where", args)
        },
        _ => {
            push_arg(&mut args, "-c");
            let mut line: Vec<char> = Vec::new();
            push_str(&mut line, "command -v ");
            push_str(&mut line, name);
            let l = string_of(&line);
            push_arg(&mut args, l.as_str());
            command("sh", args)
        },
    }
}

/// How a recorder is stopped by its process id: `taskkill /PID {pid} /T /F`
/// on Windows, else `kill -INT {pid}`.
pub open spec fn stop_text(platform: Platform, pid: Seq<char>) -> (Seq<char>, Seq<Seq<char>>) {
    match platform {
        Platform::Windows => ("taskkill"@, seq!["/PID"@, pid, "/T"@, "/F"@]),
        _ => ("kill"@, seq!["-INT"@, pid]),
    }
}

pub fn stop_command(platform: &Platform, pid: &str) -> (c: CommandLine)
    ensures
        command_text(c) == stop_text(*platform, pid@),
{
    let mut args: Vec<String> = Vec::new();
    proof {
        assert(string_views(args@) =~= Seq::<Seq<char>>::empty());
    }
    match platform {
        Platform::Windows => {
            push_arg(&mut args, "/PID");
            push_arg(&mut args, pid);
            push_arg(&mut args, "/T");
            push_arg(&mut args, "/F");
            command("taskkill", args)
        },
        _ => {
            push_arg(&mut args, "-INT");
            push_arg(&mut args, pid);
            command("kill", args)
        },
    }
}

/// `{label} exited with status {status}`.
pub open spec fn exit_failure_text(label: Seq<char>, status: Seq<char>) -> Seq<char> {
    label + " exited with status "@ + status
}

/// The complaint about a program that ran and did not succeed.
pub fn exit_failure(label: &str, status: &str) -> (r: String)
    ensures
        r@ == exit_failure_text(label@, status@),
{
    let mut out: Vec<char> = Vec::new();
    push_str(&mut out, label);
    push_str(&mut out, " exited with status ");
    push_str(&mut out, status);
    string_of(&out)
}

} // verus!
