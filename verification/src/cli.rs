//! The command line: which command the arguments ask for, and the help.
use vstd::prelude::*;
use crate::text::{chars_of, join, join_strings, same_text, string_of, string_views, trim, trim_ws};

verus! {

/// A command of the command line, with its arguments.
pub enum CliCommand {
    New { title: String },
    Note { title: String, content: String },
    Screenshot { title: String },
    RecordStart { title: String },
    RecordStop { title: String },
    List,
    Slug { title: String },
    Help,
}

/// The commands as texts.
pub enum CliSpec {
    New(Seq<char>),
    Note(Seq<char>, Seq<char>),
    Screenshot(Seq<char>),
    RecordStart(Seq<char>),
    RecordStop(Seq<char>),
    List,
    Slug(Seq<char>),
    Help,
}

impl View for CliCommand {
    type V = CliSpec;

    open spec fn view(&self) -> CliSpec {
        match self {
            CliCommand::New { title } => CliSpec::New(title@),
            CliCommand::Note { title, content } => CliSpec::Note(title@, content@),
            CliCommand::Screenshot { title } => CliSpec::Screenshot(title@),
            CliCommand::RecordStart { title } => CliSpec::RecordStart(title@),
            CliCommand::RecordStop { title } => CliSpec::RecordStop(title@),
            CliCommand::List => CliSpec::List,
            CliCommand::Slug { title } => CliSpec::Slug(title@),
            CliCommand::Help => CliSpec::Help,
        }
    }
}

/// The remaining arguments joined by spaces; refused with `message` when
/// that is blank.
pub open spec fn required_text(args: Seq<Seq<char>>, message: Seq<char>) -> Result<Seq<char>, Seq<char>> {
    let value = join(args, " "@);
    if trim_ws(value).len() == 0 {
        Err(message)
    } else {
        Ok(value)
    }
}

pub open spec fn text_result(r: Result<String, String>) -> Result<Seq<char>, Seq<char>> {
    match r {
        Ok(s) => Ok(s@),
        Err(e) => Err(e@),
    }
}

pub fn collect_required(args: &Vec<String>, message: &str) -> (r: Result<String, String>)
    ensures
        text_result(r) == required_text(string_views(args@), message@),
{
    let value = join_strings(args, " ");
    if trim(&value).len() == 0 {
        Err(String::from_str(message))
    } else {
        Ok(string_of(&value))
    }
}

/// The command the arguments (after the program's name) ask for; `help`
/// when there are none.
pub open spec fn cli_spec(args: Seq<Seq<char>>) -> Result<CliSpec, Seq<char>> {
    let command = if args.len() == 0 { "help"@ } else { args[0] };
    let rest = if args.len() == 0 { seq![] } else { args.skip(1) };
    if command == "new"@ {
        match required_text(rest, "missing session title"@) {
            Ok(t) => Ok(CliSpec::New(t)),
            Err(e) => Err(e),
        }
    } else if command == "note"@ {
        if rest.len() == 0 {
            Err("missing session title"@)
        } else {
            match required_text(rest.skip(1), "missing note content"@) {
                Ok(c) => Ok(CliSpec::Note(rest[0], c)),
                Err(e) => Err(e),
            }
        }
    } else if command == "screenshot"@ {
        match required_text(rest, "missing session title"@) {
            Ok(t) => Ok(CliSpec::Screenshot(t)),
            Err(e) => Err(e),
        }
    } else if command == "record-start"@ {
        match required_text(rest, "missing session title"@) {
            Ok(t) => Ok(CliSpec::RecordStart(t)),
            Err(e) => Err(e),
        }
    } else if command == "record-stop"@ {
        match required_text(rest, "missing session title"@) {
            Ok(t) => Ok(CliSpec::RecordStop(t)),
            Err(e) => Err(e),
        }
    } else if command == "list"@ {
        Ok(CliSpec::List)
    } else if command == "slug"@ {
        match required_text(rest, "missing title"@) {
            Ok(t) => Ok(CliSpec::Slug(t)),
            Err(e) => Err(e),
        }
    } else if command == "help"@ || command == "--help"@ || command == "-h"@ {
        Ok(CliSpec::Help)
    } else {
        Err("unknown command: "@ + command)
    }
}

pub open spec fn command_result(r: Result<CliCommand, String>) -> Result<CliSpec, Seq<char>> {
    match r {
        Ok(c) => Ok(c@),
        Err(e) => Err(e@),
    }
}

fn rest_of(args: &Vec<String>, from: usize) -> (r: Vec<String>)
    requires
        from <= args@.len(),
    ensures
        string_views(r@) == string_views(args@).skip(from as int),
{
    let mut r: Vec<String> = Vec::new();
    let mut k = from;
    while k < args.len()
        invariant
            from <= k <= args@.len(),
            string_views(r@) == string_views(args@).subrange(from as int, k as int),
        decreases args.len() - k,
    {
        let ghost before = r@;
        let s = args[k].clone();
        r.push(s);
        proof {
            crate::text::lemma_string_views_push(before, s);
            assert(string_views(args@).subrange(from as int, k + 1) == string_views(args@).subrange(from as int, k as int).push(args@[k as int]@));
        }
        k += 1;
    }
    proof {
        assert(string_views(args@).subrange(from as int, args@.len() as int) == string_views(args@).skip(from as int));
    }
    r
}

fn titled(r: Result<String, String>, make: u8) -> (c: Result<CliCommand, String>)
    requires
        make < 5,
    ensures
        match r {
            Err(e) => c matches Err(x) && x@ == e@,
            Ok(t) => c matches Ok(cmd) && cmd@ == (if make == 0 {
                CliSpec::New(t@)
            } else if make == 1 {
                CliSpec::Screenshot(t@)
            } else if make == 2 {
                CliSpec::RecordStart(t@)
            } else if make == 3 {
                CliSpec::RecordStop(t@)
            } else {
                CliSpec::Slug(t@)
            }),
        },
{
    match r {
        Err(e) => Err(e),
        Ok(title) => Ok(
            if make == 0 {
                CliCommand::New { title }
            } else if make == 1 {
                CliCommand::Screenshot { title }
            } else if make == 2 {
                CliCommand::RecordStart { title }
            } else if make == 3 {
                CliCommand::RecordStop { title }
            } else {
                CliCommand::Slug { title }
            },
        ),
    }
}

/// Reads the command from the arguments that follow the program's name.
pub fn parse_command(args: &Vec<String>) -> (r: Result<CliCommand, String>)
    ensures
        command_result(r) == cli_spec(string_views(args@)),
{
    let ghost a = string_views(args@);
    let command: String = if args.len() == 0 { String::from_str("help") } else { args[0].clone() };
    let rest = if args.len() == 0 { Vec::new() } else { rest_of(args, 1) };
    proof {
        if args@.len() == 0 {
            assert(string_views(rest@) =~= Seq::<Seq<char>>::empty());
        }
        assert(command@ == (if a.len() == 0 { "help"@ } else { a[0] }));
    }
    let c = command.as_str();
    if same_text(c, "new") {
        titled(collect_required(&rest, "missing session title"), 0)
    } else if same_text(c, "note") {
        if rest.len() == 0 {
            return Err(String::from_str("missing session title"));
        }
        let title = rest[0].clone();
        let more = rest_of(&rest, 1);
        match collect_required(&more, "missing note content") {
            Ok(content) => Ok(CliCommand::Note { title, content }),
            Err(e) => Err(e),
        }
    } else if same_text(c, "screenshot") {
        titled(collect_required(&rest, "missing session title"), 1)
    } else if same_text(c, "record-start") {
        titled(collect_required(&rest, "missing session title"), 2)
    } else if same_text(c, "record-stop") {
        titled(collect_required(&rest, "missing session title"), 3)
    } else if same_text(c, "list") {
        Ok(CliCommand::List)
    } else if same_text(c, "slug") {
        titled(collect_required(&rest, "missing title"), 4)
    } else if same_text(c, "help") || same_text(c, "--help") || same_text(c, "-h") {
        Ok(CliCommand::Help)
    } else {
        let mut out = chars_of("unknown command: ");
        crate::text::push_str(&mut out, c);
        Err(string_of(&out))
    }
}

/// The help of the command line.
pub open spec fn help_text() -> Seq<char> {
    "AI Listen RS\n\nUsage:\n  ai-listen-rs new <title>\n  ai-listen-rs note <title> <content>\n  ai-listen-rs screenshot <title>\n  ai-listen-rs record-start <title>\n  ai-listen-rs record-stop <title>\n  ai-listen-rs list\n\nExamples:\n  ai-listen-rs new \"Product sync\"\n  ai-listen-rs note \"Product sync\" \"Follow up with the design review.\"\n"@
}

pub fn help() -> (r: String)
    ensures
        r@ == help_text(),
{
    String::from_str(
        "AI Listen RS\n\nUsage:\n  ai-listen-rs new <title>\n  ai-listen-rs note <title> <content>\n  ai-listen-rs screenshot <title>\n  ai-listen-rs record-start <title>\n  ai-listen-rs record-stop <title>\n  ai-listen-rs list\n\nExamples:\n  ai-listen-rs new \"Product sync\"\n  ai-listen-rs note \"Product sync\" \"Follow up with the design review.\"\n",
    )
}

} // verus!
