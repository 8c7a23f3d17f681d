//! Screenshots and screen recordings: which program each platform uses, with
//! which arguments.
use vstd::prelude::*;
use crate::command::{command, command_text, push_arg, CommandLine, Platform};
use crate::text::{push_str, string_of, string_views};

verus! {

/// The arguments that encode a recording as H.264 for playback everywhere.
pub open spec fn h264_args() -> Seq<Seq<char>> {
    seq!["-c:v"@, "libx264"@, "-preset"@, "ultrafast"@, "-pix_fmt"@, "yuv420p"@]
}

/// The recorder of a platform: `ffmpeg` grabbing the desktop on Windows,
/// `screencapture -v` on macOS, `wf-recorder` on Linux when installed, else
/// `ffmpeg` grabbing the X display; the `ffmpeg` ones encode as H.264 when
/// asked.
pub open spec fn recording_text(platform: Platform, wf_recorder: bool, output: Seq<char>, h264: bool) -> (Seq<char>, Seq<Seq<char>>) {
    let enc = if h264 { h264_args() } else { seq![] };
    match platform {
        Platform::Windows => ("ffmpeg"@, seq!["-y"@, "-f"@, "gdigrab"@, "-framerate"@, "30"@, "-i"@, "desktop"@] + enc + seq![output]),
        Platform::MacOs => ("screencapture"@, seq!["-v"@, output]),
        Platform::Linux => if wf_recorder {
            ("wf-recorder"@, seq!["-f"@, output])
        } else {
            ("ffmpeg"@, seq!["-y"@, "-f"@, "x11grab"@, "-framerate"@, "30"@, "-i"@, ":0.0"@] + enc + seq![output])
        },
    }
}

fn push_h264(args: &mut Vec<String>, h264: bool)
    ensures
        string_views(final(args)@) == string_views(old(args)@) + if h264 { h264_args() } else { seq![] },
{
    if h264 {
        push_arg(args, "-c:v");
        push_arg(args, "libx264");
        push_arg(args, "-preset");
        push_arg(args, "ultrafast");
        push_arg(args, "-pix_fmt");
        push_arg(args, "yuv420p");
        proof {
            assert(string_views(args@) =~= string_views(old(args)@) + h264_args());
        }
    } else {
        proof {
            assert(string_views(args@) =~= string_views(old(args)@) + Seq::<Seq<char>>::empty());
        }
    }
}

/// The command that records the screen to `output`.
pub fn recording_command(platform: &Platform, wf_recorder: bool, output: &str, h264: bool) -> (c: CommandLine)
    ensures
        command_text(c) == recording_text(*platform, wf_recorder, output@, h264),
{
    let mut args: Vec<String> = Vec::new();
    proof {
        assert(string_views(args@) =~= Seq::<Seq<char>>::empty());
    }
    match platform {
        Platform::Windows => {
            push_arg(&mut args, "-y");
            push_arg(&mut args, "-f");
            push_arg(&mut args, "gdigrab");
            push_arg(&mut args, "-framerate");
            push_arg(&mut args, "30");
            push_arg(&mut args, "-i");
            push_arg(&mut args, "desktop");
            let ghost head = string_views(args@);
            push_h264(&mut args, h264);
            push_arg(&mut args, output);
            proof {
                assert(head =~= seq!["-y"@, "-f"@, "gdigrab"@, "-framerate"@, "30"@, "-i"@, "desktop"@]);
                assert(string_views(args@) =~= head + (if h264 { h264_args() } else { seq![] }) + seq![output@]);
            }
            command("ffmpeg", args)
        },
        Platform::MacOs => {
            push_arg(&mut args, "-v");
            push_arg(&mut args, output);
            proof {
                assert(string_views(args@) =~= seq!["-v"@, output@]);
            }
            command("screencapture", args)
        },
        Platform::Linux => {
            if wf_recorder {
                push_arg(&mut args, "-f");
                push_arg(&mut args, output);
                proof {
                    assert(string_views(args@) =~= seq!["-f"@, output@]);
                }
                command("wf-recorder", args)
            } else {
                push_arg(&mut args, "-y");
                push_arg(&mut args, "-f");
                push_arg(&mut args, "x11grab");
                push_arg(&mut args, "-framerate");
                push_arg(&mut args, "30");
                push_arg(&mut args, "-i");
                push_arg(&mut args, ":0.0");
                let ghost head = string_views(args@);
                push_h264(&mut args, h264);
                push_arg(&mut args, output);
                proof {
                    assert(head =~= seq!["-y"@, "-f"@, "x11grab"@, "-framerate"@, "30"@, "-i"@, ":0.0"@]);
                    assert(string_views(args@) =~= head + (if h264 { h264_args() } else { seq![] }) + seq![output@]);
                }
                command("ffmpeg", args)
            }
        },
    }
}

/// The PowerShell script that saves the primary screen as a PNG at `output`.
pub open spec fn screenshot_script_text(output: Seq<char>) -> Seq<char> {
    "\nAdd-Type -AssemblyName System.Windows.Forms\nAdd-Type -AssemblyName System.Drawing\n$bounds = [System.Windows.Forms.Screen]::PrimaryScreen.Bounds\n$bitmap = New-Object System.Drawing.Bitmap $bounds.Width, $bounds.Height\n$graphics = [System.Drawing.Graphics]::FromImage($bitmap)\n$graphics.CopyFromScreen($bounds.Location, [System.Drawing.Point]::Empty, $bounds.Size)\n$bitmap.Save('"@
        + output + "', [System.Drawing.Imaging.ImageFormat]::Png)\n$graphics.Dispose()\n$bitmap.Dispose()\n"@
}

/// The screenshot command of Windows: PowerShell running that script;
/// refused on other platforms.
pub fn capture_screenshot_windows(on_windows: bool, output: &str) -> (r: Result<CommandLine, String>)
    ensures
        !on_windows ==> (r matches Err(e) && e@ == "Windows screenshot is unavailable on this platform"@),
        on_windows ==> (r matches Ok(c) && command_text(c) == ("powershell"@, seq!["-NoProfile"@, "-Command"@, screenshot_script_text(output@)])),
{
    if !on_windows {
        return Err(String::from_str("Windows screenshot is unavailable on this platform"));
    }
    let mut script: Vec<char> = Vec::new();
    push_str(
        &mut script,
        "\nAdd-Type -AssemblyName System.Windows.Forms\nAdd-Type -AssemblyName System.Drawing\n$bounds = [System.Windows.Forms.Screen]::PrimaryScreen.Bounds\n$bitmap = New-Object System.Drawing.Bitmap $bounds.Width, $bounds.Height\n$graphics = [System.Drawing.Graphics]::FromImage($bitmap)\n$graphics.CopyFromScreen($bounds.Location, [System.Drawing.Point]::Empty, $bounds.Size)\n$bitmap.Save('",
    );
    push_str(&mut script, output);
    push_str(&mut script, "', [System.Drawing.Imaging.ImageFormat]::Png)\n$graphics.Dispose()\n$bitmap.Dispose()\n");
    let text = string_of(&script);
    let mut args: Vec<String> = Vec::new();
    proof {
        assert(string_views(args@) =~= Seq::<Seq<char>>::empty());
    }
    push_arg(&mut args, "-NoProfile");
    push_arg(&mut args, "-Command");
    push_arg(&mut args, text.as_str());
    proof {
        assert(string_views(args@) =~= seq!["-NoProfile"@, "-Command"@, screenshot_script_text(output@)]);
    }
    Ok(command("powershell", args))
}

/// The screenshot command of Linux: `grim` when installed, else
/// `gnome-screenshot -f` when installed, else ImageMagick's `import`;
/// refused on other platforms.
pub open spec fn linux_screenshot_text(grim: bool, gnome: bool, output: Seq<char>) -> (Seq<char>, Seq<Seq<char>>) {
    if grim {
        ("grim"@, seq![output])
    } else if gnome {
        ("gnome-screenshot"@, seq!["-f"@, output])
    } else {
        ("import"@, seq!["-window"@, "root"@, output])
    }
}

pub fn capture_screenshot_linux(on_linux: bool, grim: bool, gnome: bool, output: &str) -> (r: Result<CommandLine, String>)
    ensures
        !on_linux ==> (r matches Err(e) && e@ == "Linux screenshot is unavailable on this platform"@),
        on_linux ==> (r matches Ok(c) && command_text(c) == linux_screenshot_text(grim, gnome, output@)),
{
    if !on_linux {
        return Err(String::from_str("Linux screenshot is unavailable on this platform"));
    }
    let mut args: Vec<String> = Vec::new();
    proof {
        assert(string_views(args@) =~= Seq::<Seq<char>>::empty());
    }
    if grim {
        push_arg(&mut args, output);
        proof {
            assert(string_views(args@) =~= seq![output@]);
        }
        Ok(command("grim", args))
    } else if gnome {
        push_arg(&mut args, "-f");
        push_arg(&mut args, output);
        proof {
            assert(string_views(args@) =~= seq!["-f"@, output@]);
        }
        Ok(command("gnome-screenshot", args))
    } else {
        push_arg(&mut args, "-window");
        push_arg(&mut args, "root");
        push_arg(&mut args, output);
        proof {
            assert(string_views(args@) =~= seq!["-window"@, "root"@, output@]);
        }
        Ok(command("import", args))
    }
}

/// The screenshot command of a platform (`screencapture` on macOS).
pub fn screenshot_command(platform: &Platform, grim: bool, gnome: bool, output: &str) -> (c: CommandLine)
    ensures
        command_text(c) == match *platform {
            Platform::Windows => ("powershell"@, seq!["-NoProfile"@, "-Command"@, screenshot_script_text(output@)]),
            Platform::MacOs => ("screencapture"@, seq![output@]),
            Platform::Linux => linux_screenshot_text(grim, gnome, output@),
        },
{
    match platform {
        Platform::Windows => match capture_screenshot_windows(true, output) {
            Ok(c) => c,
            Err(_) => {
                proof {
                    assert(false);
                }
                command("powershell", Vec::new())
            },
        },
        Platform::MacOs => {
            let mut args: Vec<String> = Vec::new();
            proof {
                assert(string_views(args@) =~= Seq::<Seq<char>>::empty());
            }
            push_arg(&mut args, output);
            proof {
                assert(string_views(args@) =~= seq![output@]);
            }
            command("screencapture", args)
        },
        Platform::Linux => match capture_screenshot_linux(true, grim, gnome, output) {
            Ok(c) => c,
            Err(_) => {
                proof {
                    assert(false);
                }
                command("import", Vec::new())
            },
        },
    }
}

} // verus!
