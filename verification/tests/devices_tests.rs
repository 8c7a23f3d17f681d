use ai_listen::audio::{audio_command, audio_test_report, bracket_device, list_audio_devices, quoted_value, volume_probe_command, with_default_device, AudioDevice};
use ai_listen::capture::{capture_screenshot_linux, capture_screenshot_windows, recording_command, screenshot_command};
use ai_listen::command::{exit_failure, probe_command, stop_command, Platform};

fn names(devices: &[AudioDevice]) -> Vec<(String, String, bool)> {
    devices.iter().map(|d| (d.id.clone(), d.name.clone(), d.is_default)).collect()
}

#[test]
fn quoted_and_bracketed_values() {
    assert_eq!(quoted_value("[dshow] \"Microphone (USB)\" (audio)"), Some("Microphone (USB)".to_string()));
    assert_eq!(quoted_value("no quotes"), None);
    assert_eq!(quoted_value("one \" quote"), None);
    assert_eq!(bracket_device("[AVFoundation] [1] MacBook Mic"), Some(("AVFoundation".to_string(), "[1] MacBook Mic".to_string())));
    assert_eq!(bracket_device("[ 0 ]  Built-in  "), Some(("0".to_string(), "Built-in".to_string())));
    assert_eq!(bracket_device("[] name"), None);
    assert_eq!(bracket_device("[0]   "), None);
}

#[test]
fn default_device_first() {
    let v = with_default_device(vec![AudioDevice { id: "x".to_string(), name: "X".to_string(), is_default: false }]).unwrap();
    assert_eq!(names(&v), vec![("".to_string(), "系统默认输入".to_string(), true), ("x".to_string(), "X".to_string(), false)]);
}

#[test]
fn windows_listing() {
    let listing = "[dshow @ 0] \"Camera\" (video)\n[dshow @ 0] \"Mic A\" (audio)\n[dshow @ 0]   Alternative name \"@device\"\n[dshow @ 0] \"Mic B\" (audio)\n";
    let v = list_audio_devices(&Platform::Windows, listing).unwrap();
    assert_eq!(names(&v)[1..].to_vec(), vec![
        ("Mic A".to_string(), "Mic A".to_string(), false),
        ("Mic B".to_string(), "Mic B".to_string(), false),
    ]);
}

#[test]
fn macos_listing() {
    let listing = "AVFoundation video devices:\n[AVFoundation indev @ 0x1] [0] FaceTime Camera\nAVFoundation audio devices:\n[AVFoundation indev @ 0x1] [0] MacBook Microphone\n";
    let v = list_audio_devices(&Platform::MacOs, listing).unwrap();
    assert_eq!(v.len(), 2);
    assert_eq!(v[1].id, ":AVFoundation indev @ 0x1");
    assert_eq!(v[1].name, "[0] MacBook Microphone");
}

#[test]
fn linux_listing() {
    let listing = "0\talsa_output.monitor\tmodule\n1\talsa_input.usb\tmodule\nbad\n";
    let v = list_audio_devices(&Platform::Linux, listing).unwrap();
    assert_eq!(names(&v), vec![
        ("".to_string(), "系统默认输入".to_string(), true),
        ("alsa_output.monitor".to_string(), "alsa_output.monitor".to_string(), false),
        ("alsa_input.usb".to_string(), "alsa_input.usb".to_string(), false),
    ]);
    assert_eq!(list_audio_devices(&Platform::Linux, "").unwrap().len(), 1);
}

#[test]
fn audio_commands() {
    let c = audio_command(&Platform::Windows, "out.wav", Some("Mic A"), None);
    assert_eq!(c.program, "ffmpeg");
    assert_eq!(c.args, vec!["-y", "-f", "dshow", "-i", "audio=Mic A", "out.wav"]);
    let c = audio_command(&Platform::Windows, "o.wav", Some("  "), Some("2"));
    assert_eq!(c.args, vec!["-y", "-f", "dshow", "-i", "audio=default", "-t", "2", "o.wav"]);
    let c = audio_command(&Platform::MacOs, "o.wav", None, None);
    assert_eq!(c.args, vec!["-y", "-f", "avfoundation", "-i", ":0", "o.wav"]);
    let c = audio_command(&Platform::Linux, "o.wav", Some("src"), None);
    assert_eq!(c.args, vec!["-y", "-f", "pulse", "-i", "src", "o.wav"]);
    let p = volume_probe_command(&Platform::Windows, "s.wav");
    assert_eq!(p.args, vec!["-i", "s.wav", "-af", "volumedetect", "-f", "null", "NUL"]);
    assert_eq!(volume_probe_command(&Platform::Linux, "s.wav").args[6], "/dev/null");
}

#[test]
fn recording_commands() {
    let c = recording_command(&Platform::Windows, false, "v.mp4", false);
    assert_eq!(c.program, "ffmpeg");
    assert_eq!(c.args, vec!["-y", "-f", "gdigrab", "-framerate", "30", "-i", "desktop", "v.mp4"]);
    let c = recording_command(&Platform::Linux, false, "v.mp4", true);
    assert_eq!(c.args, vec!["-y", "-f", "x11grab", "-framerate", "30", "-i", ":0.0", "-c:v", "libx264", "-preset", "ultrafast", "-pix_fmt", "yuv420p", "v.mp4"]);
    let c = recording_command(&Platform::Linux, true, "v.mp4", true);
    assert_eq!(c.program, "wf-recorder");
    assert_eq!(c.args, vec!["-f", "v.mp4"]);
    let c = recording_command(&Platform::MacOs, true, "v.mov", false);
    assert_eq!(c.program, "screencapture");
    assert_eq!(c.args, vec!["-v", "v.mov"]);
}

#[test]
fn screenshot_commands() {
    assert_eq!(capture_screenshot_linux(false, true, true, "s.png").err(), Some("Linux screenshot is unavailable on this platform".to_string()));
    assert_eq!(capture_screenshot_windows(false, "s.png").err(), Some("Windows screenshot is unavailable on this platform".to_string()));
    let c = capture_screenshot_linux(true, false, true, "s.png").unwrap();
    assert_eq!(c.program, "gnome-screenshot");
    assert_eq!(c.args, vec!["-f", "s.png"]);
    let c = capture_screenshot_linux(true, false, false, "s.png").unwrap();
    assert_eq!(c.program, "import");
    assert_eq!(c.args, vec!["-window", "root", "s.png"]);
    let w = capture_screenshot_windows(true, "C:\\s.png").unwrap();
    assert_eq!(w.program, "powershell");
    assert_eq!(w.args[0], "-NoProfile");
    assert!(w.args[2].contains("$bitmap.Save('C:\\s.png', [System.Drawing.Imaging.ImageFormat]::Png)"));
    let m = screenshot_command(&Platform::MacOs, false, false, "s.png");
    assert_eq!(m.program, "screencapture");
    assert_eq!(m.args, vec!["s.png"]);
    assert_eq!(screenshot_command(&Platform::Linux, true, false, "s.png").program, "grim");
}

#[test]
fn helper_commands() {
    let p = probe_command(&Platform::Linux, "grim");
    assert_eq!(p.program, "sh");
    assert_eq!(p.args, vec!["-c", "command -v grim"]);
    let p = probe_command(&Platform::Windows, "ffmpeg");
    assert_eq!(p.program, "where");
    assert_eq!(p.args, vec!["ffmpeg"]);
    let s = stop_command(&Platform::Windows, "42");
    assert_eq!(s.args, vec!["/PID", "42", "/T", "/F"]);
    let s = stop_command(&Platform::MacOs, "42");
    assert_eq!(s.program, "kill");
    assert_eq!(s.args, vec!["-INT", "42"]);
    assert_eq!(exit_failure("grim", "exit status: 1"), "grim exited with status exit status: 1");
}

#[test]
fn microphone_test_reports_level_or_empty_sample() {
    assert_eq!(audio_test_report(1000, 37), (true, "麦克风测试完成，输入电平约 37%".to_string()));
    assert_eq!(audio_test_report(1000, 0), (false, "麦克风测试完成，输入电平约 0%".to_string()));
    assert_eq!(audio_test_report(45, 100), (true, "麦克风测试完成，输入电平约 100%".to_string()));
    assert_eq!(audio_test_report(44, 80), (false, "麦克风测试完成，但样本几乎为空".to_string()));
    assert_eq!(audio_test_report(0, 0), (false, "麦克风测试完成，但样本几乎为空".to_string()));
}
