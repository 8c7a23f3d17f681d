//! Audio input: the devices read from the listings of `ffmpeg` or `pactl`,
//! and the `ffmpeg` command that records from one.
use vstd::prelude::*;
use crate::command::{command, command_text, push_arg, CommandLine, Platform};
use crate::index::{find_chars, find_from};
use crate::text::{
    chars_of, decimal, lines, lines_of, push_all, push_decimal, push_str, slice_chars, split_words, string_of,
    string_views, trim, trim_ws, views, words,
};

verus! {

/// An audio input device.
pub struct AudioDevice {
    pub id: String,
    pub name: String,
    pub is_default: bool,
}

pub struct DeviceSpec {
    pub id: Seq<char>,
    pub name: Seq<char>,
    pub is_default: bool,
}

impl View for AudioDevice {
    type V = DeviceSpec;

    open spec fn view(&self) -> DeviceSpec {
        DeviceSpec { id: self.id@, name: self.name@, is_default: self.is_default }
    }
}

pub open spec fn device_views(s: Seq<AudioDevice>) -> Seq<DeviceSpec> {
    s.map_values(|d: AudioDevice| d@)
}

proof fn lemma_device_views_push(s: Seq<AudioDevice>, d: AudioDevice)
    ensures
        device_views(s.push(d)) == device_views(s).push(d@),
{
    assert(device_views(s.push(d)) =~= device_views(s).push(d@));
}

/// The entry for the system's default input, listed first.
pub open spec fn default_device() -> DeviceSpec {
    DeviceSpec { id: seq![], name: "系统默认输入"@, is_default: true }
}

/// The devices with the system default put first.
pub fn with_default_device(devices: Vec<AudioDevice>) -> (r: Result<Vec<AudioDevice>, String>)
    ensures
        r matches Ok(v) && device_views(v@) == seq![default_device()] + device_views(devices@),
{
    let mut devices = devices;
    let ghost before = devices@;
    devices.insert(0, AudioDevice { id: String::new(), name: String::from_str("系统默认输入"), is_default: true });
    proof {
        assert(device_views(devices@) =~= seq![default_device()] + device_views(before));
    }
    Ok(devices)
}

/// The first position of `c` in `s`.
pub open spec fn char_index(s: Seq<char>, c: char) -> Option<int> {
    if exists|k: int| 0 <= k < s.len() && s[k] == c {
        Some(choose|k: int| 0 <= k < s.len() && s[k] == c && forall|m: int| 0 <= m < k ==> s[m] != c)
    } else {
        None
    }
}

fn char_position(v: &Vec<char>, c: char) -> (r: Option<usize>)
    ensures
        match char_index(v@, c) {
            None => r is None,
            Some(k) => r == Some(k as usize) && 0 <= k < v@.len(),
        },
        r matches Some(a) ==> a < v@.len() && char_index(v@, c) == Some(a as int),
{
    let mut k: usize = 0;
    while k < v.len() && v[k] != c
        invariant
            k <= v.len(),
            forall|m: int| 0 <= m < k ==> v@[m] != c,
        decreases v.len() - k,
    {
        k += 1;
    }
    if k == v.len() {
        None
    } else {
        proof {
            let w = choose|w: int| 0 <= w < v@.len() && v@[w] == c && forall|m: int| 0 <= m < w ==> v@[m] != c;
            if w < k {
                assert(v@[w] != c);
            }
            if w > k {
                assert(v@[k as int] != c);
            }
        }
        Some(k)
    }
}

/// The text between the first two double quotes of a line.
pub open spec fn quoted_text(line: Seq<char>) -> Option<Seq<char>> {
    match char_index(line, '"') {
        None => None,
        Some(a) => {
            let rest = line.skip(a + 1);
            match char_index(rest, '"') {
                None => None,
                Some(b) => Some(rest.take(b)),
            }
        },
    }
}

fn quoted_value_chars(line: &Vec<char>) -> (r: Option<Vec<char>>)
    ensures
        match quoted_text(line@) {
            None => r is None,
            Some(t) => r matches Some(x) && x@ == t,
        },
{
    let found = char_position(line, '"');
    let a = match found {
        Some(a) => a,
        None => return None,
    };
    assert(a < line.len());
    let rest = slice_chars(line, a + 1, line.len());
    proof {
        assert(rest@ == line@.skip(a + 1));
    }
    let b = match char_position(&rest, '"') {
        Some(b) => b,
        None => return None,
    };
    proof {
        assert(rest@.subrange(0, b as int) == rest@.take(b as int));
    }
    Some(slice_chars(&rest, 0, b))
}

/// The text between the first two double quotes of a line, if it has two.
pub fn quoted_value(line: &str) -> (r: Option<String>)
    ensures
        match quoted_text(line@) {
            None => r is None,
            Some(t) => r matches Some(x) && x@ == t,
        },
{
    match quoted_value_chars(&chars_of(line)) {
        Some(v) => Some(string_of(&v)),
        None => None,
    }
}

/// In `[id] name`, the id and the name, both trimmed and not empty.
pub open spec fn bracket_text(line: Seq<char>) -> Option<(Seq<char>, Seq<char>)> {
    match char_index(line, '[') {
        None => None,
        Some(a) => {
            let rest = line.skip(a + 1);
            match char_index(rest, ']') {
                None => None,
                Some(b) => {
                    let id = trim_ws(rest.take(b));
                    let name = trim_ws(rest.skip(b + 1));
                    if id.len() == 0 || name.len() == 0 {
                        None
                    } else {
                        Some((id, name))
                    }
                },
            }
        },
    }
}

fn bracket_device_chars(line: &Vec<char>) -> (r: Option<(Vec<char>, Vec<char>)>)
    ensures
        match bracket_text(line@) {
            None => r is None,
            Some(p) => r matches Some(x) && x.0@ == p.0 && x.1@ == p.1,
        },
{
    let found = char_position(line, '[');
    let a = match found {
        Some(a) => a,
        None => return None,
    };
    assert(a < line.len());
    let rest = slice_chars(line, a + 1, line.len());
    proof {
        assert(rest@ == line@.skip(a + 1));
    }
    let b = match char_position(&rest, ']') {
        Some(b) => b,
        None => return None,
    };
    let id = trim(&slice_chars(&rest, 0, b));
    let name = trim(&slice_chars(&rest, b + 1, rest.len()));
    proof {
        assert(rest@.subrange(0, b as int) == rest@.take(b as int));
        assert(rest@.subrange(b + 1, rest@.len() as int) == rest@.skip(b + 1));
    }
    if id.len() == 0 || name.len() == 0 {
        None
    } else {
        Some((id, name))
    }
}

/// In `[id] name`, the id and the name, both trimmed and not empty.
pub fn bracket_device(line: &str) -> (r: Option<(String, String)>)
    ensures
        match bracket_text(line@) {
            None => r is None,
            Some(p) => r matches Some(x) && x.0@ == p.0 && x.1@ == p.1,
        },
{
    match bracket_device_chars(&chars_of(line)) {
        Some((id, name)) => Some((string_of(&id), string_of(&name))),
        None => None,
    }
}

/// `pat` occurs in `s`.
pub open spec fn contains_text(s: Seq<char>, pat: Seq<char>) -> bool {
    find_from(s, pat, 0) is Some
}

fn contains(v: &Vec<char>, pat: &str) -> (b: bool)
    ensures
        b == contains_text(v@, pat@),
{
    find_chars(v, &chars_of(pat)).is_some()
}

/// A device whose id is also its name.
pub open spec fn named_device(n: Seq<char>) -> DeviceSpec {
    DeviceSpec { id: n, name: n, is_default: false }
}

/// The DirectShow listing: each line mentioning `(audio)` with a quoted
/// name gives that device.
pub open spec fn windows_devices(ls: Seq<Seq<char>>) -> Seq<DeviceSpec>
    decreases ls.len(),
{
    if ls.len() == 0 {
        seq![]
    } else {
        let prev = windows_devices(ls.drop_last());
        let l = ls.last();
        if contains_text(l, "(audio)"@) {
            match quoted_text(l) {
                Some(n) => prev.push(named_device(n)),
                None => prev,
            }
        } else {
            prev
        }
    }
}

/// The AVFoundation listing: after the line that opens the audio devices,
/// each `[index] name` line gives the device `:{index}`.
pub open spec fn macos_scan(ls: Seq<Seq<char>>) -> (bool, Seq<DeviceSpec>)
    decreases ls.len(),
{
    if ls.len() == 0 {
        (false, seq![])
    } else {
        let prev = macos_scan(ls.drop_last());
        let l = ls.last();
        if contains_text(l, "AVFoundation audio devices"@) {
            (true, prev.1)
        } else if !prev.0 {
            prev
        } else {
            match bracket_text(l) {
                Some(p) => (true, prev.1.push(DeviceSpec { id: ":"@ + p.0, name: p.1, is_default: false })),
                None => prev,
            }
        }
    }
}

/// The `pactl list short sources` listing: the second word of each line
/// that has two is a source.
pub open spec fn linux_devices(ls: Seq<Seq<char>>) -> Seq<DeviceSpec>
    decreases ls.len(),
{
    if ls.len() == 0 {
        seq![]
    } else {
        let prev = linux_devices(ls.drop_last());
        let ws = words(ls.last());
        if ws.len() >= 2 {
            prev.push(named_device(ws[1]))
        } else {
            prev
        }
    }
}

/// The devices a platform's listing shows.
pub open spec fn listed_devices(platform: Platform, listing: Seq<char>) -> Seq<DeviceSpec> {
    match platform {
        Platform::Windows => windows_devices(lines_of(listing)),
        Platform::MacOs => macos_scan(lines_of(listing)).1,
        Platform::Linux => linux_devices(lines_of(listing)),
    }
}

fn list_windows_audio_devices(ls: &Vec<Vec<char>>) -> (r: Vec<AudioDevice>)
    ensures
        device_views(r@) == windows_devices(views(ls@)),
{
    let ghost all = views(ls@);
    let mut out: Vec<AudioDevice> = Vec::new();
    let mut i: usize = 0;
    proof {
        assert(device_views(out@) =~= windows_devices(all.take(0)));
    }
    while i < ls.len()
        invariant
            i <= ls@.len(),
            all == views(ls@),
            all.len() == ls@.len(),
            device_views(out@) == windows_devices(all.take(i as int)),
        decreases ls.len() - i,
    {
        proof {
            assert(all.take(i + 1).drop_last() == all.take(i as int));
            assert(all.take(i + 1).last() == ls@[i as int]@);
        }
        let l = &ls[i];
        if contains(l, "(audio)") {
            match quoted_value_chars(l) {
                Some(n) => {
                    let d = AudioDevice { id: string_of(&n), name: string_of(&n), is_default: false };
                    let ghost before = out@;
                    out.push(d);
                    proof {
                        lemma_device_views_push(before, d);
                    }
                },
                None => {},
            }
        }
        i += 1;
    }
    proof {
        assert(all.take(all.len() as int) == all);
    }
    out
}

fn list_macos_audio_devices(ls: &Vec<Vec<char>>) -> (r: Vec<AudioDevice>)
    ensures
        device_views(r@) == macos_scan(views(ls@)).1,
{
    let ghost all = views(ls@);
    let mut out: Vec<AudioDevice> = Vec::new();
    let mut in_audio = false;
    let mut i: usize = 0;
    proof {
        assert(device_views(out@) =~= Seq::<DeviceSpec>::empty());
        assert(all.take(0).len() == 0);
    }
    while i < ls.len()
        invariant
            i <= ls@.len(),
            all == views(ls@),
            all.len() == ls@.len(),
            (in_audio, device_views(out@)) == macos_scan(all.take(i as int)),
        decreases ls.len() - i,
    {
        proof {
            assert(all.take(i + 1).drop_last() == all.take(i as int));
            assert(all.take(i + 1).last() == ls@[i as int]@);
        }
        let l = &ls[i];
        if contains(l, "AVFoundation audio devices") {
            in_audio = true;
        } else if in_audio {
            match bracket_device_chars(l) {
                Some((id, name)) => {
                    let mut full: Vec<char> = Vec::new();
                    push_str(&mut full, ":");
                    push_all(&mut full, &id);
                    let d = AudioDevice { id: string_of(&full), name: string_of(&name), is_default: false };
                    let ghost before = out@;
                    out.push(d);
                    proof {
                        lemma_device_views_push(before, d);
                    }
                },
                None => {},
            }
        }
        i += 1;
    }
    proof {
        assert(all.take(all.len() as int) == all);
    }
    out
}

fn list_linux_audio_devices(ls: &Vec<Vec<char>>) -> (r: Vec<AudioDevice>)
    ensures
        device_views(r@) == linux_devices(views(ls@)),
{
    let ghost all = views(ls@);
    let mut out: Vec<AudioDevice> = Vec::new();
    let mut i: usize = 0;
    proof {
        assert(device_views(out@) =~= linux_devices(all.take(0)));
    }
    while i < ls.len()
        invariant
            i <= ls@.len(),
            all == views(ls@),
            all.len() == ls@.len(),
            device_views(out@) == linux_devices(all.take(i as int)),
        decreases ls.len() - i,
    {
        proof {
            assert(all.take(i + 1).drop_last() == all.take(i as int));
            assert(all.take(i + 1).last() == ls@[i as int]@);
        }
        let ws = split_words(&ls[i]);
        if ws.len() >= 2 {
            proof {
                assert(views(ws@)[1] == ws@[1]@);
            }
            let d = AudioDevice { id: string_of(&ws[1]), name: string_of(&ws[1]), is_default: false };
            let ghost before = out@;
            out.push(d);
            proof {
                lemma_device_views_push(before, d);
            }
        }
        i += 1;
    }
    proof {
        assert(all.take(all.len() as int) == all);
    }
    out
}

/// The input devices of a platform, read from what its listing command
/// printed (`ffmpeg` on Windows and macOS, `pactl` on Linux; nothing when
/// `pactl` could not run), after the system default.
pub fn list_audio_devices(platform: &Platform, listing: &str) -> (r: Result<Vec<AudioDevice>, String>)
    ensures
        r matches Ok(v) && device_views(v@) == seq![default_device()] + listed_devices(*platform, listing@),
{
    let ls = lines(&chars_of(listing));
    let devices = match platform {
        Platform::Windows => list_windows_audio_devices(&ls),
        Platform::MacOs => list_macos_audio_devices(&ls),
        Platform::Linux => list_linux_audio_devices(&ls),
    };
    with_default_device(devices)
}

/// The device a recording uses: the given id unless it is blank, else the
/// platform's default.
pub open spec fn audio_input_text(platform: Platform, device_id: Option<Seq<char>>) -> Seq<char> {
    let chosen = match device_id {
        Some(d) => if trim_ws(d).len() > 0 { Some(d) } else { None },
        None => None,
    };
    match platform {
        Platform::Windows => match chosen {
            Some(d) => "audio="@ + d,
            None => "audio=default"@,
        },
        Platform::MacOs => match chosen {
            Some(d) => d,
            None => ":0"@,
        },
        Platform::Linux => match chosen {
            Some(d) => d,
            None => "default"@,
        },
    }
}

/// The capture format of a platform for `ffmpeg -f`.
pub open spec fn audio_format_text(platform: Platform) -> Seq<char> {
    match platform {
        Platform::Windows => "dshow"@,
        Platform::MacOs => "avfoundation"@,
        Platform::Linux => "pulse"@,
    }
}

/// `ffmpeg -y -f {format} -i {input} [-t {duration}] {output}`.
pub open spec fn audio_command_text(platform: Platform, output: Seq<char>, device_id: Option<Seq<char>>, duration: Option<Seq<char>>) -> (Seq<char>, Seq<Seq<char>>) {
    let head = seq!["-y"@, "-f"@, audio_format_text(platform), "-i"@, audio_input_text(platform, device_id)];
    let timed = match duration {
        Some(d) => head + seq!["-t"@, d],
        None => head,
    };
    ("ffmpeg"@, timed.push(output))
}

pub open spec fn str_opt_view(o: Option<&str>) -> Option<Seq<char>> {
    match o {
        Some(s) => Some(s@),
        None => None,
    }
}

/// The `ffmpeg` command that records from a device to `output`, for
/// `duration` seconds when given.
pub fn audio_command(platform: &Platform, output: &str, device_id: Option<&str>, duration: Option<&str>) -> (c: CommandLine)
    ensures
        command_text(c) == audio_command_text(*platform, output@, str_opt_view(device_id), str_opt_view(duration)),
{
    let chosen: Option<&str> = match device_id {
        Some(d) => if trim(&chars_of(d)).len() > 0 { Some(d) } else { None },
        None => None,
    };
    let mut input: Vec<char> = Vec::new();
    let format = match platform {
        Platform::Windows => {
            match chosen {
                Some(d) => {
                    push_str(&mut input, "audio=");
                    push_str(&mut input, d);
                },
                None => push_str(&mut input, "audio=default"),
            }
            "dshow"
        },
        Platform::MacOs => {
            match chosen {
                Some(d) => push_str(&mut input, d),
                None => push_str(&mut input, ":0"),
            }
            "avfoundation"
        },
        Platform::Linux => {
            match chosen {
                Some(d) => push_str(&mut input, d),
                None => push_str(&mut input, "default"),
            }
            "pulse"
        },
    };
    let input_text = string_of(&input);
    let mut args: Vec<String> = Vec::new();
    proof {
        assert(string_views(args@) =~= Seq::<Seq<char>>::empty());
    }
    push_arg(&mut args, "-y");
    push_arg(&mut args, "-f");
    push_arg(&mut args, format);
    push_arg(&mut args, "-i");
    push_arg(&mut args, input_text.as_str());
    match duration {
        Some(d) => {
            push_arg(&mut args, "-t");
            push_arg(&mut args, d);
        },
        None => {},
    }
    push_arg(&mut args, output);
    proof {
        let head = seq!["-y"@, "-f"@, audio_format_text(*platform), "-i"@, audio_input_text(*platform, str_opt_view(device_id))];
        assert(format@ == audio_format_text(*platform));
        assert(input_text@ == audio_input_text(*platform, str_opt_view(device_id)));
        match duration {
            Some(d) => assert(string_views(args@) =~= (head + seq!["-t"@, d@]).push(output@)),
            None => assert(string_views(args@) =~= head.push(output@)),
        }
    }
    command("ffmpeg", args)
}


/// Where `ffmpeg` writes what it discards: `NUL` on Windows, else `/dev/null`.
pub open spec fn null_target_text(platform: Platform) -> Seq<char> {
    match platform {
        Platform::Windows => "NUL"@,
        _ => "/dev/null"@,
    }
}

/// `ffmpeg` measuring the volume of a recorded sample.
pub open spec fn volume_probe_text(platform: Platform, path: Seq<char>) -> (Seq<char>, Seq<Seq<char>>) {
    ("ffmpeg"@, seq!["-i"@, path, "-af"@, "volumedetect"@, "-f"@, "null"@, null_target_text(platform)])
}

pub fn volume_probe_command(platform: &Platform, path: &str) -> (c: CommandLine)
    ensures
        command_text(c) == volume_probe_text(*platform, path@),
{
    let target = match platform {
        Platform::Windows => "NUL",
        _ => "/dev/null",
    };
    let mut args: Vec<String> = Vec::new();
    proof {
        assert(string_views(args@) =~= Seq::<Seq<char>>::empty());
    }
    push_arg(&mut args, "-i");
    push_arg(&mut args, path);
    push_arg(&mut args, "-af");
    push_arg(&mut args, "volumedetect");
    push_arg(&mut args, "-f");
    push_arg(&mut args, "null");
    push_arg(&mut args, target);
    proof {
        assert(string_views(args@) =~= volume_probe_text(*platform, path@).1);
    }
    command("ffmpeg", args)
}

/// The message of a microphone test: the input level when the sample holds
/// more than a WAV header (44 bytes), else that the sample is nearly empty.
pub open spec fn audio_test_message(bytes: u64, level_percent: u8) -> Seq<char> {
    if bytes > 44 {
        "麦克风测试完成，输入电平约 "@ + decimal(level_percent as nat) + "%"@
    } else {
        "麦克风测试完成，但样本几乎为空"@
    }
}

/// The outcome of a microphone test from the size of the sample and its
/// level: it passed when the sample holds audio and the level is above 0.
pub fn audio_test_report(bytes: u64, level_percent: u8) -> (r: (bool, String))
    ensures
        r.0 == (bytes > 44 && level_percent > 0),
        r.1@ == audio_test_message(bytes, level_percent),
{
    let ok = bytes > 44 && level_percent > 0;
    if bytes > 44 {
        let mut m: Vec<char> = Vec::new();
        push_str(&mut m, "麦克风测试完成，输入电平约 ");
        push_decimal(&mut m, level_percent as u128);
        push_str(&mut m, "%");
        (ok, string_of(&m))
    } else {
        (ok, String::from_str("麦克风测试完成，但样本几乎为空"))
    }
}

} // verus!
