//! What goes to the AI service and what is read from its answers: data URLs
//! of media, the summary prompt, the text of a response, the transcript
//! built chunk by chunk, and the preview of it.
use base64::Engine;
use vstd::prelude::*;
use crate::command::{command, command_text, push_arg, CommandLine};
use crate::index::{lowercase_text, lowercase_str, all_ascii};
use crate::sessions::{offline_summary, offline_summary_text};
use crate::text::{
    chars_of, join, push_all, push_str, same_text, slice_chars, split_chars, split_on, split_scan, string_of, ascii_lower_all,
    string_views, trim, trim_ws, views,
};

verus! {

/// The char of a six-bit value in the standard base64 alphabet
/// (`A-Z a-z 0-9 + /`).
pub open spec fn base64_digit(v: int) -> char {
    if v < 26 {
        (65 + v) as char
    } else if v < 52 {
        (97 + v - 26) as char
    } else if v < 62 {
        (48 + v - 52) as char
    } else if v == 62 {
        '+'
    } else {
        '/'
    }
}

/// Standard base64 with `=` padding (RFC 4648): each group of three bytes
/// becomes four chars, and a last group of one or two bytes is padded.
pub open spec fn base64_standard(b: Seq<u8>) -> Seq<char>
    decreases b.len(),
{
    if b.len() == 0 {
        Seq::<char>::empty()
    } else if b.len() == 1 {
        seq![base64_digit(b[0] as int / 4), base64_digit((b[0] as int % 4) * 16), '=', '=']
    } else if b.len() == 2 {
        seq![
            base64_digit(b[0] as int / 4),
            base64_digit((b[0] as int % 4) * 16 + b[1] as int / 16),
            base64_digit((b[1] as int % 16) * 4),
            '=',
        ]
    } else {
        seq![
            base64_digit(b[0] as int / 4),
            base64_digit((b[0] as int % 4) * 16 + b[1] as int / 16),
            base64_digit((b[1] as int % 16) * 4 + b[2] as int / 64),
            base64_digit(b[2] as int % 64),
        ] + base64_standard(b.skip(3))
    }
}

/// Calls `base64::engine::general_purpose::STANDARD.encode`.
/// Claimed of it: the text is the standard base64 of the bytes, with `=`
/// padding (the engine's alphabet and padding config). It panics only when
/// the length of the text overflows a `usize`, which no slice of at most
/// `isize::MAX` bytes (the most any allocation holds) reaches.
#[verifier::external_body]
fn base64_encode(bytes: &[u8]) -> (r: String)
    requires
        bytes@.len() <= isize::MAX,
    ensures
        r@ == base64_standard(bytes@),
{
    base64::engine::general_purpose::STANDARD.encode(bytes)
}

/// `data:{mime};base64,{data}`.
pub open spec fn data_url_text(mime: Seq<char>, bytes: Seq<u8>) -> Seq<char> {
    "data:"@ + mime + ";base64,"@ + base64_standard(bytes)
}

fn data_url(mime: &str, bytes: &[u8]) -> (r: String)
    requires
        bytes@.len() <= isize::MAX,
    ensures
        r@ == data_url_text(mime@, bytes@),
{
    let b = base64_encode(bytes);
    let mut out: Vec<char> = Vec::new();
    push_str(&mut out, "data:");
    push_str(&mut out, mime);
    push_str(&mut out, ";base64,");
    push_str(&mut out, b.as_str());
    string_of(&out)
}

/// The extension of a path: the text after its last `.` (all of it when
/// there is none), lowercased.
pub open spec fn extension_text(path: Seq<char>) -> Seq<char> {
    lowercase_str(split_on(path, '.').last())
}

fn extension(path: &str) -> (r: String)
    ensures
        r@ == extension_text(path@),
{
    let parts = split_chars(&chars_of(path), '.');
    assert(views(parts@).len() == parts@.len());
    let last = &parts[parts.len() - 1];
    proof {
        assert(views(parts@).last() == parts@.last()@);
    }
    let s = string_of(last);
    lowercase_text(s.as_str())
}

/// The type of an image by its extension; PNG when unknown.
pub open spec fn image_mime_text(ext: Seq<char>) -> Seq<char> {
    if ext == "jpg"@ || ext == "jpeg"@ {
        "image/jpeg"@
    } else if ext == "gif"@ {
        "image/gif"@
    } else if ext == "webp"@ {
        "image/webp"@
    } else {
        "image/png"@
    }
}

fn image_mime(ext: &str) -> (r: &'static str)
    ensures
        r@ == image_mime_text(ext@),
{
    if same_text(ext, "jpg") || same_text(ext, "jpeg") {
        "image/jpeg"
    } else if same_text(ext, "gif") {
        "image/gif"
    } else if same_text(ext, "webp") {
        "image/webp"
    } else {
        "image/png"
    }
}

proof fn lemma_split_last_piece(stem: Seq<char>, ext: Seq<char>)
    requires
        forall|k: int| 0 <= k < ext.len() ==> ext[k] != '.',
    ensures
        split_scan(stem + seq!['.'] + ext, '.').1 == ext,
    decreases ext.len(),
{
    let s = stem + seq!['.'] + ext;
    if ext.len() == 0 {
        assert(s.last() == '.');
    } else {
        let d = ext.drop_last();
        assert forall|k: int| 0 <= k < d.len() implies d[k] != '.' by {
            assert(d[k] == ext[k]);
        }
        lemma_split_last_piece(stem, d);
        assert(s.drop_last() =~= stem + seq!['.'] + d);
        assert(s.last() == ext.last());
        assert(d.push(ext.last()) =~= ext);
    }
}

/// The extension of a path is what follows its last `.`, lowercased: for an
/// ASCII extension, each upper-case letter moved down.
pub proof fn lemma_extension_of_path(stem: Seq<char>, ext: Seq<char>)
    requires
        all_ascii(ext),
        forall|k: int| 0 <= k < ext.len() ==> ext[k] != '.',
    ensures
        extension_text(stem + seq!['.'] + ext) == ascii_lower_all(ext),
{
    lemma_split_last_piece(stem, ext);
}

/// Media files are typed by their extension, whatever its case: `.mp4`
/// video/mp4, `.mov` video/quicktime, `.mkv` video/x-matroska, `.webm`
/// video/webm, `.wav` audio/wav, `.mp3` audio/mpeg, `.m4a` audio/mp4, `.ogg`
/// audio/ogg, anything else application/octet-stream; so the data URL of an
/// `.mp4` recording starts with `data:video/mp4;base64,`.
pub proof fn lemma_media_type_by_extension(stem: Seq<char>, ext: Seq<char>, data: Seq<u8>)
    requires
        all_ascii(ext),
        forall|k: int| 0 <= k < ext.len() ==> ext[k] != '.',
    ensures
        ({
            let lower = ascii_lower_all(ext);
            let m = media_mime_text(extension_text(stem + seq!['.'] + ext));
            &&& lower == "mp4"@ ==> m == "video/mp4"@
            &&& lower == "mov"@ ==> m == "video/quicktime"@
            &&& lower == "mkv"@ ==> m == "video/x-matroska"@
            &&& lower == "webm"@ ==> m == "video/webm"@
            &&& lower == "wav"@ ==> m == "audio/wav"@
            &&& lower == "mp3"@ ==> m == "audio/mpeg"@
            &&& lower == "m4a"@ ==> m == "audio/mp4"@
            &&& lower == "ogg"@ ==> m == "audio/ogg"@
            &&& (lower != "mp4"@ && lower != "mov"@ && lower != "mkv"@ && lower != "webm"@ && lower
                != "wav"@ && lower != "mp3"@ && lower != "m4a"@ && lower != "ogg"@) ==> m
                == "application/octet-stream"@
            &&& lower == "mp4"@ ==> data_url_text(m, data).take(22) == "data:video/mp4;base64,"@
        }),
{
    lemma_extension_of_path(stem, ext);
    reveal_strlit("mp4");
    reveal_strlit("mov");
    reveal_strlit("mkv");
    reveal_strlit("webm");
    reveal_strlit("wav");
    reveal_strlit("mp3");
    reveal_strlit("m4a");
    reveal_strlit("ogg");
    reveal_strlit("data:");
    reveal_strlit("video/mp4");
    reveal_strlit(";base64,");
    reveal_strlit("data:video/mp4;base64,");
    let lower = ascii_lower_all(ext);
    assert(extension_text(stem + seq!['.'] + ext) == lower);
    let lits = seq!["mp4"@, "mov"@, "mkv"@, "webm"@, "wav"@, "mp3"@, "m4a"@, "ogg"@];
    assert forall|a: int, b: int| 0 <= a < b < 8 implies lits[a] != lits[b] by {
        assert(lits[a][0] != lits[b][0] || lits[a][1] != lits[b][1] || lits[a][2] != lits[b][2]
            || lits[a].len() != lits[b].len());
    }
    assert("mp4"@ == lits[0] && "mov"@ == lits[1] && "mkv"@ == lits[2] && "webm"@ == lits[3]);
    assert("wav"@ == lits[4] && "mp3"@ == lits[5] && "m4a"@ == lits[6] && "ogg"@ == lits[7]);
    let m = media_mime_text(extension_text(stem + seq!['.'] + ext));
    if lower == "mp4"@ {
        let u = data_url_text(m, data);
        assert(u.take(22) =~= "data:video/mp4;base64,"@);
    }
}

/// Images are typed by their extension, whatever its case: `.jpg` and
/// `.jpeg` image/jpeg, `.gif` image/gif, `.webp` image/webp, anything else
/// image/png.
pub proof fn lemma_image_type_by_extension(stem: Seq<char>, ext: Seq<char>)
    requires
        all_ascii(ext),
        forall|k: int| 0 <= k < ext.len() ==> ext[k] != '.',
    ensures
        ({
            let lower = ascii_lower_all(ext);
            let m = image_mime_text(extension_text(stem + seq!['.'] + ext));
            &&& (lower == "jpg"@ || lower == "jpeg"@) ==> m == "image/jpeg"@
            &&& lower == "gif"@ ==> m == "image/gif"@
            &&& lower == "webp"@ ==> m == "image/webp"@
            &&& (lower != "jpg"@ && lower != "jpeg"@ && lower != "gif"@ && lower != "webp"@) ==> m
                == "image/png"@
        }),
{
    lemma_extension_of_path(stem, ext);
    reveal_strlit("jpg");
    reveal_strlit("jpeg");
    reveal_strlit("gif");
    reveal_strlit("webp");
    let lits = seq!["jpg"@, "jpeg"@, "gif"@, "webp"@];
    assert forall|a: int, b: int| 0 <= a < b < 4 implies lits[a] != lits[b] by {
        assert(lits[a][0] != lits[b][0] || lits[a].len() != lits[b].len());
    }
    assert("jpg"@ == lits[0] && "jpeg"@ == lits[1] && "gif"@ == lits[2] && "webp"@ == lits[3]);
}

/// An image's bytes as a data URL, typed by the path's extension.
pub fn load_image_as_data_url(path: &str, data: &[u8]) -> (r: String)
    requires
        data@.len() <= isize::MAX,
    ensures
        r@ == data_url_text(image_mime_text(extension_text(path@)), data@),
{
    let ext = extension(path);
    data_url(image_mime(ext.as_str()), data)
}

/// The type of a video or audio file by its extension.
pub open spec fn media_mime_text(ext: Seq<char>) -> Seq<char> {
    if ext == "mp4"@ {
        "video/mp4"@
    } else if ext == "mov"@ {
        "video/quicktime"@
    } else if ext == "mkv"@ {
        "video/x-matroska"@
    } else if ext == "webm"@ {
        "video/webm"@
    } else if ext == "wav"@ {
        "audio/wav"@
    } else if ext == "mp3"@ {
        "audio/mpeg"@
    } else if ext == "m4a"@ {
        "audio/mp4"@
    } else if ext == "ogg"@ {
        "audio/ogg"@
    } else {
        "application/octet-stream"@
    }
}

fn media_mime(ext: &str) -> (r: &'static str)
    ensures
        r@ == media_mime_text(ext@),
{
    if same_text(ext, "mp4") {
        "video/mp4"
    } else if same_text(ext, "mov") {
        "video/quicktime"
    } else if same_text(ext, "mkv") {
        "video/x-matroska"
    } else if same_text(ext, "webm") {
        "video/webm"
    } else if same_text(ext, "wav") {
        "audio/wav"
    } else if same_text(ext, "mp3") {
        "audio/mpeg"
    } else if same_text(ext, "m4a") {
        "audio/mp4"
    } else if same_text(ext, "ogg") {
        "audio/ogg"
    } else {
        "application/octet-stream"
    }
}

/// A video or audio file's bytes as a data URL, typed by the extension.
pub fn load_media_as_data_url(path: &str, data: &[u8]) -> (r: String)
    requires
        data@.len() <= isize::MAX,
    ensures
        r@ == data_url_text(media_mime_text(extension_text(path@)), data@),
{
    let ext = extension(path);
    data_url(media_mime(ext.as_str()), data)
}

/// A screenshot as the PNG data URL sent for analysis.
pub fn screenshot_data_url(data: &[u8]) -> (r: String)
    requires
        data@.len() <= isize::MAX,
    ensures
        r@ == data_url_text("image/png"@, data@),
{
    data_url("image/png", data)
}

/// The request for a summary of the notes.
pub open spec fn summary_prompt_text(notes: Seq<char>) -> Seq<char> {
    "请把以下会议听记整理成中文会议纪要，包含：摘要、关键决定、待办事项、风险或未决问题。\n\n"@ + notes
}

pub fn summary_prompt(notes: &str) -> (r: String)
    ensures
        r@ == summary_prompt_text(notes@),
{
    let mut out: Vec<char> = Vec::new();
    push_str(&mut out, "请把以下会议听记整理成中文会议纪要，包含：摘要、关键决定、待办事项、风险或未决问题。\n\n");
    push_str(&mut out, notes);
    string_of(&out)
}

/// An entry of the `output` array of a response: the `text` of each part of
/// its `content` array when that is a string (`None` for other parts);
/// `content` itself is `None` when it is not an array.
pub struct OutputItem {
    pub content: Option<Vec<Option<String>>>,
}

/// A response of the responses API, as far as its text is read:
/// `output_text` when it is a string, and the `output` array when it is one.
pub struct ResponseBody {
    pub output_text: Option<String>,
    pub output: Option<Vec<OutputItem>>,
}

/// The texts of the parts of one entry.
pub open spec fn part_texts(parts: Seq<Option<String>>) -> Seq<Seq<char>>
    decreases parts.len(),
{
    if parts.len() == 0 {
        seq![]
    } else {
        match parts.last() {
            Some(t) => part_texts(parts.drop_last()).push(t@),
            None => part_texts(parts.drop_last()),
        }
    }
}

/// The texts of all entries, in order.
pub open spec fn output_texts(items: Seq<OutputItem>) -> Seq<Seq<char>>
    decreases items.len(),
{
    if items.len() == 0 {
        seq![]
    } else {
        output_texts(items.drop_last()) + match items.last().content {
            Some(parts) => part_texts(parts@),
            None => seq![],
        }
    }
}

/// The text of a response: `output_text` if given, else the texts of the
/// output entries joined by newlines, if there are any.
pub open spec fn response_text(body: ResponseBody) -> Option<Seq<char>> {
    match body.output_text {
        Some(t) => Some(t@),
        None => match body.output {
            None => None,
            Some(items) => {
                let texts = output_texts(items@);
                if texts.len() == 0 {
                    None
                } else {
                    Some(join(texts, "\n"@))
                }
            },
        },
    }
}

fn push_texts(acc: &mut Vec<String>, parts: &Vec<Option<String>>)
    ensures
        crate::text::string_views(final(acc)@) == crate::text::string_views(old(acc)@) + part_texts(parts@),
{
    let mut k: usize = 0;
    while k < parts.len()
        invariant
            k <= parts@.len(),
            crate::text::string_views(acc@) == crate::text::string_views(old(acc)@) + part_texts(parts@.take(k as int)),
        decreases parts.len() - k,
    {
        proof {
            assert(parts@.take(k + 1).drop_last() == parts@.take(k as int));
        }
        match &parts[k] {
            Some(t) => {
                let ghost before = acc@;
                let c = t.clone();
                acc.push(c);
                proof {
                    crate::text::lemma_string_views_push(before, c);
                    assert(crate::text::string_views(old(acc)@) + part_texts(parts@.take(k + 1))
                        == crate::text::string_views(old(acc)@) + part_texts(parts@.take(k as int)) + seq![t@]);
                }
            },
            None => {},
        }
        k += 1;
    }
    proof {
        assert(parts@.take(parts@.len() as int) == parts@);
    }
}

/// The text of a summary response.
pub fn extract_output_text(body: &ResponseBody) -> (r: Option<String>)
    ensures
        match response_text(*body) {
            None => r is None,
            Some(t) => r matches Some(x) && x@ == t,
        },
{
    match &body.output_text {
        Some(t) => return Some(t.clone()),
        None => {},
    }
    let items = match &body.output {
        Some(items) => items,
        None => return None,
    };
    let mut chunks: Vec<String> = Vec::new();
    let mut i: usize = 0;
    while i < items.len()
        invariant
            i <= items@.len(),
            crate::text::string_views(chunks@) == output_texts(items@.take(i as int)),
        decreases items.len() - i,
    {
        proof {
            assert(items@.take(i + 1).drop_last() == items@.take(i as int));
        }
        match &items[i].content {
            Some(parts) => push_texts(&mut chunks, parts),
            None => {
                proof {
                    assert(output_texts(items@.take(i + 1)) == output_texts(items@.take(i as int)) + Seq::<Seq<char>>::empty());
                }
            },
        }
        i += 1;
    }
    proof {
        assert(items@.take(items@.len() as int) == items@);
    }
    if chunks.len() == 0 {
        None
    } else {
        let joined = crate::text::join_strings(&chunks, "\n");
        Some(string_of(&joined))
    }
}

/// The transcript after one more chunk: its trimmed text, after a blank line
/// when the transcript is not empty.
pub open spec fn with_chunk(transcript: Seq<char>, chunk: Seq<char>) -> Seq<char> {
    if transcript.len() == 0 {
        trim_ws(chunk)
    } else {
        transcript + "\n\n"@ + trim_ws(chunk)
    }
}

/// Adds a transcribed chunk to the transcript and gives back its trimmed
/// text (what the task shows as partial text).
pub fn append_chunk(transcript: &mut String, chunk_text: &str) -> (trimmed: String)
    ensures
        trimmed@ == trim_ws(chunk_text@),
        final(transcript)@ == with_chunk(old(transcript)@, chunk_text@),
{
    let t = trim(&chars_of(chunk_text));
    let mut out = chars_of(transcript.as_str());
    if out.len() > 0 {
        push_str(&mut out, "\n\n");
    }
    push_all(&mut out, &t);
    *transcript = string_of(&out);
    string_of(&t)
}

/// The preview of a transcript: its first 240 chars after trimming, with
/// `...` when there were more.
pub open spec fn preview_text(transcript: Seq<char>) -> Seq<char> {
    let t = trim_ws(transcript);
    if t.len() > 240 {
        t.take(240) + "..."@
    } else {
        t
    }
}

pub fn transcript_preview(transcript: &str) -> (r: String)
    ensures
        r@ == preview_text(transcript@),
{
    let t = trim(&chars_of(transcript));
    if t.len() > 240 {
        let mut p = slice_chars(&t, 0, 240);
        push_str(&mut p, "...");
        proof {
            assert(t@.subrange(0, 240) == t@.take(240));
        }
        string_of(&p)
    } else {
        string_of(&t)
    }
}

/// The text the screenshot analysis adds to the notes.
pub open spec fn analysis_note_text(analysis: Seq<char>) -> Seq<char> {
    "\n\n## 截图识别结果\n\n"@ + trim_ws(analysis)
}

pub fn analysis_note(analysis: &str) -> (r: String)
    ensures
        r@ == analysis_note_text(analysis@),
{
    let mut out: Vec<char> = Vec::new();
    push_str(&mut out, "\n\n## 截图识别结果\n\n");
    push_all(&mut out, &trim(&chars_of(analysis)));
    string_of(&out)
}

/// The analysis in a vision response: the message content, trimmed.
pub fn vision_text(content: Option<&str>) -> (r: Result<String, String>)
    ensures
        match content {
            Some(c) => r matches Ok(t) && t@ == trim_ws(c@),
            None => r matches Err(e) && e@ == "vision response did not include content"@,
        },
{
    match content {
        Some(c) => Ok(string_of(&trim(&chars_of(c)))),
        None => Err(String::from_str("vision response did not include content")),
    }
}

/// `{what} failed with status {status}: {body}`.
pub open spec fn failed_status_text(what: Seq<char>, status: Seq<char>, body: Seq<char>) -> Seq<char> {
    what + " failed with status "@ + status + ": "@ + body
}

/// The outcome of a transcription request: the trimmed text when the status
/// was a success, else the failure with the status and the body.
pub fn transcription_outcome(success: bool, status: &str, body: &str) -> (r: Result<String, String>)
    ensures
        success ==> (r matches Ok(t) && t@ == trim_ws(body@)),
        !success ==> (r matches Err(e) && e@ == failed_status_text("transcription"@, status@, body@)),
{
    if success {
        Ok(string_of(&trim(&chars_of(body))))
    } else {
        Err(failed_status(String::from_str("transcription").as_str(), status, body))
    }
}

/// The failure of a request with a status other than success.
pub fn failed_status(what: &str, status: &str, body: &str) -> (r: String)
    ensures
        r@ == failed_status_text(what@, status@, body@),
{
    let mut out: Vec<char> = Vec::new();
    push_str(&mut out, what);
    push_str(&mut out, " failed with status ");
    push_str(&mut out, status);
    push_str(&mut out, ": ");
    push_str(&mut out, body);
    string_of(&out)
}

/// The newest of a session's files of one kind (the last in the list), or
/// the given complaint when there is none.
pub fn latest_file(paths: &Vec<String>, missing: &str) -> (r: Result<String, String>)
    ensures
        paths@.len() == 0 ==> (r matches Err(e) && e@ == missing@),
        paths@.len() > 0 ==> (r matches Ok(p) && p@ == paths@.last()@),
{
    if paths.len() == 0 {
        Err(String::from_str(missing))
    } else {
        Ok(paths[paths.len() - 1].clone())
    }
}


/// `ffmpeg` converting audio to 16 kHz mono MP3 before upload.
pub open spec fn convert_text(input: Seq<char>, output: Seq<char>) -> (Seq<char>, Seq<Seq<char>>) {
    ("ffmpeg"@, seq!["-y"@, "-i"@, input, "-acodec"@, "libmp3lame"@, "-ar"@, "16000"@, "-ac"@, "1"@, output])
}

pub fn convert_to_mp3_command(input: &str, output: &str) -> (c: CommandLine)
    ensures
        command_text(c) == convert_text(input@, output@),
{
    let mut args: Vec<String> = Vec::new();
    proof {
        assert(string_views(args@) =~= Seq::<Seq<char>>::empty());
    }
    push_arg(&mut args, "-y");
    push_arg(&mut args, "-i");
    push_arg(&mut args, input);
    push_arg(&mut args, "-acodec");
    push_arg(&mut args, "libmp3lame");
    push_arg(&mut args, "-ar");
    push_arg(&mut args, "16000");
    push_arg(&mut args, "-ac");
    push_arg(&mut args, "1");
    push_arg(&mut args, output);
    proof {
        assert(string_views(args@) =~= convert_text(input@, output@).1);
    }
    command("ffmpeg", args)
}

/// `ffmpeg` scaling a screenshot so that neither side exceeds 2048 pixels.
pub open spec fn resize_text(input: Seq<char>, output: Seq<char>) -> (Seq<char>, Seq<Seq<char>>) {
    ("ffmpeg"@, seq!["-y"@, "-i"@, input, "-vf"@, "scale='min(2048,iw)':min(2048,ih)'"@, output])
}

pub fn resize_image_command(input: &str, output: &str) -> (c: CommandLine)
    ensures
        command_text(c) == resize_text(input@, output@),
{
    let mut args: Vec<String> = Vec::new();
    proof {
        assert(string_views(args@) =~= Seq::<Seq<char>>::empty());
    }
    push_arg(&mut args, "-y");
    push_arg(&mut args, "-i");
    push_arg(&mut args, input);
    push_arg(&mut args, "-vf");
    push_arg(&mut args, "scale='min(2048,iw)':min(2048,ih)'");
    push_arg(&mut args, output);
    proof {
        assert(string_views(args@) =~= resize_text(input@, output@).1);
    }
    command("ffmpeg", args)
}

/// `ffmpeg` cutting audio into five-minute MP3 chunks named by `pattern`.
pub open spec fn split_text(input: Seq<char>, pattern: Seq<char>) -> (Seq<char>, Seq<Seq<char>>) {
    (
        "ffmpeg"@,
        seq![
            "-y"@,
            "-i"@,
            input,
            "-f"@,
            "segment"@,
            "-segment_time"@,
            "300"@,
            "-reset_timestamps"@,
            "1"@,
            "-acodec"@,
            "libmp3lame"@,
            "-ar"@,
            "16000"@,
            "-ac"@,
            "1"@,
            pattern,
        ],
    )
}

pub fn split_audio_command(input: &str, pattern: &str) -> (c: CommandLine)
    ensures
        command_text(c) == split_text(input@, pattern@),
{
    let mut args: Vec<String> = Vec::new();
    proof {
        assert(string_views(args@) =~= Seq::<Seq<char>>::empty());
    }
    push_arg(&mut args, "-y");
    push_arg(&mut args, "-i");
    push_arg(&mut args, input);
    push_arg(&mut args, "-f");
    push_arg(&mut args, "segment");
    push_arg(&mut args, "-segment_time");
    push_arg(&mut args, "300");
    push_arg(&mut args, "-reset_timestamps");
    push_arg(&mut args, "1");
    push_arg(&mut args, "-acodec");
    push_arg(&mut args, "libmp3lame");
    push_arg(&mut args, "-ar");
    push_arg(&mut args, "16000");
    push_arg(&mut args, "-ac");
    push_arg(&mut args, "1");
    push_arg(&mut args, pattern);
    proof {
        assert(string_views(args@) =~= split_text(input@, pattern@).1);
    }
    command("ffmpeg", args)
}


/// The summary of a session: the AI service's, or when it failed, the one
/// made offline from the notes.
pub fn summary_or_offline(ai_summary: Result<String, String>, notes: &str) -> (r: String)
    ensures
        match ai_summary {
            Ok(s) => r@ == s@,
            Err(_) => r@ == offline_summary_text(notes@),
        },
{
    match ai_summary {
        Ok(s) => s,
        Err(_) => offline_summary(notes),
    }
}

} // verus!
