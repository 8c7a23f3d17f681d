//! Sessions: where each one lives, what its folder holds, and the texts the
//! store writes into its notes.
use vstd::prelude::*;
use crate::slug::{accepted_slug, slug_of, slugify};
use crate::text::{
    chars_of, decimal, ends_with, has_prefix, has_suffix, join, lines, lines_of, occurrences,
    push_all, push_decimal, push_str, sort_strings, sorted_le, starts_with, string_of,
    string_views, trim, trim_start, trim_start_ws, trim_ws, views, lemma_views_push,
};

verus! {

/// The store of sessions: one folder per session under a root folder, with
/// the platform's path separator.
pub struct SessionStore {
    root: String,
    separator: char,
}

/// Everything the desktop shell shows of a session.
pub struct SessionDetails {
    pub title: String,
    pub slug: String,
    pub path: String,
    pub notes: String,
    pub screenshots: Vec<String>,
    pub recordings: Vec<String>,
    pub audio: Vec<String>,
    pub transcripts: Vec<String>,
    pub is_recording: bool,
    pub is_audio_recording: bool,
}

/// `base` joined with one more path component (`Path::join`): the separator
/// goes between them unless `base` is empty or already ends with one (`/` is
/// a separator on every platform).
pub open spec fn join_path(base: Seq<char>, name: Seq<char>, sep: char) -> Seq<char> {
    if base.len() == 0 {
        name
    } else if base.last() == '/' || base.last() == sep {
        base + name
    } else {
        base + seq![sep] + name
    }
}

pub fn join_path_exec(base: &str, name: &str, sep: char) -> (r: String)
    ensures
        r@ == join_path(base@, name@, sep),
{
    let b = chars_of(base);
    let mut out = b.clone();
    if b.len() > 0 && b[b.len() - 1] != '/' && b[b.len() - 1] != sep {
        out.push(sep);
    }
    push_str(&mut out, name);
    string_of(&out)
}

/// What to do to make sure a session folder is there.
pub enum SessionStep {
    /// The folder is there: use it.
    Existing(String),
    /// Create the folder, and write `note` into `notes.md` unless that file
    /// exists.
    Create { path: String, note: String },
}

/// The first lines of a new session's notes: `# {title}` and an empty line.
pub open spec fn note_header_text(title: Seq<char>) -> Seq<char> {
    "# "@ + title + "\n\n"@
}

pub fn note_header(title: &str) -> (r: String)
    ensures
        r@ == note_header_text(title@),
{
    let mut out: Vec<char> = Vec::new();
    push_str(&mut out, "# ");
    push_str(&mut out, title);
    push_str(&mut out, "\n\n");
    string_of(&out)
}

/// A slug is refused when it holds `..`, `\` or `/`.
pub fn slug_is_accepted(slug: &str) -> (b: bool)
    ensures
        b == accepted_slug(slug@),
{
    let s = chars_of(slug);
    let mut i: usize = 0;
    while i < s.len()
        invariant
            i <= s.len(),
            s@ == slug@,
            forall|j: int| 0 <= j < i ==> s@[j] != '/' && s@[j] != '\\',
            forall|j: int| 0 <= j < i && j + 1 < s@.len() ==> !(#[trigger] s@[j] == '.' && s@[j + 1] == '.'),
        decreases s.len() - i,
    {
        if s[i] == '/' || s[i] == '\\' {
            proof {
                assert(slug@[i as int] == '/' || slug@[i as int] == '\\');
            }
            return false;
        }
        if s[i] == '.' && i + 1 < s.len() && s[i + 1] == '.' {
            proof {
                assert(slug@[i as int] == '.' && slug@[i + 1] == '.');
            }
            return false;
        }
        i += 1;
    }
    true
}

impl SessionStore {
    /// The root folder.
    pub closed spec fn root_path(&self) -> Seq<char> {
        self.root@
    }

    /// The path separator the store joins with.
    pub closed spec fn sep(&self) -> char {
        self.separator
    }

    /// A store that joins paths with `/`.
    pub fn new(root: String) -> (s: Self)
        ensures
            s.root_path() == root@,
            s.sep() == '/',
    {
        SessionStore { root, separator: '/' }
    }

    /// A store that joins paths with the given separator (the platform's).
    pub fn with_separator(root: String, separator: char) -> (s: Self)
        ensures
            s.root_path() == root@,
            s.sep() == separator,
    {
        SessionStore { root, separator }
    }

    pub fn root(&self) -> (r: &str)
        ensures
            r@ == self.root_path(),
    {
        self.root.as_str()
    }

    /// The folder of the session with this title.
    pub fn session_path(&self, title: &str) -> (r: String)
        ensures
            r@ == join_path(self.root_path(), slug_of(title@), self.sep()),
    {
        let slug = slugify(title);
        join_path_exec(self.root.as_str(), slug.as_str(), self.separator)
    }

    /// Makes sure the session of a title is there: its folder is used when it
    /// exists, else it is to be created with a header note.
    pub fn ensure_session(&self, title: &str, folder_exists: bool) -> (r: SessionStep)
        ensures
            folder_exists ==> (r matches SessionStep::Existing(p) && p@ == join_path(
                self.root_path(),
                slug_of(title@),
                self.sep(),
            )),
            !folder_exists ==> (r matches SessionStep::Create { path, note } && path@ == join_path(
                self.root_path(),
                slug_of(title@),
                self.sep(),
            ) && note@ == note_header_text(title@)),
    {
        let path = self.session_path(title);
        if folder_exists {
            SessionStep::Existing(path)
        } else {
            SessionStep::Create { path, note: note_header(title) }
        }
    }

    /// The folder a slug names (whether or not it exists).
    pub fn session_dir(&self, slug: &str) -> (r: String)
        ensures
            r@ == join_path(self.root_path(), slug@, self.sep()),
    {
        join_path_exec(self.root.as_str(), slug, self.separator)
    }

    /// The folder of an existing session, found by its slug. A slug holding
    /// `..`, `\` or `/` is refused before the folder is looked for.
    pub fn session_dir_by_slug(&self, slug: &str, folder_exists: bool) -> (r: Result<String, String>)
        ensures
            !accepted_slug(slug@) ==> (r matches Err(e) && e@ == "invalid session slug"@),
            accepted_slug(slug@) && folder_exists ==> (r matches Ok(p) && p@ == join_path(
                self.root_path(),
                slug@,
                self.sep(),
            )),
            accepted_slug(slug@) && !folder_exists ==> (r matches Err(e) && e@
                == "session not found: "@ + slug@),
    {
        if !slug_is_accepted(slug) {
            return Err(String::from_str("invalid session slug"));
        }
        if folder_exists {
            Ok(self.session_dir(slug))
        } else {
            let mut e: Vec<char> = Vec::new();
            push_str(&mut e, "session not found: ");
            push_str(&mut e, slug);
            Err(string_of(&e))
        }
    }
}

/// `{prefix}-{seconds}.{ext}`: the name of a file made at a given time.
pub open spec fn timestamped_name_text(prefix: Seq<char>, secs: nat, ext: Seq<char>) -> Seq<char> {
    prefix + "-"@ + decimal(secs) + "."@ + ext
}

pub fn timestamped_name(prefix: &str, secs: u64, ext: &str) -> (r: String)
    ensures
        r@ == timestamped_name_text(prefix@, secs as nat, ext@),
{
    let mut out: Vec<char> = Vec::new();
    push_str(&mut out, prefix);
    push_str(&mut out, "-");
    push_decimal(&mut out, secs as u128);
    push_str(&mut out, ".");
    push_str(&mut out, ext);
    string_of(&out)
}

/// The timestamp written into names and records: the seconds since the Unix
/// epoch in decimal.
pub fn timestamp(unix_secs: u64) -> (r: String)
    ensures
        r@ == decimal(unix_secs as nat),
{
    let mut out: Vec<char> = Vec::new();
    push_decimal(&mut out, unix_secs as u128);
    string_of(&out)
}

/// The line the command line appends to a note: `- {content}` trimmed.
pub open spec fn note_line_text(content: Seq<char>) -> Seq<char> {
    "- "@ + trim_ws(content) + "\n"@
}

pub fn note_line(content: &str) -> (r: String)
    ensures
        r@ == note_line_text(content@),
{
    let c = chars_of(content);
    let t = trim(&c);
    let mut out: Vec<char> = Vec::new();
    push_str(&mut out, "- ");
    push_all(&mut out, &t);
    push_str(&mut out, "\n");
    string_of(&out)
}

/// The notes once a transcript is appended: a line break if the notes lack a
/// final one, then a `## 转写` section with the trimmed transcript.
pub open spec fn notes_with_transcript_text(notes: Seq<char>, transcript: Seq<char>) -> Seq<char> {
    let base = if has_suffix(notes, "\n"@) {
        notes
    } else {
        notes + "\n"@
    };
    base + "\n## 转写\n\n"@ + trim_ws(transcript) + "\n"@
}

pub fn notes_with_transcript(notes: &str, transcript: &str) -> (r: String)
    ensures
        r@ == notes_with_transcript_text(notes@, transcript@),
{
    let mut out = chars_of(notes);
    if !ends_with(&out, "\n") {
        push_str(&mut out, "\n");
    }
    push_str(&mut out, "\n## 转写\n\n");
    let t = chars_of(transcript);
    let tt = trim(&t);
    push_all(&mut out, &tt);
    push_str(&mut out, "\n");
    string_of(&out)
}

/// A line is a bullet when, leading White_Space aside, it starts with `- `.
pub open spec fn is_bullet(line: Seq<char>) -> bool {
    has_prefix(trim_start_ws(line), "- "@)
}

/// The trimmed bullet lines, in order.
pub open spec fn bullet_lines(ls: Seq<Seq<char>>) -> Seq<Seq<char>>
    decreases ls.len(),
{
    if ls.len() == 0 {
        seq![]
    } else {
        let b = bullet_lines(ls.drop_last());
        if is_bullet(ls.last()) {
            b.push(trim_ws(ls.last()))
        } else {
            b
        }
    }
}

pub proof fn lemma_bullet_lines_len(ls: Seq<Seq<char>>, k: int)
    requires
        0 <= k <= ls.len(),
    ensures
        bullet_lines(ls.take(k)).len() <= bullet_lines(ls).len(),
        bullet_lines(ls).len() >= 6 && bullet_lines(ls.take(k)).len() == 6 ==> bullet_lines(
            ls,
        ).take(6) == bullet_lines(ls.take(k)),
    decreases ls.len() - k,
{
    if k < ls.len() {
        lemma_bullet_lines_len(ls.drop_last(), k);
        assert(ls.drop_last().take(k) == ls.take(k));
        let b = bullet_lines(ls.drop_last());
        if bullet_lines(ls).len() >= 6 && bullet_lines(ls.take(k)).len() == 6 {
            if is_bullet(ls.last()) {
                assert(b.push(trim_ws(ls.last())).take(6) =~= b.take(6));
            }
        }
    } else {
        assert(ls.take(k) == ls);
    }
}

/// The summary offered without the AI service: up to six bullet lines of
/// the notes, or a notice that there is nothing to summarize.
pub open spec fn offline_summary_text(notes: Seq<char>) -> Seq<char> {
    let all = bullet_lines(lines_of(notes));
    let b = if all.len() <= 6 {
        all
    } else {
        all.take(6)
    };
    if b.len() == 0 {
        "暂无可总结的笔记。接入语音识别后，这里会生成会议纪要、关键决定和待办。"@
    } else {
        "本地摘要预览：\n"@ + join(b, "\n"@) + "\n\nAI 摘要接口接入后，可在这里生成正式会议纪要和待办。"@
    }
}

pub fn offline_summary(notes: &str) -> (r: String)
    ensures
        r@ == offline_summary_text(notes@),
{
    let cs = chars_of(notes);
    let ls = lines(&cs);
    let ghost lv = views(ls@);
    let mut bullets: Vec<String> = Vec::new();
    let mut i: usize = 0;
    while i < ls.len() && bullets.len() < 6
        invariant
            i <= ls.len(),
            lv == views(ls@),
            string_views(bullets@) == bullet_lines(lv.take(i as int)),
            bullets.len() <= 6,
        decreases ls.len() - i,
    {
        proof {
            assert(lv.take(i + 1).drop_last() == lv.take(i as int));
            assert(lv.take(i + 1).last() == ls@[i as int]@);
        }
        let ts = trim_start(&ls[i]);
        if starts_with(&ts, "- ") {
            let t = trim(&ls[i]);
            let s = string_of(&t);
            let ghost prev = bullets@;
            bullets.push(s);
            proof {
                crate::text::lemma_string_views_push(prev, s);
            }
        }
        i += 1;
    }
    proof {
        lemma_bullet_lines_len(lv, i as int);
        if i == ls.len() {
            assert(lv.take(i as int) == lv);
        }
        assert(lv == lines_of(notes@));
        let all = bullet_lines(lv);
        if bullets.len() == 6 {
            assert(all.len() >= 6);
            if all.len() > 6 {
                assert(string_views(bullets@) == all.take(6));
            } else {
                assert(all.take(6) == all);
            }
        } else {
            assert(i == ls.len());
            assert(string_views(bullets@) == all);
        }
    }
    if bullets.len() == 0 {
        String::from_str("暂无可总结的笔记。接入语音识别后，这里会生成会议纪要、关键决定和待办。")
    } else {
        let mut out: Vec<char> = Vec::new();
        push_str(&mut out, "本地摘要预览：\n");
        let body = crate::text::join_strings(&bullets, "\n");
        push_all(&mut out, &body);
        push_str(&mut out, "\n\nAI 摘要接口接入后，可在这里生成正式会议纪要和待办。");
        string_of(&out)
    }
}


/// What kind of material a file of a session folder is, by its name.
pub enum MaterialKind {
    Screenshot,
    Recording,
    Audio,
    Transcript,
    Other,
}

pub open spec fn kind_of(name: Seq<char>) -> MaterialKind {
    if has_suffix(name, ".png"@) {
        MaterialKind::Screenshot
    } else if has_suffix(name, ".mp4"@) || has_suffix(name, ".mov"@) || has_suffix(name, ".mkv"@) {
        MaterialKind::Recording
    } else if has_suffix(name, ".wav"@) || has_suffix(name, ".mp3"@) || has_suffix(name, ".m4a"@) {
        MaterialKind::Audio
    } else if has_prefix(name, "transcript-"@) && has_suffix(name, ".md"@) {
        MaterialKind::Transcript
    } else {
        MaterialKind::Other
    }
}

proof fn lemma_suffix_of_joined(stem: Seq<char>, tail: Seq<char>, suffix: Seq<char>)
    requires
        suffix.len() == tail.len(),
    ensures
        has_suffix(stem + tail, suffix) <==> tail == suffix,
{
    let s = stem + tail;
    assert(s.skip(s.len() - suffix.len()) =~= tail);
}

/// Files are sorted by their ending, whatever comes before it: `.png`
/// screenshots; `.mp4`, `.mov`, `.mkv` recordings; `.wav`, `.mp3`, `.m4a`
/// audio; `.md` files named `transcript-…` transcripts.
pub proof fn lemma_kind_by_ending(stem: Seq<char>)
    ensures
        kind_of(stem + ".png"@) == MaterialKind::Screenshot,
        kind_of(stem + ".mp4"@) == MaterialKind::Recording,
        kind_of(stem + ".mov"@) == MaterialKind::Recording,
        kind_of(stem + ".mkv"@) == MaterialKind::Recording,
        kind_of(stem + ".wav"@) == MaterialKind::Audio,
        kind_of(stem + ".mp3"@) == MaterialKind::Audio,
        kind_of(stem + ".m4a"@) == MaterialKind::Audio,
        kind_of("transcript-"@ + stem + ".md"@) == MaterialKind::Transcript,
{
    reveal_strlit(".png");
    reveal_strlit(".mp4");
    reveal_strlit(".mov");
    reveal_strlit(".mkv");
    reveal_strlit(".wav");
    reveal_strlit(".mp3");
    reveal_strlit(".m4a");
    reveal_strlit(".md");
    reveal_strlit("transcript-");
    let lits = seq![".png"@, ".mp4"@, ".mov"@, ".mkv"@, ".wav"@, ".mp3"@, ".m4a"@];
    assert forall|a: int, b: int| 0 <= a < 7 && 0 <= b < 7 && a != b implies lits[a] != lits[b] by {
        assert(lits[a][1] != lits[b][1] || lits[a][2] != lits[b][2] || lits[a][3] != lits[b][3]);
    }
    assert(".png"@ == lits[0] && ".mp4"@ == lits[1] && ".mov"@ == lits[2] && ".mkv"@ == lits[3]);
    assert(".wav"@ == lits[4] && ".mp3"@ == lits[5] && ".m4a"@ == lits[6]);
    assert forall|a: int, b: int| 0 <= a < 7 && 0 <= b < 7 implies (has_suffix(
        stem + #[trigger] lits[a],
        #[trigger] lits[b],
    ) <==> a == b) by {
        lemma_suffix_of_joined(stem, lits[a], lits[b]);
    }
    let t = "transcript-"@ + stem + ".md"@;
    assert(t =~= "transcript-"@ + (stem + ".md"@));
    assert(t.take(11) =~= "transcript-"@);
    assert(t.skip(t.len() - 3) =~= ".md"@);
    assert forall|b: int| 0 <= b < 7 implies !has_suffix(t, #[trigger] lits[b]) by {
        assert(t[t.len() - 1] == 'd');
        if has_suffix(t, lits[b]) {
            assert(t.skip(t.len() - 4)[3] == lits[b][3]);
        }
    }
}

/// Sorts a file of a session folder by its name.
pub fn classify_file(name: &str) -> (k: MaterialKind)
    ensures
        k == kind_of(name@),
{
    let n = chars_of(name);
    if ends_with(&n, ".png") {
        MaterialKind::Screenshot
    } else if ends_with(&n, ".mp4") || ends_with(&n, ".mov") || ends_with(&n, ".mkv") {
        MaterialKind::Recording
    } else if ends_with(&n, ".wav") || ends_with(&n, ".mp3") || ends_with(&n, ".m4a") {
        MaterialKind::Audio
    } else if starts_with(&n, "transcript-") && ends_with(&n, ".md") {
        MaterialKind::Transcript
    } else {
        MaterialKind::Other
    }
}

/// The text of the first `# ` heading line, if any.
pub open spec fn first_heading(ls: Seq<Seq<char>>) -> Option<Seq<char>>
    decreases ls.len(),
{
    if ls.len() == 0 {
        None
    } else if has_prefix(ls[0], "# "@) {
        Some(ls[0].skip(2))
    } else {
        first_heading(ls.drop_first())
    }
}

/// The title of a session: its first `# ` heading, else its slug.
pub open spec fn title_of(notes: Seq<char>, slug: Seq<char>) -> Seq<char> {
    match first_heading(lines_of(notes)) {
        Some(t) => t,
        None => slug,
    }
}

pub fn title_from_notes(notes: &str, slug: &str) -> (r: String)
    ensures
        r@ == title_of(notes@, slug@),
{
    let cs = chars_of(notes);
    let ls = lines(&cs);
    let ghost lv = views(ls@);
    let mut i: usize = 0;
    proof {
        assert(lv.skip(0) == lv);
    }
    while i < ls.len()
        invariant
            i <= ls.len(),
            lv == views(ls@),
            lv == lines_of(notes@),
            first_heading(lv) == first_heading(lv.skip(i as int)),
        decreases ls.len() - i,
    {
        proof {
            assert(lv.skip(i as int)[0] == ls@[i as int]@);
            assert(lv.skip(i as int).drop_first() == lv.skip(i + 1));
        }
        proof {
            reveal_strlit("# ");
        }
        if starts_with(&ls[i], "# ") {
            let rest = crate::text::slice_chars(&ls[i], 2, ls[i].len());
            proof {
                assert(rest@ == ls@[i as int]@.skip(2));
            }
            return string_of(&rest);
        }
        i += 1;
    }
    String::from_str(slug)
}

/// A file found in a session folder: its name and its full path.
pub struct FileEntry {
    pub name: String,
    pub path: String,
}

/// The paths of the entries of one kind, in folder order.
pub open spec fn paths_of_kind(entries: Seq<FileEntry>, k: MaterialKind) -> Seq<Seq<char>>
    decreases entries.len(),
{
    if entries.len() == 0 {
        seq![]
    } else {
        let p = paths_of_kind(entries.drop_last(), k);
        if kind_of(entries.last().name@) == k {
            p.push(entries.last().path@)
        } else {
            p
        }
    }
}

/// `v` holds the paths of the entries of kind `k`, sorted.
pub open spec fn sorted_paths_of(v: Seq<Seq<char>>, entries: Seq<FileEntry>, k: MaterialKind) -> bool {
    &&& sorted_le(v)
    &&& forall|t: Seq<char>| occurrences(v, t) == occurrences(paths_of_kind(entries, k), t)
}

proof fn lemma_kind_listed(entries: Seq<FileEntry>, i: int, k: MaterialKind)
    requires
        0 <= i < entries.len(),
        kind_of(entries[i].name@) == k,
    ensures
        occurrences(paths_of_kind(entries, k), entries[i].path@) > 0,
    decreases entries.len(),
{
    let d = entries.drop_last();
    let p = paths_of_kind(d, k);
    let x = entries.last().path@;
    assert(p.push(x).drop_last() =~= p);
    assert(p.push(x).last() == x);
    if i < entries.len() - 1 {
        assert(d[i] == entries[i]);
        lemma_kind_listed(d, i, k);
    }
}

/// Every audio file of a session folder, a file whose name ends in `.wav`,
/// `.mp3` or `.m4a`, is listed among the session's audio files.
pub proof fn lemma_audio_files_listed(v: Seq<Seq<char>>, entries: Seq<FileEntry>, i: int, stem: Seq<char>)
    requires
        sorted_paths_of(v, entries, MaterialKind::Audio),
        0 <= i < entries.len(),
        entries[i].name@ == stem + ".wav"@ || entries[i].name@ == stem + ".mp3"@ || entries[i].name@
            == stem + ".m4a"@,
    ensures
        occurrences(v, entries[i].path@) > 0,
{
    lemma_kind_by_ending(stem);
    lemma_kind_listed(entries, i, MaterialKind::Audio);
}

/// Puts together what a session folder holds: the title from the notes, and
/// the screenshots, recordings, audio files and transcripts, each sorted.
pub fn session_details(
    slug: &str,
    path: &str,
    notes: String,
    entries: &Vec<FileEntry>,
    is_recording: bool,
    is_audio_recording: bool,
) -> (d: SessionDetails)
    ensures
        d.title@ == title_of(notes@, slug@),
        d.slug@ == slug@,
        d.path@ == path@,
        d.notes@ == notes@,
        sorted_paths_of(string_views(d.screenshots@), entries@, MaterialKind::Screenshot),
        sorted_paths_of(string_views(d.recordings@), entries@, MaterialKind::Recording),
        sorted_paths_of(string_views(d.audio@), entries@, MaterialKind::Audio),
        sorted_paths_of(string_views(d.transcripts@), entries@, MaterialKind::Transcript),
        d.is_recording == is_recording,
        d.is_audio_recording == is_audio_recording,
{
    let title = title_from_notes(notes.as_str(), slug);
    let mut screenshots: Vec<String> = Vec::new();
    let mut recordings: Vec<String> = Vec::new();
    let mut audio: Vec<String> = Vec::new();
    let mut transcripts: Vec<String> = Vec::new();
    let ghost ev = entries@;
    let mut i: usize = 0;
    while i < entries.len()
        invariant
            i <= entries.len(),
            ev == entries@,
            string_views(screenshots@) == paths_of_kind(ev.take(i as int), MaterialKind::Screenshot),
            string_views(recordings@) == paths_of_kind(ev.take(i as int), MaterialKind::Recording),
            string_views(audio@) == paths_of_kind(ev.take(i as int), MaterialKind::Audio),
            string_views(transcripts@) == paths_of_kind(ev.take(i as int), MaterialKind::Transcript),
        decreases entries.len() - i,
    {
        proof {
            assert(ev.take(i + 1).drop_last() == ev.take(i as int));
            assert(ev.take(i + 1).last() == ev[i as int]);
        }
        let p = entries[i].path.clone();
        match classify_file(entries[i].name.as_str()) {
            MaterialKind::Screenshot => {
                let ghost prev = screenshots@;
                screenshots.push(p);
                proof {
                    crate::text::lemma_string_views_push(prev, p);
                }
            },
            MaterialKind::Recording => {
                let ghost prev = recordings@;
                recordings.push(p);
                proof {
                    crate::text::lemma_string_views_push(prev, p);
                }
            },
            MaterialKind::Audio => {
                let ghost prev = audio@;
                audio.push(p);
                proof {
                    crate::text::lemma_string_views_push(prev, p);
                }
            },
            MaterialKind::Transcript => {
                let ghost prev = transcripts@;
                transcripts.push(p);
                proof {
                    crate::text::lemma_string_views_push(prev, p);
                }
            },
            MaterialKind::Other => {},
        }
        i += 1;
    }
    proof {
        assert(ev.take(i as int) == ev);
    }
    SessionDetails {
        title,
        slug: String::from_str(slug),
        path: String::from_str(path),
        notes,
        screenshots: sort_strings(screenshots),
        recordings: sort_strings(recordings),
        audio: sort_strings(audio),
        transcripts: sort_strings(transcripts),
        is_recording,
        is_audio_recording,
    }
}

pub proof fn lemma_lines_scan_no_newline(s: Seq<char>)
    requires
        forall|i: int| 0 <= i < s.len() ==> s[i] != '\n',
    ensures
        crate::text::lines_scan(s) == (Seq::<Seq<char>>::empty(), s),
    decreases s.len(),
{
    if s.len() > 0 {
        lemma_lines_scan_no_newline(s.drop_last());
        assert(s.drop_last().push(s.last()) == s);
    }
}

/// A session created with a one-line title reads back with that title: the
/// header note starts with the `# ` heading the title is read from.
pub proof fn lemma_created_session_title(title: Seq<char>, slug: Seq<char>)
    requires
        forall|i: int| 0 <= i < title.len() ==> title[i] != '\n',
        !(title.len() > 0 && title.last() == '\r'),
    ensures
        title_of(note_header_text(title), slug) == title,
{
    let head = "# "@ + title;
    reveal_strlit("# ");
    reveal_strlit("\n\n");
    assert forall|i: int| 0 <= i < head.len() implies head[i] != '\n' by {
        if i >= 2 {
            assert(head[i] == title[i - 2]);
        }
    }
    lemma_lines_scan_no_newline(head);
    let s = note_header_text(title);
    assert(s == head + "\n\n"@);
    let s1 = head.push('\n');
    assert(s.drop_last() == s1);
    assert(s1.drop_last() == head);
    assert(crate::text::strip_cr(head) == head) by {
        if title.len() > 0 {
            assert(head.last() == title.last());
        }
    }
    assert(s1.last() == '\n');
    assert(s.last() == '\n');
    assert(crate::text::lines_scan(s1) == (seq![head], Seq::<char>::empty()));
    let ls = lines_of(s);
    assert(crate::text::lines_scan(s).0[0] == head);
    assert(ls[0] == head);
    assert(head.take(2) =~= "# "@);
    assert(has_prefix(head, "# "@));
    assert(head.skip(2) =~= title);
}

} // verus!
