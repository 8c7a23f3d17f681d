//! Exports of a session's notes: the page that is printed to PDF, the topic
//! tree of the XMind mind map and the JSON files of the XMind archive.
use vstd::prelude::*;
use crate::text::{
    chars_of, decimal, has_prefix, lines, lines_of, push_all, push_decimal, push_str, slice_chars,
    starts_with, string_of, trim, trim_ws, views, join, join_strings, string_views,
    lemma_string_views_push,
};

verus! {

/// Exporting refuses notes that are blank.
pub fn check_notes(notes: &str) -> (r: Result<(), String>)
    ensures
        trim_ws(notes@).len() == 0 ==> (r matches Err(e) && e@ == "笔记为空，无法导出"@),
        trim_ws(notes@).len() > 0 ==> r is Ok,
{
    let t = trim(&chars_of(notes));
    if t.len() == 0 {
        Err(String::from_str("笔记为空，无法导出"))
    } else {
        Ok(())
    }
}

/// The head of the exported page, with its style sheet.
pub open spec fn html_head() -> Seq<char> {
    "<!DOCTYPE html>\n<html lang=\"zh-CN\">\n<head>\n<meta charset=\"UTF-8\">\n<title>会议笔记</title>\n<style>\nbody { font-family: \"Microsoft YaHei\", \"PingFang SC\", sans-serif; max-width: 800px; margin: 40px auto; padding: 0 20px; line-height: 1.8; color: #333; }\nh1 { border-bottom: 2px solid #236d5c; padding-bottom: 10px; color: #236d5c; }\nh2 { color: #2d7a68; margin-top: 30px; }\nh3 { color: #3d8a78; }\nul { padding-left: 24px; }\nli { margin: 6px 0; }\np { margin: 12px 0; }\ncode { background: #f5f5f5; padding: 2px 6px; border-radius: 4px; font-size: 0.9em; }\n</style>\n</head>\n<body>\n"@
}

/// One trimmed line of notes as HTML: headings of three levels, list items,
/// a break for a blank line, else a paragraph.
pub open spec fn html_line(t: Seq<char>) -> Seq<char> {
    if has_prefix(t, "# "@) {
        "<h1>"@ + t.skip(2) + "</h1>\n"@
    } else if has_prefix(t, "## "@) {
        "<h2>"@ + t.skip(3) + "</h2>\n"@
    } else if has_prefix(t, "### "@) {
        "<h3>"@ + t.skip(4) + "</h3>\n"@
    } else if has_prefix(t, "- "@) || has_prefix(t, "* "@) {
        "<li>"@ + t.skip(2) + "</li>\n"@
    } else if t.len() == 0 {
        "<br>\n"@
    } else {
        "<p>"@ + t + "</p>\n"@
    }
}

/// The HTML of the lines, each trimmed.
pub open spec fn html_lines(ls: Seq<Seq<char>>) -> Seq<char>
    decreases ls.len(),
{
    if ls.len() == 0 {
        seq![]
    } else {
        html_lines(ls.drop_last()) + html_line(trim_ws(ls.last()))
    }
}

/// The page for notes: the head, a piece of HTML per line, the end.
pub open spec fn notes_html(markdown: Seq<char>) -> Seq<char> {
    html_head() + html_lines(lines_of(markdown)) + "</body></html>"@
}

proof fn lemma_marker_lengths()
    ensures
        "# "@.len() == 2,
        "## "@.len() == 3,
        "### "@.len() == 4,
        "- "@.len() == 2,
        "* "@.len() == 2,
{
    reveal_strlit("# ");
    reveal_strlit("## ");
    reveal_strlit("### ");
    reveal_strlit("- ");
    reveal_strlit("* ");
}

fn push_html_line(out: &mut Vec<char>, t: &Vec<char>)
    ensures
        final(out)@ == old(out)@ + html_line(t@),
{
    proof {
        lemma_marker_lengths();
    }
    if starts_with(t, "# ") {
        push_str(out, "<h1>");
        push_all(out, &slice_chars(t, 2, t.len()));
        push_str(out, "</h1>\n");
    } else if starts_with(t, "## ") {
        push_str(out, "<h2>");
        push_all(out, &slice_chars(t, 3, t.len()));
        push_str(out, "</h2>\n");
    } else if starts_with(t, "### ") {
        push_str(out, "<h3>");
        push_all(out, &slice_chars(t, 4, t.len()));
        push_str(out, "</h3>\n");
    } else if starts_with(t, "- ") || starts_with(t, "* ") {
        push_str(out, "<li>");
        push_all(out, &slice_chars(t, 2, t.len()));
        push_str(out, "</li>\n");
    } else if t.len() == 0 {
        push_str(out, "<br>\n");
    } else {
        push_str(out, "<p>");
        push_all(out, t);
        push_str(out, "</p>\n");
    }
    proof {
        assert(t@.subrange(2, t@.len() as int) == t@.skip(2));
        assert(t@.subrange(3, t@.len() as int) == t@.skip(3));
        assert(t@.subrange(4, t@.len() as int) == t@.skip(4));
    }
}

/// Notes as a simple HTML page, the form that is printed to PDF.
pub fn markdown_to_html(markdown: &str) -> (html: String)
    ensures
        html@ == notes_html(markdown@),
{
    let mut out: Vec<char> = Vec::new();
    push_str(
        &mut out,
        "<!DOCTYPE html>\n<html lang=\"zh-CN\">\n<head>\n<meta charset=\"UTF-8\">\n<title>会议笔记</title>\n<style>\nbody { font-family: \"Microsoft YaHei\", \"PingFang SC\", sans-serif; max-width: 800px; margin: 40px auto; padding: 0 20px; line-height: 1.8; color: #333; }\nh1 { border-bottom: 2px solid #236d5c; padding-bottom: 10px; color: #236d5c; }\nh2 { color: #2d7a68; margin-top: 30px; }\nh3 { color: #3d8a78; }\nul { padding-left: 24px; }\nli { margin: 6px 0; }\np { margin: 12px 0; }\ncode { background: #f5f5f5; padding: 2px 6px; border-radius: 4px; font-size: 0.9em; }\n</style>\n</head>\n<body>\n",
    );
    let ls = lines(&chars_of(markdown));
    let ghost all = views(ls@);
    let mut i: usize = 0;
    while i < ls.len()
        invariant
            i <= ls@.len(),
            all == views(ls@),
            all.len() == ls@.len(),
            out@ == html_head() + html_lines(all.take(i as int)),
        decreases ls.len() - i,
    {
        let t = trim(&ls[i]);
        push_html_line(&mut out, &t);
        proof {
            assert(all.take(i + 1).drop_last() == all.take(i as int));
            assert(all[i as int] == ls@[i as int]@);
        }
        i += 1;
    }
    proof {
        assert(all.take(all.len() as int) == all);
    }
    push_str(&mut out, "</body></html>");
    string_of(&out)
}


/// A list item under a third-level heading.
pub struct MindItem {
    pub id: String,
    pub title: String,
}

/// A third-level heading and its list items.
pub struct MindSubtopic {
    pub id: String,
    pub title: String,
    pub items: Vec<MindItem>,
}

/// A second-level heading and its third-level headings.
pub struct MindTopic {
    pub id: String,
    pub title: String,
    pub subtopics: Vec<MindSubtopic>,
}

/// The mind map of notes: the title of its root and the topics under it.
pub struct MindMap {
    pub root_title: String,
    pub topics: Vec<MindTopic>,
}

pub struct ItemSpec {
    pub id: Seq<char>,
    pub title: Seq<char>,
}

pub struct SubtopicSpec {
    pub id: Seq<char>,
    pub title: Seq<char>,
    pub items: Seq<ItemSpec>,
}

pub struct TopicSpec {
    pub id: Seq<char>,
    pub title: Seq<char>,
    pub subtopics: Seq<SubtopicSpec>,
}

pub struct MindMapSpec {
    pub root_title: Seq<char>,
    pub topics: Seq<TopicSpec>,
}

pub open spec fn item_views(s: Seq<MindItem>) -> Seq<ItemSpec> {
    s.map_values(|x: MindItem| x@)
}

pub open spec fn subtopic_views(s: Seq<MindSubtopic>) -> Seq<SubtopicSpec> {
    s.map_values(|x: MindSubtopic| x@)
}

pub open spec fn topic_views(s: Seq<MindTopic>) -> Seq<TopicSpec> {
    s.map_values(|x: MindTopic| x@)
}

impl View for MindItem {
    type V = ItemSpec;

    open spec fn view(&self) -> ItemSpec {
        ItemSpec { id: self.id@, title: self.title@ }
    }
}

impl View for MindSubtopic {
    type V = SubtopicSpec;

    open spec fn view(&self) -> SubtopicSpec {
        SubtopicSpec { id: self.id@, title: self.title@, items: item_views(self.items@) }
    }
}

impl View for MindTopic {
    type V = TopicSpec;

    open spec fn view(&self) -> TopicSpec {
        TopicSpec { id: self.id@, title: self.title@, subtopics: subtopic_views(self.subtopics@) }
    }
}

impl View for MindMap {
    type V = MindMapSpec;

    open spec fn view(&self) -> MindMapSpec {
        MindMapSpec { root_title: self.root_title@, topics: topic_views(self.topics@) }
    }
}

/// The reading of notes so far: the root title, the finished topics, the
/// open topic and subtopic, and the items of the open subtopic.
pub struct MindDraft {
    pub root: Seq<char>,
    pub done: Seq<TopicSpec>,
    pub topic: Option<TopicSpec>,
    pub sub: Option<SubtopicSpec>,
    pub items: Seq<ItemSpec>,
}

pub open spec fn mind_start() -> MindDraft {
    MindDraft { root: "会议主题"@, done: seq![], topic: None, sub: None, items: seq![] }
}

pub open spec fn with_items(s: SubtopicSpec, items: Seq<ItemSpec>) -> SubtopicSpec {
    SubtopicSpec { id: s.id, title: s.title, items }
}

pub open spec fn with_subtopic(t: TopicSpec, s: SubtopicSpec) -> TopicSpec {
    TopicSpec { id: t.id, title: t.title, subtopics: t.subtopics.push(s) }
}

/// The open subtopic, with its items, closed into the open topic; with no
/// open topic it is lost.
pub open spec fn close_subtopic(topic: Option<TopicSpec>, h3: SubtopicSpec, items: Seq<ItemSpec>) -> Option<TopicSpec> {
    match topic {
        Some(h2) => Some(with_subtopic(h2, with_items(h3, items))),
        None => None,
    }
}

/// One trimmed line read into the draft. `# ` names the root; `## ` closes
/// the open topic (with its open subtopic only if that has items) and opens
/// `h2-{n}`; `### ` closes the open subtopic into the open topic and opens
/// `h3-{n}-{k}`; `- ` or `* ` under an open subtopic adds `li-{n}-0-{k}`.
pub open spec fn mind_step(d: MindDraft, t: Seq<char>) -> MindDraft {
    if has_prefix(t, "# "@) {
        MindDraft { root: t.skip(2), done: d.done, topic: d.topic, sub: d.sub, items: d.items }
    } else if has_prefix(t, "## "@) {
        let done = match d.topic {
            Some(h2) => d.done.push(
                match d.sub {
                    Some(h3) => if d.items.len() > 0 {
                        with_subtopic(h2, with_items(h3, d.items))
                    } else {
                        h2
                    },
                    None => h2,
                },
            ),
            None => d.done,
        };
        MindDraft {
            root: d.root,
            done,
            topic: Some(TopicSpec { id: "h2-"@ + decimal(done.len()), title: t.skip(3), subtopics: seq![] }),
            sub: None,
            items: seq![],
        }
    } else if has_prefix(t, "### "@) {
        let topic = match d.sub {
            Some(h3) => close_subtopic(d.topic, h3, d.items),
            None => d.topic,
        };
        let items = match d.sub {
            Some(_) => seq![],
            None => d.items,
        };
        MindDraft {
            root: d.root,
            done: d.done,
            topic,
            sub: Some(
                SubtopicSpec {
                    id: "h3-"@ + decimal(d.done.len()) + "-"@ + decimal(items.len()),
                    title: t.skip(4),
                    items: seq![],
                },
            ),
            items,
        }
    } else if (has_prefix(t, "- "@) || has_prefix(t, "* "@)) && d.sub is Some {
        MindDraft {
            root: d.root,
            done: d.done,
            topic: d.topic,
            sub: d.sub,
            items: d.items.push(
                ItemSpec {
                    id: "li-"@ + decimal(d.done.len()) + "-0-"@ + decimal(d.items.len()),
                    title: t.skip(2),
                },
            ),
        }
    } else {
        d
    }
}

/// A list line under an open subtopic, begun with `- ` or with `* `, adds
/// one item to the subtopic: its title is the rest of the line and its id
/// `li-{topics done}-0-{items so far}`; nothing else changes. So `* ` and
/// `- ` lines are read alike.
pub proof fn lemma_list_line_adds_item(d: MindDraft, x: Seq<char>)
    requires
        d.sub is Some,
    ensures
        mind_step(d, "* "@ + x) == mind_step(d, "- "@ + x),
        ({
            let r = mind_step(d, "- "@ + x);
            &&& r.root == d.root
            &&& r.done == d.done
            &&& r.topic == d.topic
            &&& r.sub == d.sub
            &&& r.items == d.items.push(
                ItemSpec { id: "li-"@ + decimal(d.done.len()) + "-0-"@ + decimal(d.items.len()), title: x },
            )
        }),
{
    reveal_strlit("* ");
    reveal_strlit("- ");
    reveal_strlit("# ");
    reveal_strlit("## ");
    reveal_strlit("### ");
    let a = "* "@ + x;
    let b = "- "@ + x;
    assert(a[0] == '*' && b[0] == '-');
    assert(!has_prefix(a, "# "@)) by {
        if has_prefix(a, "# "@) {
            assert(a.take(2)[0] == "# "@[0]);
        }
    }
    assert(!has_prefix(b, "# "@)) by {
        if has_prefix(b, "# "@) {
            assert(b.take(2)[0] == "# "@[0]);
        }
    }
    assert(!has_prefix(a, "## "@)) by {
        if has_prefix(a, "## "@) {
            assert(a.take(3)[0] == "## "@[0]);
        }
    }
    assert(!has_prefix(b, "## "@)) by {
        if has_prefix(b, "## "@) {
            assert(b.take(3)[0] == "## "@[0]);
        }
    }
    assert(!has_prefix(a, "### "@)) by {
        if has_prefix(a, "### "@) {
            assert(a.take(4)[0] == "### "@[0]);
        }
    }
    assert(!has_prefix(b, "### "@)) by {
        if has_prefix(b, "### "@) {
            assert(b.take(4)[0] == "### "@[0]);
        }
    }
    assert(a.take(2) =~= "* "@);
    assert(b.take(2) =~= "- "@);
    assert(a.skip(2) =~= x);
    assert(b.skip(2) =~= x);
}

/// The draft after reading the lines, each trimmed.
pub open spec fn mind_fold(ls: Seq<Seq<char>>) -> MindDraft
    decreases ls.len(),
{
    if ls.len() == 0 {
        mind_start()
    } else {
        mind_step(mind_fold(ls.drop_last()), trim_ws(ls.last()))
    }
}

/// The end of the notes closes the open subtopic and the open topic.
pub open spec fn mind_finish(d: MindDraft) -> MindMapSpec {
    let topic = match d.sub {
        Some(h3) => close_subtopic(d.topic, h3, d.items),
        None => d.topic,
    };
    MindMapSpec {
        root_title: d.root,
        topics: match topic {
            Some(h2) => d.done.push(h2),
            None => d.done,
        },
    }
}

/// The mind map of notes.
pub open spec fn notes_mindmap(markdown: Seq<char>) -> MindMapSpec {
    mind_finish(mind_fold(lines_of(markdown)))
}

struct MindState {
    root: Vec<char>,
    done: Vec<MindTopic>,
    topic: Option<MindTopic>,
    sub: Option<MindSubtopic>,
    items: Vec<MindItem>,
}

spec fn opt_topic_view(o: Option<MindTopic>) -> Option<TopicSpec> {
    match o {
        Some(t) => Some(t@),
        None => None,
    }
}

spec fn opt_subtopic_view(o: Option<MindSubtopic>) -> Option<SubtopicSpec> {
    match o {
        Some(t) => Some(t@),
        None => None,
    }
}

impl View for MindState {
    type V = MindDraft;

    closed spec fn view(&self) -> MindDraft {
        MindDraft {
            root: self.root@,
            done: topic_views(self.done@),
            topic: opt_topic_view(self.topic),
            sub: opt_subtopic_view(self.sub),
            items: item_views(self.items@),
        }
    }
}

fn numbered_id(prefix: &str, n: usize) -> (r: String)
    ensures
        r@ == prefix@ + decimal(n as nat),
{
    let mut out: Vec<char> = Vec::new();
    push_str(&mut out, prefix);
    push_decimal(&mut out, n as u128);
    string_of(&out)
}

fn tail_text(t: &Vec<char>, k: usize) -> (r: String)
    requires
        k <= t.len(),
    ensures
        r@ == t@.skip(k as int),
{
    let v = slice_chars(t, k, t.len());
    assert(t@.subrange(k as int, t@.len() as int) == t@.skip(k as int));
    string_of(&v)
}

/// Closes the open subtopic (with `items`) into the open topic.
fn close_subtopic_exec(topic: &mut Option<MindTopic>, h3: MindSubtopic, items: Vec<MindItem>)
    ensures
        opt_topic_view(*final(topic)) == close_subtopic(opt_topic_view(*old(topic)), h3@, item_views(items@)),
{
    match topic.take() {
        Some(h2) => {
            let mut subs = h2.subtopics;
            let closed = MindSubtopic { id: h3.id, title: h3.title, items };
            subs.push(closed);
            proof {
                assert(subtopic_views(subs@) =~= subtopic_views(h2.subtopics@).push(closed@));
            }
            *topic = Some(MindTopic { id: h2.id, title: h2.title, subtopics: subs });
        },
        None => {},
    }
}

fn mind_step_exec(st: &mut MindState, t: &Vec<char>)
    ensures
        final(st)@ == mind_step(old(st)@, t@),
{
    proof {
        lemma_marker_lengths();
    }
    if starts_with(t, "# ") {
        st.root = slice_chars(t, 2, t.len());
        assert(t@.subrange(2, t@.len() as int) == t@.skip(2));
    } else if starts_with(t, "## ") {
        let topic = st.topic.take();
        let sub = st.sub.take();
        let mut items: Vec<MindItem> = Vec::new();
        std::mem::swap(&mut items, &mut st.items);
        match topic {
            Some(h2) => {
                let has_items = items.len() > 0;
                let mut slot = Some(h2);
                match sub {
                    Some(h3) => {
                        if has_items {
                            close_subtopic_exec(&mut slot, h3, items);
                        }
                    },
                    None => {},
                }
                match slot {
                    Some(h2b) => {
                        let ghost before = st.done@;
                        st.done.push(h2b);
                        proof {
                            assert(topic_views(st.done@) =~= topic_views(before).push(h2b@));
                        }
                    },
                    None => {},
                }
            },
            None => {},
        }
        let id = numbered_id("h2-", st.done.len());
        st.topic = Some(MindTopic { id, title: tail_text(t, 3), subtopics: Vec::new() });
        proof {
            assert(subtopic_views(Seq::<MindSubtopic>::empty()) =~= Seq::<SubtopicSpec>::empty());
            assert(item_views(Seq::<MindItem>::empty()) =~= Seq::<ItemSpec>::empty());
            assert(topic_views(st.done@).len() == st.done@.len());
        }
    } else if starts_with(t, "### ") {
        let sub = st.sub.take();
        match sub {
            Some(h3) => {
                let mut items: Vec<MindItem> = Vec::new();
                std::mem::swap(&mut items, &mut st.items);
                close_subtopic_exec(&mut st.topic, h3, items);
            },
            None => {},
        }
        let mut id: Vec<char> = Vec::new();
        push_str(&mut id, "h3-");
        push_decimal(&mut id, st.done.len() as u128);
        push_str(&mut id, "-");
        push_decimal(&mut id, st.items.len() as u128);
        st.sub = Some(MindSubtopic { id: string_of(&id), title: tail_text(t, 4), items: Vec::new() });
        proof {
            assert(item_views(Seq::<MindItem>::empty()) =~= Seq::<ItemSpec>::empty());
            assert(topic_views(st.done@).len() == st.done@.len());
            assert(item_views(st.items@).len() == st.items@.len());
        }
    } else if (starts_with(t, "- ") || starts_with(t, "* ")) && st.sub.is_some() {
        let mut id: Vec<char> = Vec::new();
        push_str(&mut id, "li-");
        push_decimal(&mut id, st.done.len() as u128);
        push_str(&mut id, "-0-");
        push_decimal(&mut id, st.items.len() as u128);
        let item = MindItem { id: string_of(&id), title: tail_text(t, 2) };
        let ghost before = st.items@;
        st.items.push(item);
        proof {
            assert(item_views(st.items@) =~= item_views(before).push(item@));
            assert(topic_views(st.done@).len() == st.done@.len());
            assert(item_views(before).len() == before.len());
        }
    }
}

/// Notes as a mind map: `# ` names the root topic, `## ` opens a topic,
/// `### ` a subtopic of it, and `- ` / `* ` lines are items of the subtopic.
pub fn parse_markdown_to_mindmap(markdown: &str) -> (m: MindMap)
    ensures
        m@ == notes_mindmap(markdown@),
{
    let ls = lines(&chars_of(markdown));
    let ghost all = views(ls@);
    let mut st = MindState { root: Vec::new(), done: Vec::new(), topic: None, sub: None, items: Vec::new() };
    push_str(&mut st.root, "会议主题");
    proof {
        assert(topic_views(st.done@) =~= Seq::<TopicSpec>::empty());
        assert(item_views(st.items@) =~= Seq::<ItemSpec>::empty());
        assert(st@ == mind_fold(all.take(0)));
    }
    let mut i: usize = 0;
    while i < ls.len()
        invariant
            i <= ls@.len(),
            all == views(ls@),
            all.len() == ls@.len(),
            st@ == mind_fold(all.take(i as int)),
        decreases ls.len() - i,
    {
        let t = trim(&ls[i]);
        mind_step_exec(&mut st, &t);
        proof {
            assert(all.take(i + 1).drop_last() == all.take(i as int));
            assert(all[i as int] == ls@[i as int]@);
        }
        i += 1;
    }
    proof {
        assert(all.take(all.len() as int) == all);
    }
    let sub = st.sub.take();
    match sub {
        Some(h3) => {
            let mut items: Vec<MindItem> = Vec::new();
            std::mem::swap(&mut items, &mut st.items);
            close_subtopic_exec(&mut st.topic, h3, items);
        },
        None => {},
    }
    let mut topics = st.done;
    match st.topic {
        Some(h2) => {
            let ghost before = topics@;
            topics.push(h2);
            proof {
                assert(topic_views(topics@) =~= topic_views(before).push(h2@));
            }
        },
        None => {},
    }
    MindMap { root_title: string_of(&st.root), topics }
}

/// A lowercase hex digit.
pub open spec fn hex_digit(v: int) -> char {
    if v < 10 {
        (48 + v) as char
    } else {
        (87 + v) as char
    }
}

/// How `serde_json` writes one char inside a string: `"` and `\` and the
/// control chars below 0x20 escaped (short forms for backspace, tab, line
/// feed, form feed and carriage return, `\u00XX` with lowercase hex for the
/// rest), every other char as it is.
pub open spec fn json_escape(c: char) -> Seq<char> {
    let u = c as u32;
    if c == '"' {
        seq!['\\', '"']
    } else if c == '\\' {
        seq!['\\', '\\']
    } else if u == 0x08 {
        seq!['\\', 'b']
    } else if u == 0x09 {
        seq!['\\', 't']
    } else if u == 0x0A {
        seq!['\\', 'n']
    } else if u == 0x0C {
        seq!['\\', 'f']
    } else if u == 0x0D {
        seq!['\\', 'r']
    } else if u < 0x20 {
        seq!['\\', 'u', '0', '0', hex_digit(u as int / 16), hex_digit(u as int % 16)]
    } else {
        seq![c]
    }
}

/// The escaped chars of a text.
pub open spec fn json_escaped(s: Seq<char>) -> Seq<char>
    decreases s.len(),
{
    if s.len() == 0 {
        Seq::<char>::empty()
    } else {
        json_escaped(s.drop_last()) + json_escape(s.last())
    }
}

/// What `serde_json` writes for a string: its JSON string literal.
pub open spec fn json_quoted(s: Seq<char>) -> Seq<char> {
    seq!['"'] + json_escaped(s) + seq!['"']
}

/// Calls `serde_json::to_string` on a string.
/// Claimed of serde_json: the result is the string in double quotes with the
/// escapes of `json_escape`. Writing a string into memory does not fail, so
/// the error arm is never taken.
#[verifier::external_body]
fn json_string(s: &str) -> (r: String)
    ensures
        r@ == json_quoted(s@),
{
    match serde_json::to_string(s) {
        Ok(t) => t,
        Err(_) => String::new(),
    }
}

/// The JSON of a list of nodes under a node: `{"attached":[...]}`.
pub open spec fn attached_json(parts: Seq<Seq<char>>) -> Seq<char> {
    "{\"attached\":["@ + join(parts, ","@) + "]}"@
}

/// The JSON of a list item (keys in the order `serde_json` writes them).
pub open spec fn item_json(it: ItemSpec) -> Seq<char> {
    "{\"id\":"@ + json_quoted(it.id) + ",\"title\":"@ + json_quoted(it.title) + "}"@
}

/// The JSON of a node with the JSON of its children.
pub open spec fn node_json(children: Seq<Seq<char>>, id: Seq<char>, title: Seq<char>) -> Seq<char> {
    "{\"children\":"@ + attached_json(children) + ",\"id\":"@ + json_quoted(id) + ",\"title\":"@
        + json_quoted(title) + "}"@
}

pub open spec fn subtopic_json(s: SubtopicSpec) -> Seq<char> {
    node_json(s.items.map_values(|x: ItemSpec| item_json(x)), s.id, s.title)
}

pub open spec fn topic_json(t: TopicSpec) -> Seq<char> {
    node_json(t.subtopics.map_values(|x: SubtopicSpec| subtopic_json(x)), t.id, t.title)
}

/// The `content.json` of the XMind file of a mind map: one sheet titled
/// 会议纪要 whose root topic holds the topics.
pub open spec fn xmind_text(m: MindMapSpec) -> Seq<char> {
    "[{\"class\":\"sheet\",\"id\":\"sheet-1\",\"rootTopic\":"@ + node_json(
        m.topics.map_values(|x: TopicSpec| topic_json(x)),
        "root"@,
        m.root_title,
    ) + ",\"title\":"@ + json_quoted("会议纪要"@) + "}]"@
}

fn push_node(out: &mut Vec<char>, children: &Vec<String>, id: &str, title: &str)
    ensures
        final(out)@ == old(out)@ + node_json(string_views(children@), id@, title@),
{
    let ghost before = out@;
    push_str(out, "{\"children\":");
    push_str(out, "{\"attached\":[");
    let joined = join_strings(children, ",");
    push_all(out, &joined);
    push_str(out, "]}");
    push_str(out, ",\"id\":");
    let qid = json_string(id);
    push_str(out, qid.as_str());
    push_str(out, ",\"title\":");
    let qt = json_string(title);
    push_str(out, qt.as_str());
    push_str(out, "}");
    proof {
        assert(out@ =~= before + node_json(string_views(children@), id@, title@));
    }
}

fn subtopic_json_exec(s: &MindSubtopic) -> (r: String)
    ensures
        r@ == subtopic_json(s@),
{
    let ghost want = s@.items.map_values(|x: ItemSpec| item_json(x));
    let mut parts: Vec<String> = Vec::new();
    let mut i: usize = 0;
    while i < s.items.len()
        invariant
            i <= s.items.len(),
            want == s@.items.map_values(|x: ItemSpec| item_json(x)),
            s@.items == item_views(s.items@),
            string_views(parts@) == want.take(i as int),
        decreases s.items.len() - i,
    {
        let it = &s.items[i];
        let mut o: Vec<char> = Vec::new();
        push_str(&mut o, "{\"id\":");
        let qid = json_string(it.id.as_str());
        push_str(&mut o, qid.as_str());
        push_str(&mut o, ",\"title\":");
        let qt = json_string(it.title.as_str());
        push_str(&mut o, qt.as_str());
        push_str(&mut o, "}");
        let t = string_of(&o);
        let ghost prev = parts@;
        parts.push(t);
        proof {
            assert(s@.items[i as int] == it@);
            assert(t@ =~= item_json(it@));
            lemma_string_views_push(prev, t);
            assert(want.take(i + 1) =~= want.take(i as int).push(item_json(it@)));
        }
        i += 1;
    }
    proof {
        assert(want.take(want.len() as int) =~= want);
    }
    let mut out: Vec<char> = Vec::new();
    push_node(&mut out, &parts, s.id.as_str(), s.title.as_str());
    proof {
        assert(out@ =~= subtopic_json(s@));
    }
    string_of(&out)
}

fn topic_json_exec(t: &MindTopic) -> (r: String)
    ensures
        r@ == topic_json(t@),
{
    let ghost want = t@.subtopics.map_values(|x: SubtopicSpec| subtopic_json(x));
    let mut parts: Vec<String> = Vec::new();
    let mut i: usize = 0;
    while i < t.subtopics.len()
        invariant
            i <= t.subtopics.len(),
            want == t@.subtopics.map_values(|x: SubtopicSpec| subtopic_json(x)),
            t@.subtopics == subtopic_views(t.subtopics@),
            string_views(parts@) == want.take(i as int),
        decreases t.subtopics.len() - i,
    {
        let j = subtopic_json_exec(&t.subtopics[i]);
        let ghost prev = parts@;
        parts.push(j);
        proof {
            assert(t@.subtopics[i as int] == t.subtopics@[i as int]@);
            lemma_string_views_push(prev, j);
            assert(want.take(i + 1) =~= want.take(i as int).push(j@));
        }
        i += 1;
    }
    proof {
        assert(want.take(want.len() as int) =~= want);
    }
    let mut out: Vec<char> = Vec::new();
    push_node(&mut out, &parts, t.id.as_str(), t.title.as_str());
    proof {
        assert(out@ =~= topic_json(t@));
    }
    string_of(&out)
}

/// The `content.json` of the XMind export of a mind map.
pub fn xmind_content(map: &MindMap) -> (r: String)
    ensures
        r@ == xmind_text(map@),
{
    let ghost want = map@.topics.map_values(|x: TopicSpec| topic_json(x));
    let mut parts: Vec<String> = Vec::new();
    let mut i: usize = 0;
    while i < map.topics.len()
        invariant
            i <= map.topics.len(),
            want == map@.topics.map_values(|x: TopicSpec| topic_json(x)),
            map@.topics == topic_views(map.topics@),
            string_views(parts@) == want.take(i as int),
        decreases map.topics.len() - i,
    {
        let j = topic_json_exec(&map.topics[i]);
        let ghost prev = parts@;
        parts.push(j);
        proof {
            assert(map@.topics[i as int] == map.topics@[i as int]@);
            lemma_string_views_push(prev, j);
            assert(want.take(i + 1) =~= want.take(i as int).push(j@));
        }
        i += 1;
    }
    proof {
        assert(want.take(want.len() as int) =~= want);
    }
    let mut out: Vec<char> = Vec::new();
    push_str(&mut out, "[{\"class\":\"sheet\",\"id\":\"sheet-1\",\"rootTopic\":");
    push_node(&mut out, &parts, "root", map.root_title.as_str());
    push_str(&mut out, ",\"title\":");
    let q = json_string("会议纪要");
    push_str(&mut out, q.as_str());
    push_str(&mut out, "}]");
    proof {
        assert(out@ =~= xmind_text(map@));
    }
    string_of(&out)
}

/// The `metadata.json` of an XMind export: the app that wrote it.
pub fn xmind_metadata() -> (r: String)
    ensures
        r@ == "{\"creator\":{\"name\":\"AI Listen RS\",\"version\":\"0.1.0\"}}"@,
{
    String::from_str("{\"creator\":{\"name\":\"AI Listen RS\",\"version\":\"0.1.0\"}}")
}

} // verus!
