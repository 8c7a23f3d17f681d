use ai_listen::export::{check_notes, markdown_to_html, parse_markdown_to_mindmap, xmind_content, xmind_metadata};

#[test]
fn blank_notes_are_refused() {
    assert_eq!(check_notes(" \n\t"), Err("笔记为空，无法导出".to_string()));
    assert_eq!(check_notes("# x"), Ok(()));
}

#[test]
fn html_renders_each_line() {
    let html = markdown_to_html("# Title\n  ## Sec  \n### Sub\n- item\n* star\n\nplain");
    assert!(html.starts_with("<!DOCTYPE html>\n<html lang=\"zh-CN\">\n<head>\n<meta charset=\"UTF-8\">\n<title>会议笔记</title>\n"));
    let body_start = html.find("<body>\n").unwrap() + "<body>\n".len();
    assert_eq!(
        &html[body_start..],
        "<h1>Title</h1>\n<h2>Sec</h2>\n<h3>Sub</h3>\n<li>item</li>\n<li>star</li>\n<br>\n<p>plain</p>\n</body></html>"
    );
}

#[test]
fn mindmap_follows_headings() {
    let notes = "# Root\n## A\n### A1\n- x\n- y\n### A2\n## B\n### B1\n## C\n- orphan\n";
    let m = parse_markdown_to_mindmap(notes);
    assert_eq!(m.root_title, "Root");
    assert_eq!(m.topics.len(), 3);
    let a = &m.topics[0];
    assert_eq!(a.id, "h2-0");
    assert_eq!(a.title, "A");
    assert_eq!(a.subtopics.len(), 1);
    assert_eq!(a.subtopics[0].id, "h3-0-0");
    assert_eq!(a.subtopics[0].title, "A1");
    assert_eq!(a.subtopics[0].items.len(), 2);
    assert_eq!(a.subtopics[0].items[0].id, "li-0-0-0");
    assert_eq!(a.subtopics[0].items[0].title, "x");
    assert_eq!(a.subtopics[0].items[1].id, "li-0-0-1");
    // A subtopic without items is dropped when the next topic opens.
    assert_eq!(m.topics[1].id, "h2-1");
    assert_eq!(m.topics[1].title, "B");
    assert!(m.topics[1].subtopics.is_empty());
    assert_eq!(m.topics[2].id, "h2-2");
    assert!(m.topics[2].subtopics.is_empty());
}

#[test]
fn mindmap_keeps_last_subtopic_and_default_root() {
    let m = parse_markdown_to_mindmap("## T\n### S\n");
    assert_eq!(m.root_title, "会议主题");
    assert_eq!(m.topics.len(), 1);
    assert_eq!(m.topics[0].subtopics.len(), 1);
    assert_eq!(m.topics[0].subtopics[0].id, "h3-0-0");
    assert!(m.topics[0].subtopics[0].items.is_empty());
    let empty = parse_markdown_to_mindmap("");
    assert!(empty.topics.is_empty());
}

#[test]
fn xmind_content_is_one_sheet() {
    let map = parse_markdown_to_mindmap("# Root\n## A\n### B\n- c");
    assert_eq!(
        xmind_content(&map),
        [
            r#"[{"class":"sheet","id":"sheet-1","rootTopic":{"children":{"attached":["#,
            r#"{"children":{"attached":[{"children":{"attached":[{"id":"li-0-0-0","title":"c"}]},"id":"h3-0-0","title":"B"}]},"id":"h2-0","title":"A"}"#,
            r#"]},"id":"root","title":"Root"},"title":"会议纪要"}]"#,
        ]
        .concat()
    );
    let empty = parse_markdown_to_mindmap("just text");
    assert_eq!(
        xmind_content(&empty),
        r#"[{"class":"sheet","id":"sheet-1","rootTopic":{"children":{"attached":[]},"id":"root","title":"会议主题"},"title":"会议纪要"}]"#
    );
}

#[test]
fn xmind_content_escapes_titles() {
    let map = parse_markdown_to_mindmap("# Say \"hi\" \\ now");
    let text = xmind_content(&map);
    assert!(text.contains(r#""title":"Say \"hi\" \\ now""#));
    let value: serde_json::Value = serde_json::from_str(&text).unwrap();
    assert_eq!(value[0]["rootTopic"]["title"].as_str(), Some("Say \"hi\" \\ now"));
    assert_eq!(value[0]["title"].as_str(), Some("会议纪要"));
    let controls = xmind_content(&parse_markdown_to_mindmap("# a\tb\u{1}c\u{1f}d"));
    assert!(controls.contains(r#""title":"a\tb\u0001c\u001fd""#));
    assert_eq!(xmind_metadata(), r#"{"creator":{"name":"AI Listen RS","version":"0.1.0"}}"#);
}
