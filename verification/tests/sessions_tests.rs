use ai_listen::sessions::{
    classify_file, note_header, note_line, notes_with_transcript, offline_summary, session_details,
    timestamp, timestamped_name, title_from_notes, FileEntry, MaterialKind, SessionStep, SessionStore,
};
use ai_listen::index::tokenize;
use ai_listen::slug::slugify;

#[test]
fn slugifies_titles() {
    assert_eq!(slugify("Product Sync 2026"), "product-sync-2026");
    assert_eq!(slugify("  AI 听记  "), "ai-听记");
    assert_eq!(slugify("会议"), "会议");
}

#[test]
fn slugify_collapses_separators_and_falls_back() {
    assert_eq!(slugify("Hello,   World!!"), "hello-world");
    assert_eq!(slugify("---"), "untitled");
    assert_eq!(slugify(""), "untitled");
    assert_eq!(slugify("../etc/passwd"), "etc-passwd");
    assert_eq!(slugify("ÄBC"), "äbc");
}

#[test]
fn slug_is_the_tokens_joined() {
    for title in ["Product Sync 2026", "  AI 听记  ", "Hello,   World!!", "../etc/passwd", "a--b__c"] {
        assert_eq!(slugify(title), tokenize(title).join("-"));
    }
    assert!(tokenize("--- !!").is_empty());
    assert_eq!(slugify("--- !!"), "untitled");
}

#[test]
fn slugifying_a_slug_keeps_it() {
    for title in ["Product Sync 2026", "Hello,   World!!", "../etc/passwd", "---", "  AI 听记  "] {
        let once = slugify(title);
        assert_eq!(slugify(&once), once);
    }
}

#[test]
fn session_paths_follow_the_slug() {
    let store = SessionStore::new("ai-listen-data".to_string());
    assert_eq!(store.root(), "ai-listen-data");
    assert_eq!(store.session_path("Product sync"), "ai-listen-data/product-sync");
    match store.ensure_session("Product sync", true) {
        SessionStep::Existing(p) => assert_eq!(p, "ai-listen-data/product-sync"),
        _ => panic!("expected the existing folder"),
    }
    match store.ensure_session("Product sync", false) {
        SessionStep::Create { path, note } => {
            assert_eq!(path, "ai-listen-data/product-sync");
            assert_eq!(note, "# Product sync\n\n");
        }
        _ => panic!("expected a folder to create"),
    }
}

#[test]
fn session_paths_use_the_platform_separator() {
    let store = SessionStore::with_separator("C:\\data".to_string(), '\\');
    assert_eq!(store.session_path("Product sync"), "C:\\data\\product-sync");
    let ends = SessionStore::with_separator("C:\\data\\".to_string(), '\\');
    assert_eq!(ends.session_dir("sync"), "C:\\data\\sync");
    let slash = SessionStore::with_separator("data/".to_string(), '\\');
    assert_eq!(slash.session_dir("sync"), "data/sync");
    let empty = SessionStore::with_separator(String::new(), '\\');
    assert_eq!(empty.session_dir("sync"), "sync");
}

#[test]
fn session_dir_by_slug_refuses_traversal() {
    let store = SessionStore::new("data/".to_string());
    assert_eq!(store.session_dir_by_slug("../x", true), Err("invalid session slug".to_string()));
    assert_eq!(store.session_dir_by_slug("a\\b", true), Err("invalid session slug".to_string()));
    assert_eq!(store.session_dir_by_slug("a/b", true), Err("invalid session slug".to_string()));
    assert_eq!(store.session_dir_by_slug("sync", false), Err("session not found: sync".to_string()));
    assert_eq!(store.session_dir_by_slug("sync", true), Ok("data/sync".to_string()));
}

#[test]
fn note_texts() {
    assert_eq!(note_header("周会"), "# 周会\n\n");
    assert_eq!(note_line("  ship it  "), "- ship it\n");
    assert_eq!(notes_with_transcript("# A", "  hello \n"), "# A\n\n## 转写\n\nhello\n");
    assert_eq!(notes_with_transcript("# A\n", "x"), "# A\n\n## 转写\n\nx\n");
    assert_eq!(timestamp(1700000000), "1700000000");
    assert_eq!(timestamped_name("screenshot", 42, "png"), "screenshot-42.png");
}

#[test]
fn offline_summary_takes_six_bullets() {
    assert_eq!(
        offline_summary("# T\nplain\n"),
        "暂无可总结的笔记。接入语音识别后，这里会生成会议纪要、关键决定和待办。"
    );
    let notes = "- a\n  - b\nc\n- c\n- d\n- e\n- f\n- g\n";
    assert_eq!(
        offline_summary(notes),
        "本地摘要预览：\n- a\n- b\n- c\n- d\n- e\n- f\n\nAI 摘要接口接入后，可在这里生成正式会议纪要和待办。"
    );
}

#[test]
fn files_are_classified_by_name() {
    assert!(matches!(classify_file("shot.png"), MaterialKind::Screenshot));
    assert!(matches!(classify_file("rec.mkv"), MaterialKind::Recording));
    assert!(matches!(classify_file("a.m4a"), MaterialKind::Audio));
    assert!(matches!(classify_file("transcript-1.md"), MaterialKind::Transcript));
    assert!(matches!(classify_file("notes.md"), MaterialKind::Other));
}

#[test]
fn title_comes_from_first_heading() {
    assert_eq!(title_from_notes("intro\n# Weekly\n# Other\n", "weekly"), "Weekly");
    assert_eq!(title_from_notes("no heading", "the-slug"), "the-slug");
}

#[test]
fn session_details_sorts_each_kind() {
    let entries = vec![
        FileEntry { name: "b.png".to_string(), path: "s/b.png".to_string() },
        FileEntry { name: "a.png".to_string(), path: "s/a.png".to_string() },
        FileEntry { name: "r.mp4".to_string(), path: "s/r.mp4".to_string() },
        FileEntry { name: "x.wav".to_string(), path: "s/x.wav".to_string() },
        FileEntry { name: "transcript-2.md".to_string(), path: "s/transcript-2.md".to_string() },
        FileEntry { name: "notes.md".to_string(), path: "s/notes.md".to_string() },
    ];
    let d = session_details("s", "root/s", "# Sync\n".to_string(), &entries, true, false);
    assert_eq!(d.title, "Sync");
    assert_eq!(d.screenshots, vec!["s/a.png".to_string(), "s/b.png".to_string()]);
    assert_eq!(d.recordings, vec!["s/r.mp4".to_string()]);
    assert_eq!(d.audio, vec!["s/x.wav".to_string()]);
    assert_eq!(d.transcripts, vec!["s/transcript-2.md".to_string()]);
    assert!(d.is_recording);
    assert!(!d.is_audio_recording);
}

#[test]
fn created_session_reads_back_its_title() {
    let header = note_header("Product sync 周会");
    assert_eq!(title_from_notes(&header, "product-sync-周会"), "Product sync 周会");
    // A title holding a line break reads back only its first line.
    let broken = note_header("a\nb");
    assert_eq!(title_from_notes(&broken, "a-b"), "a");
}
