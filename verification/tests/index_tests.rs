use ai_listen::index::{
    count_terms, highlight_snippet, index_documents, lists_all_sessions, make_snippet, search,
    searchable_text, tokenize, SearchHit, SearchOutcome, SessionSnapshot,
};
use ai_listen::sessions::SessionDetails;

fn session(title: &str, slug: &str, notes: &str) -> SessionDetails {
    SessionDetails {
        title: title.to_string(),
        slug: slug.to_string(),
        path: format!("data/{slug}"),
        notes: notes.to_string(),
        screenshots: Vec::new(),
        recordings: Vec::new(),
        audio: Vec::new(),
        transcripts: Vec::new(),
        is_recording: false,
        is_audio_recording: false,
    }
}

#[test]
fn tokenize_lowercases_and_splits() {
    assert_eq!(tokenize("Hello, World! 你好2026"), vec!["hello", "world", "你好2026"]);
    assert!(tokenize("  !! ").is_empty());
    assert!(lists_all_sessions(" ,; "));
    assert!(!lists_all_sessions("rust"));
}

#[test]
fn counts_terms() {
    let cs = count_terms("a b a");
    let a = cs.iter().find(|c| c.term == "a").unwrap();
    let b = cs.iter().find(|c| c.term == "b").unwrap();
    assert_eq!(a.count, 2);
    assert_eq!(b.count, 1);
    assert_eq!(cs.len(), 2);
}

#[test]
fn searchable_text_joins_fields() {
    let mut s = session("T", "t", "N");
    s.screenshots = vec!["a.png".to_string(), "b.png".to_string()];
    assert_eq!(searchable_text(&s, "tr"), "T\nN\na.png\nb.png\n\n\ntr");
}

#[test]
fn search_ranks_by_weighted_counts() {
    let snaps = vec![
        SessionSnapshot {
            session: session("Product Sync", "product-sync", "# Product Sync\n\nDecided to ship the Rust prototype."),
            transcript_text: String::new(),
            updated_at: 10,
        },
        SessionSnapshot {
            session: session("Design Review", "design-review", "# Design Review\n\nRust ideas"),
            transcript_text: "rust rust".to_string(),
            updated_at: 20,
        },
    ];
    let (stats, docs) = index_documents(&snaps);
    assert_eq!(stats.sessions, 2);
    assert_eq!(stats.documents, 2);
    assert_eq!(stats.terms, 11);

    match search(&docs, "RUST") {
        SearchOutcome::Ranked(v) => {
            assert_eq!(v.len(), 2);
            assert_eq!(v[0].slug, "design-review");
            assert_eq!(v[0].score, 9);
            assert_eq!(v[0].reasons, vec!["笔记: rust".to_string(), "转写: rust".to_string()]);
            assert_eq!(v[0].snippet, "Design Review\n# Design Review\n\nRust ideas\n\n\n\nrust rust");
            assert_eq!(
                v[0].highlighted_snippet,
                "Design Review\n# Design Review\n\n<mark>Rust</mark> ideas\n\n\n\n<mark>rust</mark> <mark>rust</mark>"
            );
            assert_eq!(v[0].match_text, "rust");
            assert_eq!(v[0].updated_at, 20);
            assert_eq!(v[1].slug, "product-sync");
            assert_eq!(v[1].score, 3);
            assert_eq!(v[1].reasons, vec!["笔记: rust".to_string()]);
        }
        _ => panic!("expected ranked results"),
    }

    match search(&docs, "product") {
        SearchOutcome::Ranked(v) => {
            assert_eq!(v.len(), 1);
            // title 5 + notes 3
            assert_eq!(v[0].score, 8);
            assert_eq!(v[0].reasons, vec!["标题: product".to_string(), "笔记: product".to_string()]);
        }
        _ => panic!("expected ranked results"),
    }

    assert!(matches!(search(&docs, "nothing"), SearchOutcome::Ranked(v) if v.is_empty()));
    assert!(matches!(search(&docs, "  "), SearchOutcome::AllSessions));
}

#[test]
fn snippets_are_cut_around_the_first_hit() {
    let text = format!("{}needle{}", "a".repeat(60), "b".repeat(200));
    let terms = vec!["needle".to_string()];
    let snippet = make_snippet(&text, &terms);
    assert_eq!(snippet, format!("...{}needle{}...", "a".repeat(41), "b".repeat(114)));
    assert_eq!(make_snippet("short text", &terms), "short text");
    assert_eq!(highlight_snippet("a needle b", &terms), "a <mark>needle</mark> b");
}

#[test]
fn highlighting_ignores_case() {
    let terms = vec!["rust".to_string()];
    assert_eq!(highlight_snippet("Rust sync", &terms), "<mark>Rust</mark> sync");
    assert_eq!(highlight_snippet("RUST and rUsT", &terms), "<mark>RUST</mark> and <mark>rUsT</mark>");
    assert_eq!(highlight_snippet("no match here", &terms), "no match here");
    assert_eq!(highlight_snippet("", &terms), "");
    for text in ["Rust sync", "rust, RUST and Rusty", "nothing", "x < y: Rust<3", "<rust>"] {
        let marked = highlight_snippet(text, &terms);
        assert_eq!(marked.replace("<mark>", "").replace("</mark>", ""), text);
    }
}

#[test]
fn each_occurrence_gets_its_own_mark() {
    let rust = vec!["rust".to_string()];
    assert_eq!(highlight_snippet("rustrust", &rust), "<mark>rust</mark><mark>rust</mark>");
    let terms = vec!["ab".to_string(), "bc".to_string()];
    assert_eq!(highlight_snippet("xABCx", &terms), "x<mark>AB</mark>Cx");
    assert_eq!(highlight_snippet("abab", &vec!["ab".to_string()]), "<mark>ab</mark><mark>ab</mark>");
    assert_eq!(highlight_snippet("aaa", &vec!["aa".to_string()]), "<mark>aa</mark>a");
    let cjk = vec!["听记".to_string()];
    assert_eq!(highlight_snippet("AI 听记 会议", &cjk), "AI <mark>听记</mark> 会议");
}

#[test]
fn later_terms_are_marked_in_the_marked_text() {
    let nested = vec!["rust".to_string(), "us".to_string()];
    assert_eq!(highlight_snippet("rust", &nested), "<mark>r<mark>us</mark>t</mark>");
    let tag_word = vec!["rust".to_string(), "mark".to_string()];
    assert_eq!(
        highlight_snippet("rust mark", &tag_word),
        "<<mark>mark</mark>>rust</<mark>mark</mark>> <mark>mark</mark>"
    );
    let empty_term = vec![String::new()];
    assert_eq!(
        highlight_snippet("abc", &empty_term),
        "<mark></mark>a<mark></mark>b<mark></mark>c<mark></mark>"
    );
}

#[test]
fn listed_hits_have_no_score() {
    let h = SearchHit::listed(session("T", "t", ""), 5);
    assert_eq!(h.score, 0);
    assert_eq!(h.reasons, vec!["全部会议".to_string()]);
    assert_eq!(h.updated_at, 5);
    assert!(h.snippet.is_empty());
}

#[test]
fn ascii_documents_always_have_snippets() {
    let filler = "word ".repeat(100);
    let snaps = vec![
        SessionSnapshot {
            session: session("Long", "long", ""),
            transcript_text: format!("{filler}rust"),
            updated_at: 1,
        },
        SessionSnapshot {
            session: session("Start", "start", ""),
            transcript_text: format!("rust {filler}"),
            updated_at: 2,
        },
    ];
    let (_, docs) = index_documents(&snaps);
    match search(&docs, "rust") {
        SearchOutcome::Ranked(v) => {
            assert_eq!(v.len(), 2);
            assert!(v.iter().all(|hit| hit.snippet.contains("rust")));
            assert!(v.iter().all(|hit| hit.highlighted_snippet.contains("<mark>rust</mark>")));
        }
        _ => panic!("expected ranked results"),
    }
}
