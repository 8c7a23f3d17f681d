use ai_listen::tasks::{
    analysis_refreshes_index, append_partial, create, get, list, on_analysis_event, on_transcription_event,
    transcription_refreshes_index, update_progress, AnalysisEvent, TaskRegistry, TranscriptionEvent,
};

#[test]
fn create_then_get() {
    let mut reg = TaskRegistry::new();
    let t = create(&mut reg, "transcription", Some("sync".to_string()), "等待转写", 123);
    assert_eq!(t.id, "task-123");
    assert_eq!(t.state, "queued");
    assert_eq!(t.progress, 0);
    assert_eq!(t.partial, "");
    let g = get(&reg, "task-123").unwrap();
    assert_eq!(g.kind, "transcription");
    assert_eq!(g.message, "等待转写");
    assert_eq!(g.session_slug.as_deref(), Some("sync"));
    assert!(get(&reg, "task-999").is_none());
}

#[test]
fn progress_is_capped_and_unknown_ids_ignored() {
    let mut reg = TaskRegistry::new();
    create(&mut reg, "k", None, "m", 1);
    update_progress(&mut reg, "task-1", "running", "half", Some(150), Some("partial"));
    let t = get(&reg, "task-1").unwrap();
    assert_eq!(t.progress, 100);
    assert_eq!(t.state, "running");
    assert_eq!(t.message, "half");
    assert_eq!(t.partial, "partial");
    update_progress(&mut reg, "task-1", "done", "ok", None, None);
    let t = get(&reg, "task-1").unwrap();
    assert_eq!(t.progress, 100);
    assert_eq!(t.partial, "partial");
    update_progress(&mut reg, "task-7", "done", "ok", Some(5), None);
    assert!(get(&reg, "task-7").is_none());
    assert_eq!(list(&reg).len(), 1);
}

#[test]
fn partial_text_grows_with_blank_lines() {
    let mut reg = TaskRegistry::new();
    create(&mut reg, "k", None, "m", 5);
    append_partial(&mut reg, "task-5", "first");
    append_partial(&mut reg, "task-5", "");
    append_partial(&mut reg, "task-5", "second");
    assert_eq!(get(&reg, "task-5").unwrap().partial, "first\n\nsecond");
    append_partial(&mut reg, "task-6", "lost");
    assert!(get(&reg, "task-6").is_none());
}

#[test]
fn list_is_in_id_order() {
    let mut reg = TaskRegistry::new();
    create(&mut reg, "k", None, "m", 30);
    create(&mut reg, "k", None, "m", 100);
    create(&mut reg, "k", None, "m", 20);
    let ids: Vec<String> = list(&reg).into_iter().map(|t| t.id).collect();
    assert_eq!(ids, vec!["task-100".to_string(), "task-20".to_string(), "task-30".to_string()]);
}

#[test]
fn transcription_job_reports() {
    let mut reg = TaskRegistry::new();
    create(&mut reg, "transcription", None, "等待转写", 9);
    on_transcription_event(&mut reg, "task-9", &TranscriptionEvent::Uploading);
    let t = get(&reg, "task-9").unwrap();
    assert_eq!((t.state.as_str(), t.message.as_str(), t.progress, t.partial.as_str()), ("running", "正在上传音频", 15, "准备上传音频文件..."));
    on_transcription_event(&mut reg, "task-9", &TranscriptionEvent::Submitted);
    assert_eq!(get(&reg, "task-9").unwrap().progress, 55);
    on_transcription_event(&mut reg, "task-9", &TranscriptionEvent::ChunkDone { chunk: 1, total: 2, progress: 50 });
    let t = get(&reg, "task-9").unwrap();
    assert_eq!(t.message, "正在转写音频 1/2");
    assert_eq!(t.progress, 50);
    assert_eq!(t.partial, "音频已提交，等待转写结果...");
    on_transcription_event(&mut reg, "task-9", &TranscriptionEvent::ChunkText { text: "hello".to_string() });
    assert_eq!(get(&reg, "task-9").unwrap().partial, "音频已提交，等待转写结果...\n\nhello");
    on_transcription_event(&mut reg, "task-9", &TranscriptionEvent::Writing { preview: "hello".to_string() });
    assert_eq!(get(&reg, "task-9").unwrap().progress, 90);
    let done = TranscriptionEvent::Finished(Ok("转写已写入笔记".to_string()));
    assert!(transcription_refreshes_index(&done));
    on_transcription_event(&mut reg, "task-9", &done);
    let t = get(&reg, "task-9").unwrap();
    assert_eq!((t.state.as_str(), t.message.as_str(), t.progress), ("done", "转写已写入笔记", 100));
    let failed = TranscriptionEvent::Finished(Err("boom".to_string()));
    assert!(!transcription_refreshes_index(&failed));
    on_transcription_event(&mut reg, "task-9", &failed);
    assert_eq!(get(&reg, "task-9").unwrap().state, "failed");
}

#[test]
fn analysis_job_reports() {
    let mut reg = TaskRegistry::new();
    create(&mut reg, "screenshot_analysis", Some("s".to_string()), "等待识别", 3);
    on_analysis_event(&mut reg, "task-3", &AnalysisEvent::Started);
    assert_eq!(get(&reg, "task-3").unwrap().progress, 30);
    on_analysis_event(&mut reg, "task-3", &AnalysisEvent::Writing);
    assert_eq!(get(&reg, "task-3").unwrap().message, "正在写入识别结果");
    assert!(analysis_refreshes_index(&AnalysisEvent::Finished(Ok(()))));
    on_analysis_event(&mut reg, "task-3", &AnalysisEvent::Finished(Err("no key".to_string())));
    let t = get(&reg, "task-3").unwrap();
    assert_eq!((t.state.as_str(), t.message.as_str(), t.progress), ("failed", "no key", 100));
}
