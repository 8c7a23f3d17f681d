use ai_listen::ai::{
    analysis_note, append_chunk, convert_to_mp3_command, extract_output_text, failed_status,
    latest_file, load_image_as_data_url, load_media_as_data_url, resize_image_command,
    screenshot_data_url, split_audio_command, summary_or_offline, summary_prompt, transcript_preview,
    transcription_outcome, vision_text, OutputItem, ResponseBody,
};

#[test]
fn data_urls_carry_base64_and_type() {
    assert_eq!(load_image_as_data_url("photo.JPG", b"hi"), "data:image/jpeg;base64,aGk=");
    assert_eq!(load_image_as_data_url("a.b.webp", b"hi"), "data:image/webp;base64,aGk=");
    assert_eq!(load_image_as_data_url("noext", b""), "data:image/png;base64,");
    assert_eq!(load_media_as_data_url("clip.MOV", b"abc"), "data:video/quicktime;base64,YWJj");
    assert_eq!(load_media_as_data_url("x.unknown", b"abc"), "data:application/octet-stream;base64,YWJj");
    assert_eq!(load_media_as_data_url("voice.m4a", b"a"), "data:audio/mp4;base64,YQ==");
    assert_eq!(screenshot_data_url(b"hi"), "data:image/png;base64,aGk=");
}

#[test]
fn summary_prompt_wraps_notes() {
    assert_eq!(
        summary_prompt("- a"),
        "请把以下会议听记整理成中文会议纪要，包含：摘要、关键决定、待办事项、风险或未决问题。\n\n- a"
    );
}

#[test]
fn output_text_is_read() {
    let direct = ResponseBody { output_text: Some("hello".to_string()), output: None };
    assert_eq!(extract_output_text(&direct), Some("hello".to_string()));
    let parts = ResponseBody {
        output_text: None,
        output: Some(vec![
            OutputItem { content: Some(vec![Some("a".to_string()), None, Some("b".to_string())]) },
            OutputItem { content: None },
            OutputItem { content: Some(vec![Some("c".to_string())]) },
        ]),
    };
    assert_eq!(extract_output_text(&parts), Some("a\nb\nc".to_string()));
    let empty = ResponseBody { output_text: None, output: Some(vec![OutputItem { content: Some(vec![None]) }]) };
    assert_eq!(extract_output_text(&empty), None);
    assert_eq!(extract_output_text(&ResponseBody { output_text: None, output: None }), None);
}

#[test]
fn transcript_grows_chunk_by_chunk() {
    let mut t = String::new();
    assert_eq!(append_chunk(&mut t, "  first "), "first");
    assert_eq!(t, "first");
    assert_eq!(append_chunk(&mut t, "second\n"), "second");
    assert_eq!(t, "first\n\nsecond");
}

#[test]
fn preview_cuts_at_240_chars() {
    let long = "字".repeat(300);
    assert_eq!(transcript_preview(&long), format!("{}...", "字".repeat(240)));
    assert_eq!(transcript_preview("  hi  "), "hi");
    assert_eq!(transcript_preview(&"x".repeat(240)), "x".repeat(240));
}

#[test]
fn response_texts() {
    assert_eq!(analysis_note(" result \n"), "\n\n## 截图识别结果\n\nresult");
    assert_eq!(vision_text(Some(" hi ")), Ok("hi".to_string()));
    assert_eq!(vision_text(None), Err("vision response did not include content".to_string()));
    assert_eq!(transcription_outcome(true, "200 OK", " text\n"), Ok("text".to_string()));
    assert_eq!(
        transcription_outcome(false, "400 Bad Request", "oops"),
        Err("transcription failed with status 400 Bad Request: oops".to_string())
    );
    assert_eq!(failed_status("summary", "500", "x"), "summary failed with status 500: x");
    assert_eq!(
        latest_file(&Vec::new(), "no audio recording found for this session"),
        Err("no audio recording found for this session".to_string())
    );
    assert_eq!(latest_file(&vec!["a".to_string(), "b".to_string()], "none"), Ok("b".to_string()));
}

#[test]
fn ffmpeg_commands() {
    let c = convert_to_mp3_command("in.wav", "out.mp3");
    assert_eq!(c.program, "ffmpeg");
    assert_eq!(c.args, vec!["-y", "-i", "in.wav", "-acodec", "libmp3lame", "-ar", "16000", "-ac", "1", "out.mp3"]);
    let r = resize_image_command("a.png", "b.png");
    assert_eq!(r.args, vec!["-y", "-i", "a.png", "-vf", "scale='min(2048,iw)':min(2048,ih)'", "b.png"]);
    let s = split_audio_command("a.wav", "dir/chunk-%03d.mp3");
    assert_eq!(s.args.len(), 16);
    assert_eq!(s.args[3], "-f");
    assert_eq!(s.args[4], "segment");
    assert_eq!(s.args[15], "dir/chunk-%03d.mp3");
}

#[test]
fn summary_falls_back_offline() {
    assert_eq!(summary_or_offline(Ok("AI".to_string()), "- a"), "AI");
    assert_eq!(
        summary_or_offline(Err("down".to_string()), "- a"),
        "本地摘要预览：\n- a\n\nAI 摘要接口接入后，可在这里生成正式会议纪要和待办。"
    );
}

#[test]
fn base64_follows_the_standard_alphabet_with_padding() {
    let cases: [(&[u8], &str); 7] = [
        (b"", ""),
        (b"f", "Zg=="),
        (b"fo", "Zm8="),
        (b"foo", "Zm9v"),
        (b"foob", "Zm9vYg=="),
        (b"foobar", "Zm9vYmFy"),
        (&[0xfb, 0xff, 0xfe], "+//+"),
    ];
    for (bytes, text) in cases {
        assert_eq!(screenshot_data_url(bytes), format!("data:image/png;base64,{text}"));
    }
}
