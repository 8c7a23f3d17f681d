use ai_listen::tokens::{extract_usage_from_response, get_report, record_usage, TokenRecord, UsageFields};

fn rec(op: &str, p: u32, c: u32) -> TokenRecord {
    TokenRecord { timestamp: "0".to_string(), operation: op.to_string(), prompt_tokens: p, completion_tokens: c, total_tokens: p + c }
}

#[test]
fn record_usage_appends_and_keeps_500() {
    let mut records = Vec::new();
    record_usage(&mut records, "10", "summarize", 3, 4);
    assert_eq!(records.len(), 1);
    assert_eq!(records[0].timestamp, "10");
    assert_eq!(records[0].operation, "summarize");
    assert_eq!(records[0].total_tokens, 7);
    for i in 0..600u32 {
        record_usage(&mut records, &i.to_string(), "op", i, 0);
    }
    assert_eq!(records.len(), 500);
    assert_eq!(records[0].prompt_tokens, 100);
    assert_eq!(records[499].prompt_tokens, 599);
}

#[test]
fn report_totals_groups_and_recent() {
    let mut records = vec![rec("summarize", 10, 5), rec("vision", 100, 50), rec("summarize", 1, 1)];
    for _ in 0..20 {
        records.push(rec("summarize", 0, 0));
    }
    records.push(rec("vision", 2, 2));
    let r = get_report(&records);
    assert_eq!(r.total_prompt_tokens, 113);
    assert_eq!(r.total_completion_tokens, 58);
    assert_eq!(r.total_tokens, 171);
    assert_eq!(r.by_operation.len(), 2);
    assert_eq!(r.by_operation[0].operation, "vision");
    assert_eq!(r.by_operation[0].count, 2);
    assert_eq!(r.by_operation[0].total_tokens, 154);
    assert_eq!(r.by_operation[1].operation, "summarize");
    assert_eq!(r.by_operation[1].count, 22);
    assert_eq!(r.by_operation[1].total_tokens, 17);
    assert_eq!(r.recent.len(), 20);
    assert_eq!(r.recent[0].operation, "vision");
    assert_eq!(r.recent[0].total_tokens, 4);
}

#[test]
fn empty_report() {
    let r = get_report(&Vec::new());
    assert_eq!(r.total_tokens, 0);
    assert!(r.by_operation.is_empty());
    assert!(r.recent.is_empty());
}

#[test]
fn usage_extraction() {
    assert_eq!(extract_usage_from_response(&None), None);
    let chat = UsageFields { prompt_tokens: Some(12), completion_tokens: Some(3), input_tokens: None, output_tokens: None };
    assert_eq!(extract_usage_from_response(&Some(chat)), Some((12, 3)));
    let responses = UsageFields { prompt_tokens: None, completion_tokens: Some(0), input_tokens: Some(7), output_tokens: Some(9) };
    assert_eq!(extract_usage_from_response(&Some(responses)), Some((7, 9)));
    let none = UsageFields { prompt_tokens: Some(0), completion_tokens: None, input_tokens: None, output_tokens: Some(0) };
    assert_eq!(extract_usage_from_response(&Some(none)), None);
    let big = UsageFields { prompt_tokens: Some((1u64 << 32) + 5), completion_tokens: None, input_tokens: None, output_tokens: None };
    assert_eq!(extract_usage_from_response(&Some(big)), Some((5, 0)));
}
