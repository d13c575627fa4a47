use wortex::entity::ToolCall;
use wortex::tools::filter_tool_calls;

fn make_call(id: i64, hook_type: &str, tool_name: &str) -> ToolCall {
    ToolCall {
        id,
        process_id: "session-1".to_string(),
        hook_type: hook_type.to_string(),
        tool_name: tool_name.to_string(),
        tool_input: "{}".to_string(),
        timestamp: 1000 + id,
        sequence: id,
    }
}

#[test]
fn test_filter_by_hook_type() {
    let calls = vec![
        make_call(1, "pre", "Read"),
        make_call(2, "post", "Read"),
        make_call(3, "pre", "Write"),
    ];

    let calls = filter_tool_calls(calls, &Some("pre".to_string()), None);

    assert_eq!(calls.len(), 2);
    assert!(calls.iter().all(|c| c.hook_type == "pre"));
}

#[test]
fn test_limit_truncates_results() {
    let calls: Vec<ToolCall> = (0..10).map(|i| make_call(i, "pre", "Tool")).collect();

    let calls = filter_tool_calls(calls, &None, Some(3));

    assert_eq!(calls.len(), 3);
}

#[test]
fn test_filter_keeps_order_and_limit_takes_prefix() {
    let calls = vec![
        make_call(1, "pre", "A"),
        make_call(2, "post", "B"),
        make_call(3, "pre", "C"),
        make_call(4, "pre", "D"),
    ];
    let calls = filter_tool_calls(calls, &Some("pre".to_string()), Some(2));
    assert_eq!(calls.len(), 2);
    assert_eq!(calls[0].tool_name, "A");
    assert_eq!(calls[1].tool_name, "C");
}

#[test]
fn test_limit_larger_than_list_keeps_everything() {
    let calls = vec![make_call(1, "pre", "A")];
    let calls = filter_tool_calls(calls, &None, Some(10));
    assert_eq!(calls.len(), 1);
}
