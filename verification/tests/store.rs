use wortex::entity::{Command, Entry, ExitKill, Status};
use wortex::registry::{
    delete_process, get_all_processes, get_all_tool_calls, get_process_by_id,
    get_process_by_branch, get_tool_calls_by_process, insert_process, insert_tool_call,
    record_termination, set_exit_code, Registry,
};

fn make_entry(id: &str, branch: &str) -> Entry {
    Entry {
        id: id.to_string(),
        project: "tp".to_string(),
        branch: branch.to_string(),
        path: format!("/tmp/tp-{}", branch),
        tmux_session: "dev".to_string(),
        tmux_window: branch.to_string(),
        command: Command::Claude {
            prompt: "do work".to_string(),
            agent: None,
        },
        exit_kill: None,
        exit_code: None,
        created_at: 1000,
        updated_at: 1000,
    }
}

#[test]
fn test_schema_creates_both_tables() {
    let reg = Registry::new();
    assert_eq!(reg.processes.len(), 0);
    assert_eq!(reg.tool_calls.len(), 0);
}

#[test]
fn test_insert_and_get_process() {
    let mut reg = Registry::new();
    let entry = make_entry("id-a", "feat-a");

    insert_process(&mut reg, &entry).unwrap();
    let found = get_process_by_id(&reg, "id-a");

    assert!(found.is_some());
    let found = found.unwrap();
    assert_eq!(found.id, entry.id);
    assert_eq!(found.branch, "feat-a");
    assert_eq!(found.project, "tp");
}

#[test]
fn test_get_process_by_branch() {
    let mut reg = Registry::new();
    let entry = make_entry("id-b", "feat-b");
    insert_process(&mut reg, &entry).unwrap();

    let found = get_process_by_branch(&reg, "feat-b");
    assert!(found.is_some());
    assert_eq!(found.unwrap().id, entry.id);

    let missing = get_process_by_branch(&reg, "nope");
    assert!(missing.is_none());
}

#[test]
fn test_get_all_processes() {
    let mut reg = Registry::new();
    insert_process(&mut reg, &make_entry("id-1", "a")).unwrap();
    insert_process(&mut reg, &make_entry("id-2", "b")).unwrap();

    let all = get_all_processes(&reg);
    assert_eq!(all.len(), 2);
}

#[test]
fn test_get_all_processes_ordered_by_created_at() {
    let mut reg = Registry::new();
    let mut late = make_entry("id-late", "late");
    late.created_at = 3000;
    let mut early = make_entry("id-early", "early");
    early.created_at = 1000;
    insert_process(&mut reg, &late).unwrap();
    insert_process(&mut reg, &early).unwrap();

    let all = get_all_processes(&reg);
    assert_eq!(all[0].id, "id-early");
    assert_eq!(all[1].id, "id-late");
}

#[test]
fn test_delete_process() {
    let mut reg = Registry::new();
    let entry = make_entry("id-doomed", "doomed");
    insert_process(&mut reg, &entry).unwrap();

    delete_process(&mut reg, "id-doomed").unwrap();
    let found = get_process_by_id(&reg, "id-doomed");
    assert!(found.is_none());
}

#[test]
fn test_delete_missing_process_is_noop() {
    let mut reg = Registry::new();
    insert_process(&mut reg, &make_entry("id-keep", "keep")).unwrap();
    delete_process(&mut reg, "no-such-id").unwrap();
    assert_eq!(get_all_processes(&reg).len(), 1);
}

#[test]
fn test_set_exit_code() {
    let mut reg = Registry::new();
    let entry = make_entry("id-exiting", "exiting");
    insert_process(&mut reg, &entry).unwrap();

    set_exit_code(&mut reg, "id-exiting", 42, 2000).unwrap();

    let found = get_process_by_id(&reg, "id-exiting").unwrap();
    assert_eq!(found.exit_code, Some(42));
    assert_eq!(found.updated_at, 2000);
    assert_eq!(found.status(), Status::Exited);
}

#[test]
fn test_set_exit_code_missing_id_is_noop() {
    let mut reg = Registry::new();
    insert_process(&mut reg, &make_entry("id-x", "x")).unwrap();
    set_exit_code(&mut reg, "no-such-id", 1, 2000).unwrap();
    assert_eq!(get_process_by_id(&reg, "id-x").unwrap().exit_code, None);
}

#[test]
fn test_insert_duplicate_id_is_rejected() {
    let mut reg = Registry::new();
    insert_process(&mut reg, &make_entry("id-dup", "a")).unwrap();
    let second = insert_process(&mut reg, &make_entry("id-dup", "b"));
    assert!(matches!(second, Err(wortex::error::Error::Database(_))));
    assert_eq!(get_all_processes(&reg).len(), 1);
}

#[test]
fn test_roundtrip_command_types() {
    let mut reg = Registry::new();

    let mut assisted_entry = make_entry("id-assist", "assist-test");
    assisted_entry.command = Command::Claude {
        prompt: "build it".to_string(),
        agent: Some("worker".to_string()),
    };
    insert_process(&mut reg, &assisted_entry).unwrap();

    let found = get_process_by_id(&reg, "id-assist").unwrap();
    match &found.command {
        Command::Claude { prompt, agent } => {
            assert_eq!(prompt, "build it");
            assert_eq!(agent.as_deref(), Some("worker"));
        }
        _ => panic!("expected assisted command"),
    }

    let mut raw_entry = make_entry("id-raw", "raw-test");
    raw_entry.command = Command::Raw {
        cmd: "npm test".to_string(),
    };
    insert_process(&mut reg, &raw_entry).unwrap();

    let found = get_process_by_id(&reg, "id-raw").unwrap();
    match &found.command {
        Command::Raw { cmd } => assert_eq!(cmd, "npm test"),
        _ => panic!("expected Raw command"),
    }
}

#[test]
fn test_roundtrip_exit_kill() {
    let mut reg = Registry::new();

    let mut entry = make_entry("id-ek", "ek-codes");
    entry.exit_kill = Some(ExitKill::Codes(vec![0, 1]));
    insert_process(&mut reg, &entry).unwrap();

    let found = get_process_by_id(&reg, "id-ek").unwrap();
    match &found.exit_kill {
        Some(ExitKill::Codes(codes)) => assert_eq!(codes, &[0, 1]),
        _ => panic!("expected Codes"),
    }

    let mut entry2 = make_entry("id-ek-any", "ek-any");
    entry2.exit_kill = Some(ExitKill::Any);
    insert_process(&mut reg, &entry2).unwrap();

    let found2 = get_process_by_id(&reg, "id-ek-any").unwrap();
    assert!(matches!(found2.exit_kill, Some(ExitKill::Any)));
}

#[test]
fn test_written_entry_reads_back_structurally_equal() {
    // A full write/read round trip compares equal field for field.
    let mut reg = Registry::new();
    let mut entry = make_entry("id-rt", "rt");
    entry.command = Command::Claude {
        prompt: "x".to_string(),
        agent: Some("a".to_string()),
    };
    entry.exit_kill = Some(ExitKill::Codes(vec![0, 1]));
    insert_process(&mut reg, &entry).unwrap();

    let found = get_process_by_id(&reg, "id-rt").unwrap();
    assert_eq!(found, entry);
}

#[test]
fn test_insert_and_get_tool_call() {
    let mut reg = Registry::new();
    let entry = make_entry("id-tc", "tc-test");
    insert_process(&mut reg, &entry).unwrap();

    insert_tool_call(&mut reg, "id-tc", "pre", "Read", r#"{"path":"/test"}"#, 5000).unwrap();

    let calls = get_tool_calls_by_process(&reg, "id-tc");
    assert_eq!(calls.len(), 1);
    assert_eq!(calls[0].process_id, "id-tc");
    assert_eq!(calls[0].hook_type, "pre");
    assert_eq!(calls[0].tool_name, "Read");
    assert_eq!(calls[0].sequence, 1);
}

#[test]
fn test_tool_call_sequence_increments() {
    let mut reg = Registry::new();
    let entry = make_entry("id-seq", "seq-test");
    insert_process(&mut reg, &entry).unwrap();

    insert_tool_call(&mut reg, "id-seq", "pre", "Read", "{}", 5000).unwrap();
    insert_tool_call(&mut reg, "id-seq", "post", "Read", "{}", 5001).unwrap();
    insert_tool_call(&mut reg, "id-seq", "pre", "Write", "{}", 5002).unwrap();

    let calls = get_tool_calls_by_process(&reg, "id-seq");
    assert_eq!(calls.len(), 3);
    assert_eq!(calls[0].sequence, 1);
    assert_eq!(calls[1].sequence, 2);
    assert_eq!(calls[2].sequence, 3);
}

#[test]
fn test_tool_calls_isolated_by_process() {
    let mut reg = Registry::new();
    let e1 = make_entry("id-iso-a", "iso-a");
    let e2 = make_entry("id-iso-b", "iso-b");
    insert_process(&mut reg, &e1).unwrap();
    insert_process(&mut reg, &e2).unwrap();

    insert_tool_call(&mut reg, "id-iso-a", "pre", "Read", "{}", 5000).unwrap();
    insert_tool_call(&mut reg, "id-iso-a", "pre", "Write", "{}", 5001).unwrap();
    insert_tool_call(&mut reg, "id-iso-b", "pre", "Bash", "{}", 5002).unwrap();

    let c1 = get_tool_calls_by_process(&reg, "id-iso-a");
    let c2 = get_tool_calls_by_process(&reg, "id-iso-b");
    assert_eq!(c1.len(), 2);
    assert_eq!(c2.len(), 1);
    assert_eq!(c2[0].tool_name, "Bash");
    // Sequences are independent per process
    assert_eq!(c2[0].sequence, 1);
}

#[test]
fn test_get_all_tool_calls() {
    let mut reg = Registry::new();
    let e1 = make_entry("id-all-a", "all-a");
    let e2 = make_entry("id-all-b", "all-b");
    insert_process(&mut reg, &e1).unwrap();
    insert_process(&mut reg, &e2).unwrap();

    insert_tool_call(&mut reg, "id-all-a", "pre", "Read", "{}", 5000).unwrap();
    insert_tool_call(&mut reg, "id-all-b", "pre", "Write", "{}", 5001).unwrap();

    let all = get_all_tool_calls(&reg);
    assert_eq!(all.len(), 2);
}

#[test]
fn test_get_all_tool_calls_most_recent_first() {
    let mut reg = Registry::new();
    insert_process(&mut reg, &make_entry("id-ts", "ts")).unwrap();

    insert_tool_call(&mut reg, "id-ts", "pre", "Old", "{}", 1000).unwrap();
    insert_tool_call(&mut reg, "id-ts", "pre", "New", "{}", 3000).unwrap();
    insert_tool_call(&mut reg, "id-ts", "pre", "Mid", "{}", 2000).unwrap();

    let all = get_all_tool_calls(&reg);
    assert_eq!(all[0].tool_name, "New");
    assert_eq!(all[1].tool_name, "Mid");
    assert_eq!(all[2].tool_name, "Old");
}

#[test]
fn test_delete_process_cascades_tool_calls() {
    let mut reg = Registry::new();
    let entry = make_entry("id-cascade", "cascade");
    insert_process(&mut reg, &entry).unwrap();
    insert_tool_call(&mut reg, "id-cascade", "pre", "Read", "{}", 5000).unwrap();
    insert_tool_call(&mut reg, "id-cascade", "post", "Read", "{}", 5001).unwrap();

    delete_process(&mut reg, "id-cascade").unwrap();

    let calls = get_tool_calls_by_process(&reg, "id-cascade");
    assert!(calls.is_empty());
}

#[test]
fn test_tool_call_preserves_json_input() {
    let mut reg = Registry::new();
    let entry = make_entry("id-json", "json-test");
    insert_process(&mut reg, &entry).unwrap();

    let complex = r#"{"command":"ls -la","timeout":5000,"nested":{"key":"value"}}"#;
    insert_tool_call(&mut reg, "id-json", "pre", "Bash", complex, 5000).unwrap();

    let calls = get_tool_calls_by_process(&reg, "id-json");
    assert_eq!(calls[0].tool_input, complex);
}

#[test]
fn test_tool_call_for_unknown_process_is_rejected() {
    let mut reg = Registry::new();
    let r = insert_tool_call(&mut reg, "no-such-id", "pre", "Read", "{}", 5000);
    assert!(matches!(r, Err(wortex::error::Error::Database(_))));
    assert!(get_all_tool_calls(&reg).is_empty());
}

#[test]
fn test_record_termination_kills_on_match() {
    let mut reg = Registry::new();
    let mut entry = make_entry("id-kill", "kill");
    entry.exit_kill = Some(ExitKill::Codes(vec![0]));
    insert_process(&mut reg, &entry).unwrap();
    insert_tool_call(&mut reg, "id-kill", "pre", "Read", "{}", 5000).unwrap();

    let killed = record_termination(&mut reg, "id-kill", 0, 6000).unwrap();
    assert!(killed);
    assert!(get_process_by_id(&reg, "id-kill").is_none());
    assert!(get_tool_calls_by_process(&reg, "id-kill").is_empty());
}

#[test]
fn test_record_termination_keeps_entry_without_match() {
    let mut reg = Registry::new();
    let mut entry = make_entry("id-stay", "stay");
    entry.exit_kill = Some(ExitKill::Codes(vec![0]));
    insert_process(&mut reg, &entry).unwrap();

    let killed = record_termination(&mut reg, "id-stay", 3, 6000).unwrap();
    assert!(!killed);
    let found = get_process_by_id(&reg, "id-stay").unwrap();
    assert_eq!(found.exit_code, Some(3));
    assert_eq!(found.status(), Status::Exited);
}

#[test]
fn test_record_termination_without_policy_never_kills() {
    let mut reg = Registry::new();
    insert_process(&mut reg, &make_entry("id-nopol", "nopol")).unwrap();
    let killed = record_termination(&mut reg, "id-nopol", 0, 6000).unwrap();
    assert!(!killed);
    assert!(get_process_by_id(&reg, "id-nopol").is_some());
}

#[test]
fn test_record_termination_unknown_entry_fails() {
    let mut reg = Registry::new();
    let r = record_termination(&mut reg, "ghost", 0, 6000);
    assert!(matches!(r, Err(wortex::error::Error::EntryNotFound(_))));
}

#[test]
fn test_get_all_processes_keeps_stored_order_on_equal_times() {
    let mut reg = Registry::new();
    let mut a = make_entry("id-tie-a", "tie-a");
    a.created_at = 2000;
    let mut b = make_entry("id-tie-b", "tie-b");
    b.created_at = 2000;
    insert_process(&mut reg, &a).unwrap();
    insert_process(&mut reg, &b).unwrap();

    let all = get_all_processes(&reg);
    assert_eq!(all[0].id, "id-tie-a");
    assert_eq!(all[1].id, "id-tie-b");
}

#[test]
fn test_get_all_tool_calls_keeps_log_order_on_equal_times() {
    let mut reg = Registry::new();
    insert_process(&mut reg, &make_entry("id-tie", "tie")).unwrap();
    insert_tool_call(&mut reg, "id-tie", "pre", "First", "{}", 7000).unwrap();
    insert_tool_call(&mut reg, "id-tie", "pre", "Second", "{}", 7000).unwrap();

    let all = get_all_tool_calls(&reg);
    assert_eq!(all[0].tool_name, "First");
    assert_eq!(all[1].tool_name, "Second");
}
