use wortex::entity::{Command, Status};
use wortex::migrate::{
    migrate_entries, migrate_if_needed, migrate_tool_calls, LegacyEntry, LegacyToolCall,
};
use wortex::registry::{
    get_all_processes, get_all_tool_calls, get_tool_calls_by_process, insert_process, Registry,
};

fn legacy_entry(id: &str, branch: &str) -> LegacyEntry {
    LegacyEntry {
        id: id.to_string(),
        project: "tp".to_string(),
        branch: branch.to_string(),
        path: format!("/tmp/tp-{}", branch),
        tmux_session: "dev".to_string(),
        tmux_window: branch.to_string(),
        command: Command::Claude {
            prompt: "do work".to_string(),
            agent: None,
        },
        exit_kill: None,
        exit_code: None,
        created_at: 1000,
    }
}

fn legacy_call(session_id: &str, tool_name: &str, timestamp: i64) -> LegacyToolCall {
    LegacyToolCall {
        session_id: session_id.to_string(),
        hook_type: "pre".to_string(),
        tool_name: tool_name.to_string(),
        input: r#"{"path":"/test"}"#.to_string(),
        timestamp,
    }
}

#[test]
fn test_migrate_state_json() {
    let mut reg = Registry::new();
    let legacy = vec![legacy_entry("550e8400-e29b-41d4-a716-446655440000", "feat-x")];

    migrate_entries(&mut reg, &legacy, 2000);

    let entries = get_all_processes(&reg);
    assert_eq!(entries.len(), 1);
    assert_eq!(entries[0].branch, "feat-x");
    assert_eq!(entries[0].id, "550e8400-e29b-41d4-a716-446655440000");
}

#[test]
fn test_migrate_tools_db() {
    let mut reg = Registry::new();

    // First insert a process so the reference is satisfied
    migrate_entries(
        &mut reg,
        &vec![legacy_entry("550e8400-e29b-41d4-a716-446655440000", "feat-x")],
        2000,
    );

    let calls = vec![legacy_call("550e8400-e29b-41d4-a716-446655440000", "Read", 1500)];
    migrate_tool_calls(&mut reg, &calls);

    let migrated = get_tool_calls_by_process(&reg, "550e8400-e29b-41d4-a716-446655440000");
    assert_eq!(migrated.len(), 1);
    assert_eq!(migrated[0].tool_name, "Read");
    assert_eq!(migrated[0].sequence, 1);
}

#[test]
fn test_migrate_skips_orphaned_tool_calls() {
    let mut reg = Registry::new();
    // No processes inserted - all tool calls should be skipped

    let calls = vec![legacy_call("no-such-process", "Read", 1500)];
    migrate_tool_calls(&mut reg, &calls);

    let all = get_all_tool_calls(&reg);
    assert!(all.is_empty());
}

#[test]
fn test_migration_derives_status_and_filters_orphans() {
    // A legacy entry with no exit code arrives as a spawned entry; a
    // tool-call record for an unknown id is dropped while one for a
    // migrated id gets sequence 1.
    let mut reg = Registry::new();
    let entries = vec![legacy_entry("id-known", "feat-a")];
    let calls = vec![
        legacy_call("id-unknown", "Ghost", 1400),
        legacy_call("id-known", "Read", 1500),
    ];

    let migrated = migrate_if_needed(&mut reg, true, true, &entries, &calls, 2000);
    assert!(migrated);

    let procs = get_all_processes(&reg);
    assert_eq!(procs.len(), 1);
    assert_eq!(procs[0].exit_code, None);
    assert_eq!(procs[0].status(), Status::Spawned);

    let all_calls = get_all_tool_calls(&reg);
    assert_eq!(all_calls.len(), 1);
    assert_eq!(all_calls[0].process_id, "id-known");
    assert_eq!(all_calls[0].sequence, 1);
}

#[test]
fn test_migration_derives_exited_status_from_exit_code() {
    let mut reg = Registry::new();
    let mut l = legacy_entry("id-exited", "feat-b");
    l.exit_code = Some(1);
    migrate_entries(&mut reg, &vec![l], 2000);

    let procs = get_all_processes(&reg);
    assert_eq!(procs[0].status(), Status::Exited);
    assert_eq!(procs[0].exit_code, Some(1));
}

#[test]
fn test_migration_runs_only_on_empty_store() {
    let mut reg = Registry::new();
    insert_process(
        &mut reg,
        &wortex::entity::Entry {
            id: "id-existing".to_string(),
            project: "tp".to_string(),
            branch: "live".to_string(),
            path: "/tmp/tp-live".to_string(),
            tmux_session: "dev".to_string(),
            tmux_window: "live".to_string(),
            command: Command::Raw {
                cmd: "echo".to_string(),
            },
            exit_kill: None,
            exit_code: None,
            created_at: 1000,
            updated_at: 1000,
        },
    )
    .unwrap();

    let migrated = migrate_if_needed(
        &mut reg,
        true,
        true,
        &vec![legacy_entry("id-legacy", "feat-a")],
        &Vec::new(),
        2000,
    );
    assert!(!migrated);
    assert_eq!(get_all_processes(&reg).len(), 1);
    assert_eq!(get_all_processes(&reg)[0].id, "id-existing");
}

#[test]
fn test_migration_twice_changes_nothing() {
    // A second pass over the same legacy artifacts leaves the entry
    // and tool-call counts exactly as the first pass left them.
    let mut reg = Registry::new();
    let entries = vec![
        legacy_entry("id-1", "feat-a"),
        legacy_entry("id-2", "feat-b"),
    ];
    let calls = vec![
        legacy_call("id-1", "Read", 1400),
        legacy_call("id-2", "Write", 1500),
        legacy_call("id-orphan", "Ghost", 1600),
    ];

    let first = migrate_if_needed(&mut reg, true, true, &entries, &calls, 2000);
    assert!(first);
    let procs_after_first = get_all_processes(&reg).len();
    let calls_after_first = get_all_tool_calls(&reg).len();
    assert_eq!(procs_after_first, 2);
    assert_eq!(calls_after_first, 2);

    let second = migrate_if_needed(&mut reg, true, true, &entries, &calls, 3000);
    assert!(!second);
    assert_eq!(get_all_processes(&reg).len(), procs_after_first);
    assert_eq!(get_all_tool_calls(&reg).len(), calls_after_first);
}

#[test]
fn test_migration_without_artifacts_is_noop() {
    let mut reg = Registry::new();
    let migrated = migrate_if_needed(&mut reg, false, false, &Vec::new(), &Vec::new(), 2000);
    assert!(!migrated);
    assert!(get_all_processes(&reg).is_empty());
}

#[test]
fn test_migration_skips_duplicate_legacy_ids() {
    let mut reg = Registry::new();
    let entries = vec![legacy_entry("id-dup", "feat-a"), legacy_entry("id-dup", "feat-b")];
    migrate_entries(&mut reg, &entries, 2000);
    let procs = get_all_processes(&reg);
    assert_eq!(procs.len(), 1);
    assert_eq!(procs[0].branch, "feat-a");
}
