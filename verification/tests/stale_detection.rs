use wortex::entity::{Command, Entry};
use wortex::stale::find_stale_entries;

fn make_entry(id: &str, branch: &str) -> Entry {
    Entry {
        id: id.to_string(),
        project: "test".to_string(),
        branch: branch.to_string(),
        path: "/tmp/test".to_string(),
        tmux_session: "0".to_string(),
        tmux_window: branch.to_string(),
        command: Command::Raw {
            cmd: "echo test".to_string(),
        },
        exit_kill: None,
        exit_code: None,
        created_at: 0,
        updated_at: 0,
    }
}

#[test]
fn test_no_stale_entries_when_all_valid() {
    let entries = vec![
        make_entry("id1", "feature-a"),
        make_entry("id2", "feature-b"),
    ];
    let stale = find_stale_entries(&entries, &vec![true, true], &vec![true, true]);
    assert!(stale.is_empty());
}

#[test]
fn test_stale_when_path_missing() {
    let entries = vec![make_entry("id1", "feature-a")];
    let stale = find_stale_entries(&entries, &vec![false], &vec![true]);
    assert_eq!(stale.len(), 1);
    assert_eq!(stale[0].id, "id1");
    assert!(stale[0].reasons.contains(&"worktree missing".to_string()));
}

#[test]
fn test_stale_when_window_missing() {
    let entries = vec![make_entry("id1", "feature-a")];
    let stale = find_stale_entries(&entries, &vec![true], &vec![false]);
    assert_eq!(stale.len(), 1);
    assert_eq!(stale[0].id, "id1");
    assert!(stale[0].reasons.contains(&"window missing".to_string()));
}

#[test]
fn test_stale_when_both_missing() {
    let entries = vec![make_entry("id1", "feature-a")];
    let stale = find_stale_entries(&entries, &vec![false], &vec![false]);
    assert_eq!(stale.len(), 1);
    assert_eq!(stale[0].reasons.len(), 2);
    assert!(stale[0].reasons.contains(&"worktree missing".to_string()));
    assert!(stale[0].reasons.contains(&"window missing".to_string()));
}

#[test]
fn test_duplicate_branch_marks_second_as_stale() {
    let entries = vec![
        make_entry("id1", "feature-a"),
        make_entry("id2", "feature-a"), // duplicate
    ];
    let stale = find_stale_entries(&entries, &vec![true, true], &vec![true, true]);
    assert_eq!(stale.len(), 1);
    assert_eq!(stale[0].id, "id2"); // second one is stale
    assert!(stale[0].reasons.contains(&"duplicate branch".to_string()));
}

#[test]
fn test_first_valid_duplicate_with_missing_path_still_kept() {
    // First entry has valid path/window, second is duplicate
    // Only the second should be marked stale (as duplicate)
    let entries = vec![
        make_entry("id1", "feature-a"),
        make_entry("id2", "feature-a"),
    ];
    let stale = find_stale_entries(&entries, &vec![true, true], &vec![true, true]);
    assert_eq!(stale.len(), 1);
    assert_eq!(stale[0].id, "id2");
}

#[test]
fn test_orphaned_first_entry_and_valid_second_both_issues() {
    // First entry: window missing (orphaned from failed creation)
    // Second entry: duplicate branch but otherwise valid
    let entries = vec![
        make_entry("id1", "feature-a"),
        make_entry("id2", "feature-a"),
    ];
    // First entry has no window, second has window
    let stale = find_stale_entries(&entries, &vec![true, true], &vec![false, true]);
    assert_eq!(stale.len(), 2);
    // First is stale due to window missing
    assert_eq!(stale[0].id, "id1");
    assert!(stale[0].reasons.contains(&"window missing".to_string()));
    // Second is stale due to duplicate
    assert_eq!(stale[1].id, "id2");
    assert!(stale[1].reasons.contains(&"duplicate branch".to_string()));
}

#[test]
fn test_valid_entry_not_marked_stale() {
    let entries = vec![
        make_entry("id1", "feature-a"),
        make_entry("id2", "feature-b"), // this one is valid
        make_entry("id3", "feature-c"),
    ];
    // Only the second entry has a valid path and window
    let stale = find_stale_entries(
        &entries,
        &vec![false, true, false],
        &vec![false, true, false],
    );
    assert_eq!(stale.len(), 2);
    assert!(stale.iter().all(|s| s.id != "id2")); // id2 should NOT be in stale list
}

#[test]
fn test_mixed_scenario() {
    let entries = vec![
        make_entry("id1", "feature-a"), // valid
        make_entry("id2", "feature-b"), // path missing
        make_entry("id3", "feature-a"), // duplicate of id1
        make_entry("id4", "feature-c"), // valid
    ];
    let stale = find_stale_entries(
        &entries,
        &vec![true, false, true, true], // id2 has missing path
        &vec![true, true, true, true],
    );
    assert_eq!(stale.len(), 2);
    let stale_ids: Vec<String> = stale.iter().map(|s| s.id.clone()).collect();
    assert!(stale_ids.contains(&"id2".to_string())); // path missing
    assert!(stale_ids.contains(&"id3".to_string())); // duplicate
    assert!(!stale_ids.contains(&"id1".to_string())); // valid
    assert!(!stale_ids.contains(&"id4".to_string())); // valid
}

#[test]
fn test_two_same_branch_entries_flag_only_second_end_to_end() {
    // Two entries under branch "feature-a", inserted in order; with
    // always-true existence facts only the second is flagged, with the
    // single reason "duplicate branch".
    let entries = vec![
        make_entry("id1", "feature-a"),
        make_entry("id2", "feature-a"),
    ];
    let stale = find_stale_entries(&entries, &vec![true, true], &vec![true, true]);
    assert_eq!(stale.len(), 1);
    assert_eq!(stale[0].id, "id2");
    assert_eq!(stale[0].branch, "feature-a");
    assert_eq!(stale[0].reasons, vec!["duplicate branch".to_string()]);
}

#[test]
fn test_reasons_appear_in_fixed_order() {
    let entries = vec![
        make_entry("id1", "feature-a"),
        make_entry("id2", "feature-a"),
    ];
    let stale = find_stale_entries(&entries, &vec![true, false], &vec![true, false]);
    assert_eq!(stale.len(), 1);
    assert_eq!(
        stale[0].reasons,
        vec![
            "worktree missing".to_string(),
            "window missing".to_string(),
            "duplicate branch".to_string()
        ]
    );
}

#[test]
fn test_empty_snapshot_yields_no_stale_entries() {
    let entries: Vec<Entry> = Vec::new();
    let stale = find_stale_entries(&entries, &Vec::new(), &Vec::new());
    assert!(stale.is_empty());
}
