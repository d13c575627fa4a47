//! The one-time migration of the legacy on-disk layout into the
//! current schema. The caller parses the legacy artifacts (a flat
//! entry list, and a tool-call log keyed by `session_id` with no
//! sequence column) into the plain records below and performs the file
//! renames; the transform itself is here, and it is idempotent: it
//! only runs against a store that holds no entries yet, so a second
//! run after any successful migration is a safe no-op.

use vstd::prelude::*;
use crate::entity::{Command, Entry, EntryV, ExitKill, ToolCallV};
use crate::registry::{
    calls_for, contains_id, contains_process, insert_process, insert_tool_call, Registry,
};

verus! {

/// One entry of the legacy flat list.
#[derive(Debug, PartialEq)]
pub struct LegacyEntry {
    pub id: String,
    pub project: String,
    pub branch: String,
    pub path: String,
    pub tmux_session: String,
    pub tmux_window: String,
    pub command: Command,
    pub exit_kill: Option<ExitKill>,
    pub exit_code: Option<i32>,
    pub created_at: i64,
}

/// Mathematical view of a `LegacyEntry`.
#[verifier::ext_equal]
pub ghost struct LegacyEntryV {
    pub id: Seq<char>,
    pub project: Seq<char>,
    pub branch: Seq<char>,
    pub path: Seq<char>,
    pub tmux_session: Seq<char>,
    pub tmux_window: Seq<char>,
    pub command: crate::entity::CommandV,
    pub exit_kill: Option<crate::entity::ExitKillV>,
    pub exit_code: Option<i32>,
    pub created_at: i64,
}

impl View for LegacyEntry {
    type V = LegacyEntryV;

    open spec fn view(&self) -> LegacyEntryV {
        LegacyEntryV {
            id: self.id@,
            project: self.project@,
            branch: self.branch@,
            path: self.path@,
            tmux_session: self.tmux_session@,
            tmux_window: self.tmux_window@,
            command: self.command@,
            exit_kill: self.exit_kill.deep_view(),
            exit_code: self.exit_code,
            created_at: self.created_at,
        }
    }
}

impl DeepView for LegacyEntry {
    type V = LegacyEntryV;

    open spec fn deep_view(&self) -> LegacyEntryV {
        self.view()
    }
}

/// One record of the legacy tool-call log. It references its entry as
/// `session_id` and carries no sequence number; migration assigns a
/// fresh per-entry sequence in the log's original order.
#[derive(Debug, PartialEq)]
pub struct LegacyToolCall {
    pub session_id: String,
    pub hook_type: String,
    pub tool_name: String,
    pub input: String,
    pub timestamp: i64,
}

/// Mathematical view of a `LegacyToolCall`.
#[verifier::ext_equal]
pub ghost struct LegacyToolCallV {
    pub session_id: Seq<char>,
    pub hook_type: Seq<char>,
    pub tool_name: Seq<char>,
    pub input: Seq<char>,
    pub timestamp: i64,
}

impl View for LegacyToolCall {
    type V = LegacyToolCallV;

    open spec fn view(&self) -> LegacyToolCallV {
        LegacyToolCallV {
            session_id: self.session_id@,
            hook_type: self.hook_type@,
            tool_name: self.tool_name@,
            input: self.input@,
            timestamp: self.timestamp,
        }
    }
}

impl DeepView for LegacyToolCall {
    type V = LegacyToolCallV;

    open spec fn deep_view(&self) -> LegacyToolCallV {
        self.view()
    }
}

/// The current-schema entry a legacy entry becomes: identity and
/// creation time are preserved, `updated_at` is stamped with the
/// migration time, and the lifecycle stage follows from whether a
/// legacy exit code is present.
pub open spec fn entry_of_legacy(l: LegacyEntryV, now: i64) -> EntryV {
    EntryV {
        id: l.id,
        project: l.project,
        branch: l.branch,
        path: l.path,
        tmux_session: l.tmux_session,
        tmux_window: l.tmux_window,
        command: l.command,
        exit_kill: l.exit_kill,
        exit_code: l.exit_code,
        created_at: l.created_at,
        updated_at: now,
    }
}

/// Entry migration: each legacy entry is inserted unless an entry with
/// its identifier is already present ("insert if absent" keyed by id,
/// so a partially migrated run cannot produce duplicates on retry).
pub open spec fn spec_migrate_entries(
    procs: Seq<EntryV>,
    legacy: Seq<LegacyEntryV>,
    now: i64,
) -> Seq<EntryV>
    decreases legacy.len(),
{
    if legacy.len() == 0 {
        procs
    } else {
        let rest = spec_migrate_entries(procs, legacy.drop_last(), now);
        if contains_id(rest, legacy.last().id) {
            rest
        } else {
            rest.push(entry_of_legacy(legacy.last(), now))
        }
    }
}

/// Tool-call migration: a record whose `session_id` matches no entry is
/// silently dropped (referential-integrity filter); a surviving record
/// is appended with a fresh per-entry sequence, in the log's original
/// order.
pub open spec fn spec_migrate_calls(
    calls: Seq<ToolCallV>,
    next_id: int,
    procs: Seq<EntryV>,
    legacy: Seq<LegacyToolCallV>,
) -> (Seq<ToolCallV>, int)
    decreases legacy.len(),
{
    if legacy.len() == 0 {
        (calls, next_id)
    } else {
        let (c1, n1) = spec_migrate_calls(calls, next_id, procs, legacy.drop_last());
        let l = legacy.last();
        if contains_id(procs, l.session_id) {
            (
                c1.push(
                    ToolCallV {
                        id: n1 as i64,
                        process_id: l.session_id,
                        hook_type: l.hook_type,
                        tool_name: l.tool_name,
                        tool_input: l.input,
                        timestamp: l.timestamp,
                        sequence: (calls_for(c1, l.session_id).len() + 1) as i64,
                    },
                ),
                n1 + 1,
            )
        } else {
            (c1, n1)
        }
    }
}

/// What one whole migration pass does to the store: nothing unless a
/// legacy artifact is present and the store holds no entries yet;
/// otherwise the entry migration followed by the tool-call migration.
pub open spec fn spec_migrate(
    procs: Seq<EntryV>,
    calls: Seq<ToolCallV>,
    next_id: int,
    has_state: bool,
    has_tools: bool,
    legacy_entries: Seq<LegacyEntryV>,
    legacy_calls: Seq<LegacyToolCallV>,
    now: i64,
) -> (Seq<EntryV>, Seq<ToolCallV>, int) {
    if !(has_state || has_tools) || procs.len() > 0 {
        (procs, calls, next_id)
    } else {
        let p1 = spec_migrate_entries(
            procs,
            if has_state {
                legacy_entries
            } else {
                Seq::empty()
            },
            now,
        );
        let (c1, n1) = spec_migrate_calls(
            calls,
            next_id,
            p1,
            if has_tools {
                legacy_calls
            } else {
                Seq::empty()
            },
        );
        (p1, c1, n1)
    }
}

/// Replays the legacy entry list into the store, inserting each entry
/// unless its identifier is already present.
pub fn migrate_entries(reg: &mut Registry, legacy: &Vec<LegacyEntry>, now: i64)
    requires
        old(reg).wf(),
    ensures
        final(reg).wf(),
        final(reg).procs() == spec_migrate_entries(old(reg).procs(), legacy.deep_view(), now),
        final(reg).calls() == old(reg).calls(),
        final(reg).next_tool_call_id == old(reg).next_tool_call_id,
{
    let ghost lv = legacy.deep_view();
    let n = legacy.len();
    let mut i: usize = 0;
    proof {
        assert(lv.take(0) =~= Seq::<LegacyEntryV>::empty());
    }
    while i < n
        invariant
            i <= n,
            n == legacy@.len(),
            lv == legacy.deep_view(),
            reg.wf(),
            reg.procs() == spec_migrate_entries(old(reg).procs(), lv.take(i as int), now),
            reg.calls() == old(reg).calls(),
            reg.next_tool_call_id == old(reg).next_tool_call_id,
        decreases n - i,
    {
        let l = &legacy[i];
        if !contains_process(reg, l.id.as_str()) {
            let e = Entry {
                id: l.id.clone(),
                project: l.project.clone(),
                branch: l.branch.clone(),
                path: l.path.clone(),
                tmux_session: l.tmux_session.clone(),
                tmux_window: l.tmux_window.clone(),
                command: l.command.clone(),
                exit_kill: match &l.exit_kill {
                    Some(ek) => Some(ek.clone()),
                    None => None,
                },
                exit_code: l.exit_code,
                created_at: l.created_at,
                updated_at: now,
            };
            proof {
                assert(e@ =~= entry_of_legacy(lv[i as int], now));
            }
            let inserted = insert_process(reg, &e);
            proof {
                assert(inserted is Ok);
            }
        }
        proof {
            assert(lv.take(i + 1).drop_last() =~= lv.take(i as int));
            assert(lv.take(i + 1).last() == lv[i as int]);
            assert(spec_migrate_entries(old(reg).procs(), lv.take(i + 1), now) == {
                let rest = spec_migrate_entries(old(reg).procs(), lv.take(i as int), now);
                if contains_id(rest, lv[i as int].id) {
                    rest
                } else {
                    rest.push(entry_of_legacy(lv[i as int], now))
                }
            });
        }
        i = i + 1;
    }
    proof {
        assert(lv.take(n as int) =~= lv);
    }
}

/// Replays the legacy tool-call log into the store, dropping orphaned
/// records and numbering the survivors per entry in log order.
pub fn migrate_tool_calls(reg: &mut Registry, legacy: &Vec<LegacyToolCall>)
    requires
        old(reg).wf(),
        old(reg).tool_calls@.len() + legacy@.len() < i64::MAX,
        old(reg).next_tool_call_id + legacy@.len() < i64::MAX,
    ensures
        final(reg).wf(),
        final(reg).procs() == old(reg).procs(),
        ({
            let (c1, n1) = spec_migrate_calls(
                old(reg).calls(),
                old(reg).next_tool_call_id as int,
                old(reg).procs(),
                legacy.deep_view(),
            );
            final(reg).calls() == c1 && final(reg).next_tool_call_id == n1
        }),
{
    let ghost lv = legacy.deep_view();
    let n = legacy.len();
    let mut i: usize = 0;
    proof {
        assert(lv.take(0) =~= Seq::<LegacyToolCallV>::empty());
    }
    while i < n
        invariant
            i <= n,
            n == legacy@.len(),
            lv == legacy.deep_view(),
            reg.wf(),
            reg.procs() == old(reg).procs(),
            reg.tool_calls@.len() <= old(reg).tool_calls@.len() + i,
            reg.next_tool_call_id <= old(reg).next_tool_call_id + i,
            old(reg).tool_calls@.len() + n < i64::MAX,
            old(reg).next_tool_call_id + n < i64::MAX,
            ({
                let (c1, n1) = spec_migrate_calls(
                    old(reg).calls(),
                    old(reg).next_tool_call_id as int,
                    old(reg).procs(),
                    lv.take(i as int),
                );
                reg.calls() == c1 && reg.next_tool_call_id == n1
            }),
        decreases n - i,
    {
        let l = &legacy[i];
        if contains_process(reg, l.session_id.as_str()) {
            let inserted = insert_tool_call(
                reg,
                l.session_id.as_str(),
                l.hook_type.as_str(),
                l.tool_name.as_str(),
                l.input.as_str(),
                l.timestamp,
            );
            proof {
                assert(inserted is Ok);
            }
        }
        proof {
            assert(lv.take(i + 1).drop_last() =~= lv.take(i as int));
            assert(lv.take(i + 1).last() == lv[i as int]);
        }
        i = i + 1;
    }
    proof {
        assert(lv.take(n as int) =~= lv);
    }
}

/// One guarded migration pass, run lazily on store access: it triggers
/// only when a legacy artifact is present on disk (the caller reports
/// which exist) and the store holds no entries yet — the row-count
/// check that makes a repeated run a safe no-op. Returns whether the
/// pass migrated, in which case the caller renames the legacy
/// artifacts to their backup names and removes the obsolete lock file.
pub fn migrate_if_needed(
    reg: &mut Registry,
    has_state: bool,
    has_tools: bool,
    legacy_entries: &Vec<LegacyEntry>,
    legacy_calls: &Vec<LegacyToolCall>,
    now: i64,
) -> (migrated: bool)
    requires
        old(reg).wf(),
        old(reg).tool_calls@.len() + legacy_calls@.len() < i64::MAX,
        old(reg).next_tool_call_id + legacy_calls@.len() < i64::MAX,
    ensures
        final(reg).wf(),
        migrated == ((has_state || has_tools) && old(reg).procs().len() == 0),
        ({
            let (p1, c1, n1) = spec_migrate(
                old(reg).procs(),
                old(reg).calls(),
                old(reg).next_tool_call_id as int,
                has_state,
                has_tools,
                legacy_entries.deep_view(),
                legacy_calls.deep_view(),
                now,
            );
            &&& final(reg).procs() == p1
            &&& final(reg).calls() == c1
            &&& final(reg).next_tool_call_id == n1
        }),
{
    if !has_state && !has_tools {
        return false;
    }
    if reg.processes.len() > 0 {
        return false;
    }
    let empty_entries: Vec<LegacyEntry> = Vec::new();
    let empty_calls: Vec<LegacyToolCall> = Vec::new();
    proof {
        assert(empty_entries.deep_view() =~= Seq::<LegacyEntryV>::empty());
        assert(empty_calls.deep_view() =~= Seq::<LegacyToolCallV>::empty());
    }
    if has_state {
        migrate_entries(reg, legacy_entries, now);
    } else {
        migrate_entries(reg, &empty_entries, now);
    }
    if has_tools {
        migrate_tool_calls(reg, legacy_calls);
    } else {
        migrate_tool_calls(reg, &empty_calls);
    }
    true
}

/// Entry migration only grows the table, and migrates something
/// whenever the store was empty and the legacy list is not.
pub proof fn lemma_migrate_entries_len(procs: Seq<EntryV>, legacy: Seq<LegacyEntryV>, now: i64)
    ensures
        spec_migrate_entries(procs, legacy, now).len() >= procs.len(),
        procs.len() == 0 && legacy.len() > 0 ==> spec_migrate_entries(procs, legacy, now).len()
            > 0,
    decreases legacy.len(),
{
    if legacy.len() == 0 {
    } else {
        lemma_migrate_entries_len(procs, legacy.drop_last(), now);
    }
}

/// With no entries to reference, tool-call migration drops everything.
pub proof fn lemma_migrate_calls_no_procs(
    calls: Seq<ToolCallV>,
    next_id: int,
    procs: Seq<EntryV>,
    legacy: Seq<LegacyToolCallV>,
)
    requires
        procs.len() == 0,
    ensures
        spec_migrate_calls(calls, next_id, procs, legacy) == (calls, next_id),
    decreases legacy.len(),
{
    if legacy.len() == 0 {
    } else {
        lemma_migrate_calls_no_procs(calls, next_id, procs, legacy.drop_last());
    }
}

/// Running the migration pass twice in succession, with no new legacy
/// changes in between, leaves the store exactly as the first run left
/// it: the first run either migrated (after which the entry count is
/// nonzero, or nothing at all could reference the store) or was
/// already a no-op.
pub proof fn lemma_migration_idempotent(
    procs: Seq<EntryV>,
    calls: Seq<ToolCallV>,
    next_id: int,
    has_state: bool,
    has_tools: bool,
    legacy_entries: Seq<LegacyEntryV>,
    legacy_calls: Seq<LegacyToolCallV>,
    now1: i64,
    now2: i64,
)
    ensures
        ({
            let (p1, c1, n1) = spec_migrate(
                procs,
                calls,
                next_id,
                has_state,
                has_tools,
                legacy_entries,
                legacy_calls,
                now1,
            );
            spec_migrate(p1, c1, n1, has_state, has_tools, legacy_entries, legacy_calls, now2)
                == (p1, c1, n1)
        }),
{
    let le = if has_state {
        legacy_entries
    } else {
        Seq::<LegacyEntryV>::empty()
    };
    let lc = if has_tools {
        legacy_calls
    } else {
        Seq::<LegacyToolCallV>::empty()
    };
    if !(has_state || has_tools) || procs.len() > 0 {
        // first pass is a no-op, so the second sees the same store
    } else {
        let p1 = spec_migrate_entries(procs, le, now1);
        lemma_migrate_entries_len(procs, le, now1);
        if p1.len() > 0 {
            // the row-count guard stops the second pass
        } else {
            // nothing was migrated: the store was empty and stays so
            assert(le.len() == 0);
            lemma_migrate_calls_no_procs(calls, next_id, p1, lc);
            lemma_migrate_calls_no_procs(calls, next_id, p1, lc);
            assert(spec_migrate_entries(p1, le, now2) == p1);
        }
    }
}

} // verus!
