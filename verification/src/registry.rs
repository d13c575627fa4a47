//! The in-memory registry the store operates on: entries plus their
//! tool-call log, with the well-formedness that the store maintains.
//!
//! Durability is the caller's concern: a caller loads a snapshot, runs
//! the operations here, and writes the result back under its own
//! exclusive lock, so that each read-modify-write span is atomic with
//! respect to concurrent invocations.

use vstd::prelude::*;
use vstd::pervasive::VecAdditionalExecFns;
use vstd::string::StringExecFns;
use crate::entity::{policy_matches, Entry, EntryV, ToolCall, ToolCallV};
use crate::error::Error;
use crate::order::{
    insert_by_created, insert_by_ts_desc, lemma_insert_by_created_at,
    lemma_insert_by_created_sorted, lemma_insert_by_ts_desc_at, lemma_insert_by_ts_desc_sorted,
    sort_by_created, sort_by_ts_desc, sorted_by_created, sorted_by_ts_desc,
};
use crate::trusted::str_eq;

verus! {

/// A snapshot of the whole store: all entries, all tool calls, and the
/// next identifier the tool-call log will hand out.
#[derive(Debug, PartialEq)]
pub struct Registry {
    pub processes: Vec<Entry>,
    pub tool_calls: Vec<ToolCall>,
    pub next_tool_call_id: i64,
}

/// First element satisfying `p`, scanning left to right.
pub open spec fn spec_find(s: Seq<EntryV>, p: spec_fn(EntryV) -> bool) -> Option<EntryV>
    decreases s.len(),
{
    if s.len() == 0 {
        None
    } else if p(s[0]) {
        Some(s[0])
    } else {
        spec_find(s.drop_first(), p)
    }
}

/// Whether some element of `s` carries the identifier `id`.
pub open spec fn contains_id(s: Seq<EntryV>, id: Seq<char>) -> bool {
    exists|i: int| 0 <= i < s.len() && s[i].id == id
}

/// The first entry with identifier `id`, if any.
pub open spec fn spec_find_by_id(s: Seq<EntryV>, id: Seq<char>) -> Option<EntryV> {
    spec_find(s, |e: EntryV| e.id == id)
}

/// The first entry with branch `branch`, if any.
pub open spec fn spec_find_by_branch(s: Seq<EntryV>, branch: Seq<char>) -> Option<EntryV> {
    spec_find(s, |e: EntryV| e.branch == branch)
}

/// No two entries share an identifier.
pub open spec fn unique_ids(s: Seq<EntryV>) -> bool {
    forall|i: int, j: int| 0 <= i < j < s.len() ==> s[i].id != s[j].id
}

/// The tool calls belonging to the entry `pid`, in log order.
pub open spec fn calls_for(calls: Seq<ToolCallV>, pid: Seq<char>) -> Seq<ToolCallV> {
    calls.filter(|c: ToolCallV| c.process_id == pid)
}

/// Each tool call's `sequence` continues its own entry's numbering:
/// one more than the number of earlier calls under the same entry, so
/// that per entry the sequences read 1, 2, 3, ... with no gap and no
/// duplicate.
pub open spec fn seq_wf(calls: Seq<ToolCallV>) -> bool
    decreases calls.len(),
{
    if calls.len() == 0 {
        true
    } else {
        &&& seq_wf(calls.drop_last())
        &&& calls.last().sequence == calls_for(calls.drop_last(), calls.last().process_id).len()
            + 1
    }
}

impl Registry {
    /// The entries, as mathematical values.
    pub open spec fn procs(self) -> Seq<EntryV> {
        self.processes.deep_view()
    }

    /// The tool-call log, as mathematical values.
    pub open spec fn calls(self) -> Seq<ToolCallV> {
        self.tool_calls.deep_view()
    }

    /// Well-formedness the store maintains: unique entry identifiers,
    /// per-entry tool-call sequences without gap or duplicate, and
    /// tool-call identifiers assigned in increasing order below the
    /// stored next identifier.
    pub open spec fn wf(self) -> bool {
        &&& unique_ids(self.procs())
        &&& seq_wf(self.calls())
        &&& forall|i: int|
            0 <= i < self.calls().len() ==> 0 < (#[trigger] self.calls()[i]).id
                < self.next_tool_call_id
        &&& forall|i: int, j: int|
            0 <= i < j < self.calls().len() ==> self.calls()[i].id < self.calls()[j].id
        &&& self.next_tool_call_id >= 1
    }

    /// An empty, well-formed registry.
    pub fn new() -> (r: Registry)
        ensures
            r.wf(),
            r.procs() == Seq::<EntryV>::empty(),
            r.calls() == Seq::<ToolCallV>::empty(),
            r.next_tool_call_id == 1,
    {
        let r = Registry { processes: Vec::new(), tool_calls: Vec::new(), next_tool_call_id: 1 };
        proof {
            assert(r.procs() =~= Seq::<EntryV>::empty());
            assert(r.calls() =~= Seq::<ToolCallV>::empty());
        }
        r
    }
}

/// `spec_find` returns the element at the first matching position.
pub proof fn lemma_spec_find_at(s: Seq<EntryV>, p: spec_fn(EntryV) -> bool, i: int)
    requires
        0 <= i < s.len(),
        p(s[i]),
        forall|k: int| 0 <= k < i ==> !p(#[trigger] s[k]),
    ensures
        spec_find(s, p) == Some(s[i]),
    decreases i,
{
    if i == 0 {
    } else {
        assert(!p(s[0]));
        let t = s.drop_first();
        assert(t[i - 1] == s[i]);
        assert forall|k: int| 0 <= k < i - 1 implies !p(#[trigger] t[k]) by {
            assert(t[k] == s[k + 1]);
        }
        lemma_spec_find_at(t, p, i - 1);
    }
}

/// `spec_find` returns nothing when no element matches.
pub proof fn lemma_spec_find_none(s: Seq<EntryV>, p: spec_fn(EntryV) -> bool)
    requires
        forall|k: int| 0 <= k < s.len() ==> !p(#[trigger] s[k]),
    ensures
        spec_find(s, p) == None::<EntryV>,
    decreases s.len(),
{
    if s.len() == 0 {
    } else {
        let t = s.drop_first();
        assert forall|k: int| 0 <= k < t.len() implies !p(#[trigger] t[k]) by {
            assert(t[k] == s[k + 1]);
        }
        lemma_spec_find_none(t, p);
    }
}

/// Persists a new entry. The store checks only its own storage-level
/// constraint: the identifier must be fresh. Domain rules (branch
/// uniqueness, directory collision) are the caller's to check first.
pub fn insert_process(reg: &mut Registry, entry: &Entry) -> (r: Result<(), Error>)
    requires
        old(reg).wf(),
    ensures
        final(reg).wf(),
        match r {
            Ok(()) => {
                &&& !contains_id(old(reg).procs(), entry@.id)
                &&& final(reg).procs() == old(reg).procs().push(entry@)
                &&& final(reg).calls() == old(reg).calls()
                &&& final(reg).next_tool_call_id == old(reg).next_tool_call_id
            },
            Err(e) => {
                &&& contains_id(old(reg).procs(), entry@.id)
                &&& e is Database
                &&& *final(reg) == *old(reg)
            },
        },
{
    let n = reg.processes.len();
    let mut i: usize = 0;
    while i < n
        invariant
            i <= n,
            n == reg.processes.len(),
            *reg == *old(reg),
            reg.wf(),
            forall|k: int| 0 <= k < i ==> (#[trigger] reg.procs()[k]).id != entry@.id,
        decreases n - i,
    {
        if reg.processes[i].id == entry.id {
            proof {
                assert(reg.procs()[i as int].id == entry@.id);
            }
            return Err(Error::Database(String::from_str("process id already exists")));
        }
        i = i + 1;
    }
    let ghost before = reg.procs();
    reg.processes.push(entry.clone());
    proof {
        assert(reg.procs() =~= before.push(entry@));
        assert(reg.calls() =~= old(reg).calls());
        assert forall|a: int, b: int|
            0 <= a < b < reg.procs().len() implies reg.procs()[a].id != reg.procs()[b].id by {
            if b == reg.procs().len() - 1 {
                assert(reg.procs()[a] == before[a]);
            }
        }
    }
    Ok(())
}

/// Looks up an entry by identifier; no side effects.
pub fn get_process_by_id(reg: &Registry, id: &str) -> (r: Option<Entry>)
    ensures
        r.deep_view() == spec_find_by_id(reg.procs(), id@),
{
    let n = reg.processes.len();
    let mut i: usize = 0;
    while i < n
        invariant
            i <= n,
            n == reg.processes.len(),
            forall|k: int| 0 <= k < i ==> (#[trigger] reg.procs()[k]).id != id@,
        decreases n - i,
    {
        if str_eq(reg.processes[i].id.as_str(), id) {
            let found = reg.processes[i].clone();
            proof {
                assert(reg.procs()[i as int].id == id@);
                lemma_spec_find_at(reg.procs(), |e: EntryV| e.id == id@, i as int);
            }
            return Some(found);
        }
        i = i + 1;
    }
    proof {
        lemma_spec_find_none(reg.procs(), |e: EntryV| e.id == id@);
    }
    None
}

/// Looks up an entry by branch label; no side effects.
pub fn get_process_by_branch(reg: &Registry, branch: &str) -> (r: Option<Entry>)
    ensures
        r.deep_view() == spec_find_by_branch(reg.procs(), branch@),
{
    let n = reg.processes.len();
    let mut i: usize = 0;
    while i < n
        invariant
            i <= n,
            n == reg.processes.len(),
            forall|k: int| 0 <= k < i ==> (#[trigger] reg.procs()[k]).branch != branch@,
        decreases n - i,
    {
        if str_eq(reg.processes[i].branch.as_str(), branch) {
            let found = reg.processes[i].clone();
            proof {
                assert(reg.procs()[i as int].branch == branch@);
                lemma_spec_find_at(reg.procs(), |e: EntryV| e.branch == branch@, i as int);
            }
            return Some(found);
        }
        i = i + 1;
    }
    proof {
        lemma_spec_find_none(reg.procs(), |e: EntryV| e.branch == branch@);
    }
    None
}


/// Every element of a filtered sequence occurs in the original.
proof fn lemma_filter_elem_of_calls(s: Seq<ToolCallV>, p: spec_fn(ToolCallV) -> bool)
    ensures
        forall|i: int|
            0 <= i < s.filter(p).len() ==> s.contains(#[trigger] s.filter(p)[i]),
    decreases s.len(),
{
    broadcast use Seq::lemma_filter_push;

    if s.len() == 0 {
    } else {
        let t = s.drop_last();
        let x = s.last();
        assert(s =~= t.push(x));
        lemma_filter_elem_of_calls(t, p);
        assert forall|i: int|
            0 <= i < s.filter(p).len() implies s.contains(#[trigger] s.filter(p)[i]) by {
            if p(x) {
                assert(s.filter(p) == t.filter(p).push(x));
                if i < t.filter(p).len() {
                    let e = t.filter(p)[i];
                    assert(t.contains(e));
                    let k = choose|k: int| 0 <= k < t.len() && t[k] == e;
                    assert(s[k] == e);
                } else {
                    assert(s.filter(p)[i] == x);
                    assert(s[s.len() - 1] == x);
                }
            } else {
                assert(s.filter(p) == t.filter(p));
                let e = t.filter(p)[i];
                assert(t.contains(e));
                let k = choose|k: int| 0 <= k < t.len() && t[k] == e;
                assert(s[k] == e);
            }
        }
    }
}

/// Every element of a filtered sequence occurs in the original.
proof fn lemma_filter_elem_of_procs(s: Seq<EntryV>, p: spec_fn(EntryV) -> bool)
    ensures
        forall|i: int|
            0 <= i < s.filter(p).len() ==> s.contains(#[trigger] s.filter(p)[i]),
    decreases s.len(),
{
    broadcast use Seq::lemma_filter_push;

    if s.len() == 0 {
    } else {
        let t = s.drop_last();
        let x = s.last();
        assert(s =~= t.push(x));
        lemma_filter_elem_of_procs(t, p);
        assert forall|i: int|
            0 <= i < s.filter(p).len() implies s.contains(#[trigger] s.filter(p)[i]) by {
            if p(x) && i == s.filter(p).len() - 1 {
                assert(s.filter(p)[i] == x);
                assert(s[s.len() - 1] == x);
            } else {
                let e = t.filter(p)[i];
                assert(t.contains(e));
                let k = choose|k: int| 0 <= k < t.len() && t[k] == e;
                assert(s[k] == e);
            }
        }
    }
}

/// Identifier uniqueness survives filtering.
proof fn lemma_unique_ids_filter(s: Seq<EntryV>, p: spec_fn(EntryV) -> bool)
    requires
        unique_ids(s),
    ensures
        unique_ids(s.filter(p)),
    decreases s.len(),
{
    broadcast use Seq::lemma_filter_push;

    if s.len() == 0 {
    } else {
        let t = s.drop_last();
        let x = s.last();
        assert(s =~= t.push(x));
        assert forall|i: int, j: int| 0 <= i < j < t.len() implies t[i].id != t[j].id by {
            assert(s[i] == t[i] && s[j] == t[j]);
        }
        lemma_unique_ids_filter(t, p);
        if p(x) {
            assert(s.filter(p) == t.filter(p).push(x));
            lemma_filter_elem_of_procs(t, p);
            assert forall|i: int, j: int|
                0 <= i < j < s.filter(p).len() implies s.filter(p)[i].id != s.filter(p)[j].id by {
                if j == s.filter(p).len() - 1 {
                    let e = t.filter(p)[i];
                    let k = choose|k: int| 0 <= k < t.len() && t[k] == e;
                    assert(s[k] == e && s[s.len() - 1] == x);
                } else {
                    assert(t.filter(p)[i].id != t.filter(p)[j].id);
                }
            }
        } else {
            assert(s.filter(p) == t.filter(p));
        }
    }
}

/// A pairwise relation on positions survives filtering.
proof fn lemma_pairwise_filter_calls(
    s: Seq<ToolCallV>,
    p: spec_fn(ToolCallV) -> bool,
    r: spec_fn(ToolCallV, ToolCallV) -> bool,
)
    requires
        forall|i: int, j: int| 0 <= i < j < s.len() ==> r(#[trigger] s[i], #[trigger] s[j]),
    ensures
        forall|i: int, j: int|
            0 <= i < j < s.filter(p).len() ==> r(
                #[trigger] s.filter(p)[i],
                #[trigger] s.filter(p)[j],
            ),
    decreases s.len(),
{
    broadcast use Seq::lemma_filter_push;

    if s.len() == 0 {
    } else {
        let t = s.drop_last();
        let x = s.last();
        assert(s =~= t.push(x));
        assert forall|i: int, j: int| 0 <= i < j < t.len() implies r(
            #[trigger] t[i],
            #[trigger] t[j],
        ) by {
            assert(s[i] == t[i] && s[j] == t[j]);
        }
        lemma_pairwise_filter_calls(t, p, r);
        if p(x) {
            assert(s.filter(p) == t.filter(p).push(x));
            lemma_filter_elem_of_calls(t, p);
            assert forall|i: int, j: int|
                0 <= i < j < s.filter(p).len() implies r(
                #[trigger] s.filter(p)[i],
                #[trigger] s.filter(p)[j],
            ) by {
                if j == s.filter(p).len() - 1 {
                    let e = t.filter(p)[i];
                    let k = choose|k: int| 0 <= k < t.len() && t[k] == e;
                    assert(s[k] == e && s[s.len() - 1] == x);
                    assert(r(s[k], s[s.len() - 1]));
                } else {
                    assert(r(t.filter(p)[i], t.filter(p)[j]));
                }
            }
        } else {
            assert(s.filter(p) == t.filter(p));
        }
    }
}

/// A pointwise property on elements survives filtering.
proof fn lemma_pointwise_filter_calls(
    s: Seq<ToolCallV>,
    p: spec_fn(ToolCallV) -> bool,
    q: spec_fn(ToolCallV) -> bool,
)
    requires
        forall|i: int| 0 <= i < s.len() ==> q(#[trigger] s[i]),
    ensures
        forall|i: int| 0 <= i < s.filter(p).len() ==> q(#[trigger] s.filter(p)[i]),
{
    lemma_filter_elem_of_calls(s, p);
    assert forall|i: int| 0 <= i < s.filter(p).len() implies q(#[trigger] s.filter(p)[i]) by {
        let e = s.filter(p)[i];
        assert(s.contains(e));
        let k = choose|k: int| 0 <= k < s.len() && s[k] == e;
        assert(q(s[k]));
    }
}

/// Deleting one entry's calls does not disturb another entry's calls.
proof fn lemma_calls_for_after_delete(calls: Seq<ToolCallV>, id: Seq<char>, q: Seq<char>)
    requires
        q != id,
    ensures
        calls_for(calls.filter(|c: ToolCallV| c.process_id != id), q) == calls_for(calls, q),
    decreases calls.len(),
{
    broadcast use Seq::lemma_filter_push;

    if calls.len() == 0 {
    } else {
        let s = calls.drop_last();
        let x = calls.last();
        assert(calls =~= s.push(x));
        lemma_calls_for_after_delete(s, id, q);
        let keep = |c: ToolCallV| c.process_id != id;
        let mine = |c: ToolCallV| c.process_id == q;
        if x.process_id != id {
            assert(calls.filter(keep) == s.filter(keep).push(x));
            assert(s.filter(keep).push(x).filter(mine) == if x.process_id == q {
                s.filter(keep).filter(mine).push(x)
            } else {
                s.filter(keep).filter(mine)
            });
            assert(calls.filter(mine) == if x.process_id == q {
                s.filter(mine).push(x)
            } else {
                s.filter(mine)
            });
        } else {
            assert(calls.filter(keep) == s.filter(keep));
            assert(x.process_id != q);
            assert(calls.filter(mine) == s.filter(mine));
        }
    }
}

/// Per-entry numbering survives deleting all calls of one entry.
proof fn lemma_seq_wf_after_delete(calls: Seq<ToolCallV>, id: Seq<char>)
    requires
        seq_wf(calls),
    ensures
        seq_wf(calls.filter(|c: ToolCallV| c.process_id != id)),
    decreases calls.len(),
{
    broadcast use Seq::lemma_filter_push;

    if calls.len() == 0 {
    } else {
        let s = calls.drop_last();
        let x = calls.last();
        assert(calls =~= s.push(x));
        lemma_seq_wf_after_delete(s, id);
        let keep = |c: ToolCallV| c.process_id != id;
        if x.process_id != id {
            lemma_calls_for_after_delete(s, id, x.process_id);
            let f = s.filter(keep);
            assert(calls.filter(keep) == f.push(x));
            assert(f.push(x).drop_last() =~= f);
            assert(f.push(x).last() == x);
            assert(seq_wf(f.push(x)));
        } else {
            assert(calls.filter(keep) == s.filter(keep));
        }
    }
}

/// Removes the entry with identifier `id` and, with it, every tool call
/// that belongs to it. Deleting an absent identifier is a no-op, not an
/// error.
pub fn delete_process(reg: &mut Registry, id: &str) -> (r: Result<(), Error>)
    requires
        old(reg).wf(),
    ensures
        final(reg).wf(),
        r is Ok,
        final(reg).procs() == old(reg).procs().filter(|e: EntryV| e.id != id@),
        final(reg).calls() == old(reg).calls().filter(|c: ToolCallV| c.process_id != id@),
        final(reg).next_tool_call_id == old(reg).next_tool_call_id,
{
    broadcast use Seq::lemma_filter_push;
    broadcast use Seq::lemma_take_succ_push;

    let mut kept_calls: Vec<ToolCall> = Vec::new();
    let n = reg.tool_calls.len();
    let mut i: usize = 0;
    proof {
        assert(kept_calls.deep_view() =~= Seq::<ToolCallV>::empty());
        assert(reg.calls().take(0).filter(|c: ToolCallV| c.process_id != id@) =~= Seq::<
            ToolCallV,
        >::empty());
    }
    while i < n
        invariant
            i <= n,
            n == reg.tool_calls.len(),
            *reg == *old(reg),
            kept_calls.deep_view() == reg.calls().take(i as int).filter(
                |c: ToolCallV| c.process_id != id@,
            ),
        decreases n - i,
    {
        let ghost prev = kept_calls.deep_view();
        let keep_it = !str_eq(reg.tool_calls[i].process_id.as_str(), id);
        if keep_it {
            kept_calls.push(reg.tool_calls[i].clone());
        }
        proof {
            let p = |c: ToolCallV| c.process_id != id@;
            let tk = reg.calls().take(i as int);
            let c = reg.calls()[i as int];
            assert(reg.calls().take(i + 1) =~= tk.push(c));
            tk.lemma_filter_push(c, p);
            if keep_it {
                assert(p(c));
                assert(kept_calls.deep_view() =~= prev.push(c));
            } else {
                assert(!p(c));
            }
        }
        i = i + 1;
    }
    proof {
        assert(reg.calls().take(n as int) =~= reg.calls());
    }

    let mut kept_procs: Vec<Entry> = Vec::new();
    let m = reg.processes.len();
    let mut j: usize = 0;
    proof {
        assert(kept_procs.deep_view() =~= Seq::<EntryV>::empty());
        assert(reg.procs().take(0).filter(|e: EntryV| e.id != id@) =~= Seq::<EntryV>::empty());
    }
    while j < m
        invariant
            j <= m,
            m == reg.processes.len(),
            *reg == *old(reg),
            kept_procs.deep_view() == reg.procs().take(j as int).filter(|e: EntryV| e.id != id@),
        decreases m - j,
    {
        let ghost prev = kept_procs.deep_view();
        let keep_it = !str_eq(reg.processes[j].id.as_str(), id);
        if keep_it {
            kept_procs.push(reg.processes[j].clone());
        }
        proof {
            let p = |e: EntryV| e.id != id@;
            let tk = reg.procs().take(j as int);
            let c = reg.procs()[j as int];
            assert(reg.procs().take(j + 1) =~= tk.push(c));
            tk.lemma_filter_push(c, p);
            if keep_it {
                assert(p(c));
                assert(kept_procs.deep_view() =~= prev.push(c));
            } else {
                assert(!p(c));
            }
        }
        j = j + 1;
    }
    proof {
        assert(reg.procs().take(m as int) =~= reg.procs());
    }

    proof {
        lemma_unique_ids_filter(old(reg).procs(), |e: EntryV| e.id != id@);
        lemma_seq_wf_after_delete(old(reg).calls(), id@);
        lemma_pointwise_filter_calls(
            old(reg).calls(),
            |c: ToolCallV| c.process_id != id@,
            |c: ToolCallV| 0 < c.id < old(reg).next_tool_call_id,
        );
        lemma_pairwise_filter_calls(
            old(reg).calls(),
            |c: ToolCallV| c.process_id != id@,
            |a: ToolCallV, b: ToolCallV| a.id < b.id,
        );
    }
    reg.tool_calls = kept_calls;
    reg.processes = kept_procs;
    Ok(())
}

/// The entries after recording exit code `code` (and touching
/// `updated_at`) on the entry with identifier `id`.
pub open spec fn spec_set_exit(s: Seq<EntryV>, id: Seq<char>, code: i32, now: i64) -> Seq<EntryV> {
    s.map_values(
        |e: EntryV|
            if e.id == id {
                EntryV { exit_code: Some(code), updated_at: now, ..e }
            } else {
                e
            },
    )
}

/// Records the terminal exit code of the entry with identifier `id` and
/// touches its `updated_at`; the entry thereby moves to the `Exited`
/// stage. Updating an absent identifier is a no-op, not an error, so
/// teardown races stay harmless.
pub fn set_exit_code(reg: &mut Registry, id: &str, code: i32, now: i64) -> (r: Result<(), Error>)
    requires
        old(reg).wf(),
    ensures
        final(reg).wf(),
        r is Ok,
        final(reg).procs() == spec_set_exit(old(reg).procs(), id@, code, now),
        final(reg).calls() == old(reg).calls(),
        final(reg).next_tool_call_id == old(reg).next_tool_call_id,
{
    let n = reg.processes.len();
    let mut i: usize = 0;
    while i < n
        invariant
            i <= n,
            n == reg.processes.len(),
            *reg == *old(reg),
            reg.wf(),
            forall|k: int| 0 <= k < i ==> (#[trigger] reg.procs()[k]).id != id@,
        decreases n - i,
    {
        if str_eq(reg.processes[i].id.as_str(), id) {
            proof {
                assert(reg.procs()[i as int].id == id@);
            }
            let mut e = reg.processes[i].clone();
            e.exit_code = Some(code);
            e.updated_at = now;
            reg.processes.set(i, e);
            proof {
                assert forall|k: int|
                    0 <= k < reg.procs().len() implies reg.procs()[k] == spec_set_exit(
                    old(reg).procs(),
                    id@,
                    code,
                    now,
                )[k] by {
                    if k != i {
                        assert(old(reg).procs()[k].id != id@);
                    }
                }
                assert(reg.procs() =~= spec_set_exit(old(reg).procs(), id@, code, now));
                assert forall|a: int, b: int|
                    0 <= a < b < reg.procs().len() implies reg.procs()[a].id != reg.procs()[b].id
                    by {
                    assert(reg.procs()[a].id == old(reg).procs()[a].id);
                    assert(reg.procs()[b].id == old(reg).procs()[b].id);
                }
                assert(reg.calls() =~= old(reg).calls());
            }
            return Ok(());
        }
        i = i + 1;
    }
    proof {
        assert(spec_set_exit(reg.procs(), id@, code, now) =~= reg.procs());
    }
    Ok(())
}


/// Whether some entry carries the identifier `id`; no side effects.
pub fn contains_process(reg: &Registry, id: &str) -> (r: bool)
    ensures
        r == contains_id(reg.procs(), id@),
{
    let n = reg.processes.len();
    let mut i: usize = 0;
    while i < n
        invariant
            i <= n,
            n == reg.processes.len(),
            forall|k: int| 0 <= k < i ==> (#[trigger] reg.procs()[k]).id != id@,
        decreases n - i,
    {
        if str_eq(reg.processes[i].id.as_str(), id) {
            proof {
                assert(reg.procs()[i as int].id == id@);
            }
            return true;
        }
        i = i + 1;
    }
    false
}

/// Appends a tool call under `process_id`, stamping it with the next
/// sequence number of that entry (1 when the entry has no calls yet)
/// and the next log-wide identifier. Fails when no entry carries
/// `process_id`. Because the whole read-compute-append span runs on one
/// snapshot under the caller's exclusive access, no two calls of one
/// entry can end up with the same sequence.
pub fn insert_tool_call(
    reg: &mut Registry,
    process_id: &str,
    hook_type: &str,
    tool_name: &str,
    input: &str,
    now: i64,
) -> (r: Result<(), Error>)
    requires
        old(reg).wf(),
        old(reg).tool_calls@.len() < i64::MAX,
        old(reg).next_tool_call_id < i64::MAX,
    ensures
        final(reg).wf(),
        match r {
            Ok(()) => {
                &&& contains_id(old(reg).procs(), process_id@)
                &&& final(reg).calls() == old(reg).calls().push(
                    ToolCallV {
                        id: old(reg).next_tool_call_id,
                        process_id: process_id@,
                        hook_type: hook_type@,
                        tool_name: tool_name@,
                        tool_input: input@,
                        timestamp: now,
                        sequence: (calls_for(old(reg).calls(), process_id@).len() + 1) as i64,
                    },
                )
                &&& final(reg).procs() == old(reg).procs()
                &&& final(reg).next_tool_call_id == old(reg).next_tool_call_id + 1
            },
            Err(e) => {
                &&& !contains_id(old(reg).procs(), process_id@)
                &&& e is Database
                &&& *final(reg) == *old(reg)
            },
        },
{
    broadcast use Seq::lemma_filter_push;
    broadcast use Seq::lemma_take_succ_push;
    broadcast use Seq::lemma_filter_len;

    if !contains_process(reg, process_id) {
        return Err(Error::Database(String::from_str("no entry for tool call")));
    }

    let m = reg.tool_calls.len();
    let mut cnt: usize = 0;
    let mut j: usize = 0;
    while j < m
        invariant
            j <= m,
            m == reg.tool_calls.len(),
            *reg == *old(reg),
            cnt <= j,
            cnt == calls_for(reg.calls().take(j as int), process_id@).len(),
        decreases m - j,
    {
        proof {
            let p = |c: ToolCallV| c.process_id == process_id@;
            let tk = reg.calls().take(j as int);
            let c = reg.calls()[j as int];
            assert(reg.calls().take(j + 1) =~= tk.push(c));
            tk.lemma_filter_push(c, p);
        }
        if str_eq(reg.tool_calls[j].process_id.as_str(), process_id) {
            cnt = cnt + 1;
        }
        j = j + 1;
    }
    proof {
        assert(reg.calls().take(m as int) =~= reg.calls());
    }

    let call = ToolCall {
        id: reg.next_tool_call_id,
        process_id: String::from_str(process_id),
        hook_type: String::from_str(hook_type),
        tool_name: String::from_str(tool_name),
        tool_input: String::from_str(input),
        timestamp: now,
        sequence: (cnt as i64) + 1,
    };
    let ghost cv = call@;
    let ghost before = reg.calls();
    reg.tool_calls.push(call);
    reg.next_tool_call_id = reg.next_tool_call_id + 1;
    proof {
        assert(reg.calls() =~= before.push(cv));
        assert(reg.procs() =~= old(reg).procs());
        assert(reg.calls().drop_last() =~= before);
        assert(reg.calls().last() == cv);
        assert(seq_wf(reg.calls()));
        assert forall|a: int|
            0 <= a < reg.calls().len() implies 0 < (#[trigger] reg.calls()[a]).id
            < reg.next_tool_call_id by {
            if a < before.len() {
                assert(reg.calls()[a] == before[a]);
            }
        }
        assert forall|a: int, b: int|
            0 <= a < b < reg.calls().len() implies reg.calls()[a].id < reg.calls()[b].id by {
            if b < before.len() {
                assert(reg.calls()[a] == before[a] && reg.calls()[b] == before[b]);
            } else {
                assert(reg.calls()[a] == before[a] && reg.calls()[b] == cv);
            }
        }
    }
    Ok(())
}

/// The calls of the entry `process_id`, in log order; no side effects.
/// Under well-formedness this order is exactly ascending `sequence`
/// (see `lemma_sequences_are_ordinal`).
pub fn get_tool_calls_by_process(reg: &Registry, process_id: &str) -> (r: Vec<ToolCall>)
    ensures
        r.deep_view() == calls_for(reg.calls(), process_id@),
{
    let n = reg.tool_calls.len();
    let mut res: Vec<ToolCall> = Vec::new();
    let mut i: usize = 0;
    proof {
        assert(res.deep_view() =~= Seq::<ToolCallV>::empty());
        assert(calls_for(reg.calls().take(0), process_id@) =~= Seq::<ToolCallV>::empty());
    }
    while i < n
        invariant
            i <= n,
            n == reg.tool_calls.len(),
            res.deep_view() == calls_for(reg.calls().take(i as int), process_id@),
        decreases n - i,
    {
        let ghost prev = res.deep_view();
        let keep_it = str_eq(reg.tool_calls[i].process_id.as_str(), process_id);
        if keep_it {
            res.push(reg.tool_calls[i].clone());
        }
        proof {
            let p = |c: ToolCallV| c.process_id == process_id@;
            let tk = reg.calls().take(i as int);
            let c = reg.calls()[i as int];
            assert(reg.calls().take(i + 1) =~= tk.push(c));
            tk.lemma_filter_push(c, p);
            if keep_it {
                assert(p(c));
                assert(res.deep_view() =~= prev.push(c));
            } else {
                assert(!p(c));
            }
        }
        i = i + 1;
    }
    proof {
        assert(reg.calls().take(n as int) =~= reg.calls());
    }
    res
}

/// For every entry, the tool calls stored under it carry the sequence
/// numbers 1, 2, ..., n in log order: no gap, no duplicate, each new
/// call one past the count so far, independent of every other entry's
/// numbering.
pub proof fn lemma_sequences_are_ordinal(calls: Seq<ToolCallV>, pid: Seq<char>)
    requires
        seq_wf(calls),
    ensures
        forall|k: int|
            0 <= k < calls_for(calls, pid).len() ==> (#[trigger] calls_for(calls, pid)[k]).sequence
                == k + 1,
    decreases calls.len(),
{
    broadcast use Seq::lemma_filter_push;

    if calls.len() == 0 {
    } else {
        let s = calls.drop_last();
        let x = calls.last();
        assert(calls =~= s.push(x));
        lemma_sequences_are_ordinal(s, pid);
        let p = |c: ToolCallV| c.process_id == pid;
        s.lemma_filter_push(x, p);
        assert forall|k: int|
            0 <= k < calls_for(calls, pid).len() implies (#[trigger] calls_for(calls, pid)[k]).sequence
            == k + 1 by {
            if x.process_id == pid {
                assert(calls_for(calls, pid) == calls_for(s, pid).push(x));
                if k < calls_for(s, pid).len() {
                    assert(calls_for(calls, pid)[k] == calls_for(s, pid)[k]);
                } else {
                    assert(calls_for(calls, pid)[k] == x);
                    assert(x.sequence == calls_for(s, x.process_id).len() + 1);
                }
            } else {
                assert(calls_for(calls, pid) == calls_for(s, pid));
                assert(calls_for(calls, pid)[k] == calls_for(s, pid)[k]);
            }
        }
    }
}


/// All entries, ordered by creation time ascending (entries created at
/// the same instant keep their stored order); no side effects.
pub fn get_all_processes(reg: &Registry) -> (r: Vec<Entry>)
    ensures
        r.deep_view() == sort_by_created(reg.procs()),
{
    let n = reg.processes.len();
    let mut res: Vec<Entry> = Vec::new();
    let mut i: usize = 0;
    proof {
        assert(res.deep_view() =~= Seq::<EntryV>::empty());
        assert(sort_by_created(reg.procs().take(0)) =~= Seq::<EntryV>::empty());
    }
    while i < n
        invariant
            i <= n,
            n == reg.processes.len(),
            res.deep_view() == sort_by_created(reg.procs().take(i as int)),
            sorted_by_created(res.deep_view()),
        decreases n - i,
    {
        let e = reg.processes[i].clone();
        let ghost rv = res.deep_view();
        let ghost ev = e@;
        let mut j: usize = res.len();
        while j > 0 && res[j - 1].created_at > e.created_at
            invariant
                j <= res.len(),
                res.deep_view() == rv,
                sorted_by_created(rv),
                e@ == ev,
                forall|k: int| j <= k < rv.len() ==> (#[trigger] rv[k]).created_at > ev.created_at,
            decreases j,
        {
            j = j - 1;
        }
        proof {
            assert forall|k: int| 0 <= k < j implies (#[trigger] rv[k]).created_at
                <= ev.created_at by {
                if k < j - 1 {
                    assert(rv[k].created_at <= rv[j - 1].created_at);
                }
            }
        }
        res.insert(j, e);
        proof {
            lemma_insert_by_created_at(rv, ev, j as int);
            assert(res.deep_view() =~= rv.insert(j as int, ev));
            lemma_insert_by_created_sorted(rv, ev);
            assert(reg.procs().take(i + 1).drop_last() =~= reg.procs().take(i as int));
            assert(reg.procs().take(i + 1).last() == reg.procs()[i as int]);
            assert(sort_by_created(reg.procs().take(i + 1)) == insert_by_created(
                sort_by_created(reg.procs().take(i as int)),
                reg.procs()[i as int],
            ));
        }
        i = i + 1;
    }
    proof {
        assert(reg.procs().take(n as int) =~= reg.procs());
    }
    res
}

/// The whole tool-call log, most recent first (calls stamped at the
/// same instant keep their stored order); no side effects.
pub fn get_all_tool_calls(reg: &Registry) -> (r: Vec<ToolCall>)
    ensures
        r.deep_view() == sort_by_ts_desc(reg.calls()),
{
    let n = reg.tool_calls.len();
    let mut res: Vec<ToolCall> = Vec::new();
    let mut i: usize = 0;
    proof {
        assert(res.deep_view() =~= Seq::<ToolCallV>::empty());
        assert(sort_by_ts_desc(reg.calls().take(0)) =~= Seq::<ToolCallV>::empty());
    }
    while i < n
        invariant
            i <= n,
            n == reg.tool_calls.len(),
            res.deep_view() == sort_by_ts_desc(reg.calls().take(i as int)),
            sorted_by_ts_desc(res.deep_view()),
        decreases n - i,
    {
        let c = reg.tool_calls[i].clone();
        let ghost rv = res.deep_view();
        let ghost cv = c@;
        let mut j: usize = res.len();
        while j > 0 && res[j - 1].timestamp < c.timestamp
            invariant
                j <= res.len(),
                res.deep_view() == rv,
                sorted_by_ts_desc(rv),
                c@ == cv,
                forall|k: int| j <= k < rv.len() ==> (#[trigger] rv[k]).timestamp < cv.timestamp,
            decreases j,
        {
            j = j - 1;
        }
        proof {
            assert forall|k: int| 0 <= k < j implies (#[trigger] rv[k]).timestamp
                >= cv.timestamp by {
                if k < j - 1 {
                    assert(rv[k].timestamp >= rv[j - 1].timestamp);
                }
            }
        }
        res.insert(j, c);
        proof {
            lemma_insert_by_ts_desc_at(rv, cv, j as int);
            assert(res.deep_view() =~= rv.insert(j as int, cv));
            lemma_insert_by_ts_desc_sorted(rv, cv);
            assert(reg.calls().take(i + 1).drop_last() =~= reg.calls().take(i as int));
            assert(reg.calls().take(i + 1).last() == reg.calls()[i as int]);
            assert(sort_by_ts_desc(reg.calls().take(i + 1)) == insert_by_ts_desc(
                sort_by_ts_desc(reg.calls().take(i as int)),
                reg.calls()[i as int],
            ));
        }
        i = i + 1;
    }
    proof {
        assert(reg.calls().take(n as int) =~= reg.calls());
    }
    res
}

/// Gate run by every command before touching the store: the registry
/// directory must already exist (the caller reports whether it does);
/// otherwise the store is not initialized.
pub fn ensure_initialized(dir_exists: bool) -> (r: Result<(), Error>)
    ensures
        r is Ok <==> dir_exists,
        r matches Err(e) ==> e is NotInitialized,
{
    if dir_exists {
        Ok(())
    } else {
        Err(Error::NotInitialized)
    }
}


/// Applies the exit-kill policy at the moment the entry's command has
/// terminated with `code`: when the policy fires, the entry and all
/// its tool calls are deleted and the caller tears the window down;
/// otherwise the exit code is recorded and the entry stays, `Exited`,
/// for later inspection. Fails when no entry carries `id`.
pub fn record_termination(reg: &mut Registry, id: &str, code: i32, now: i64) -> (r: Result<
    bool,
    Error,
>)
    requires
        old(reg).wf(),
    ensures
        final(reg).wf(),
        match r {
            Ok(killed) => {
                &&& spec_find_by_id(old(reg).procs(), id@) matches Some(e) && killed
                    == policy_matches(e.exit_kill, code)
                &&& killed ==> {
                    &&& final(reg).procs() == old(reg).procs().filter(
                        |e2: EntryV| e2.id != id@,
                    )
                    &&& final(reg).calls() == old(reg).calls().filter(
                        |c: ToolCallV| c.process_id != id@,
                    )
                    &&& final(reg).next_tool_call_id == old(reg).next_tool_call_id
                }
                &&& !killed ==> {
                    &&& final(reg).procs() == spec_set_exit(old(reg).procs(), id@, code, now)
                    &&& final(reg).calls() == old(reg).calls()
                    &&& final(reg).next_tool_call_id == old(reg).next_tool_call_id
                }
            },
            Err(e) => {
                &&& e is EntryNotFound
                &&& spec_find_by_id(old(reg).procs(), id@) is None
                &&& *final(reg) == *old(reg)
            },
        },
{
    let found = get_process_by_id(reg, id);
    match found {
        None => Err(Error::EntryNotFound(String::from_str(id))),
        Some(entry) => {
            let kill = match &entry.exit_kill {
                Some(ek) => ek.matches(code),
                None => false,
            };
            proof {
                assert(kill == policy_matches(entry@.exit_kill, code));
            }
            if kill {
                let deleted = delete_process(reg, id);
                proof {
                    assert(deleted is Ok);
                }
                Ok(true)
            } else {
                let set = set_exit_code(reg, id, code, now);
                proof {
                    assert(set is Ok);
                }
                Ok(false)
            }
        },
    }
}

/// Writing an entry with a fresh identifier and reading it back by
/// that identifier returns exactly the entry that was written.
pub proof fn lemma_insert_get_roundtrip(s: Seq<EntryV>, e: EntryV)
    requires
        !contains_id(s, e.id),
    ensures
        spec_find_by_id(s.push(e), e.id) == Some(e),
{
    let t = s.push(e);
    let p = |e2: EntryV| e2.id == e.id;
    assert(t[s.len() as int] == e);
    assert forall|k: int| 0 <= k < s.len() implies !p(#[trigger] t[k]) by {
        assert(t[k] == s[k]);
    }
    lemma_spec_find_at(t, p, s.len() as int);
}

/// Deleting an entry leaves no tool call of that entry behind: a
/// query for its calls afterwards returns the empty list.
pub proof fn lemma_delete_removes_calls(calls: Seq<ToolCallV>, id: Seq<char>)
    ensures
        calls_for(calls.filter(|c: ToolCallV| c.process_id != id), id) == Seq::<
            ToolCallV,
        >::empty(),
{
    broadcast use Seq::lemma_filter_pred;

    let keep = |c: ToolCallV| c.process_id != id;
    let mine = |c: ToolCallV| c.process_id == id;
    let f = calls.filter(keep);
    let g = f.filter(mine);
    if g.len() > 0 {
        let c = g[0];
        assert(mine(c));
        lemma_filter_elem_of_calls(f, mine);
        assert(f.contains(c));
        let w = choose|w: int| 0 <= w < f.len() && f[w] == c;
        assert(keep(f[w]));
        assert(false);
    }
    assert(g =~= Seq::<ToolCallV>::empty());
}

} // verus!
