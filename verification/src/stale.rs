//! The stale-detection pass used by cleanup: a pure function over a
//! snapshot of the entries plus, per entry, the two existence facts a
//! caller supplies (does its work directory still exist, does its
//! window still exist).

use vstd::prelude::*;
use vstd::string::StringExecFns;
use crate::entity::{Entry, EntryV};
use crate::trusted::str_eq;

verus! {

/// One flagged entry: its identifier, its branch label, and the
/// reasons it was flagged, in the fixed evaluation order.
#[derive(Debug, PartialEq)]
pub struct StaleEntry {
    pub id: String,
    pub branch: String,
    pub reasons: Vec<String>,
}

/// Mathematical view of a `StaleEntry`.
#[verifier::ext_equal]
pub ghost struct StaleEntryV {
    pub id: Seq<char>,
    pub branch: Seq<char>,
    pub reasons: Seq<Seq<char>>,
}

impl View for StaleEntry {
    type V = StaleEntryV;

    open spec fn view(&self) -> StaleEntryV {
        StaleEntryV { id: self.id@, branch: self.branch@, reasons: self.reasons.deep_view() }
    }
}

impl DeepView for StaleEntry {
    type V = StaleEntryV;

    open spec fn deep_view(&self) -> StaleEntryV {
        self.view()
    }
}

impl Clone for StaleEntry {
    fn clone(&self) -> (res: Self)
        ensures
            res@ == self@,
    {
        let mut reasons: Vec<String> = Vec::new();
        let mut i: usize = 0;
        while i < self.reasons.len()
            invariant
                i <= self.reasons.len(),
                reasons.deep_view() == self.reasons.deep_view().take(i as int),
            decreases self.reasons.len() - i,
        {
            let ghost prev = reasons.deep_view();
            reasons.push(self.reasons[i].clone());
            proof {
                assert(reasons.deep_view() =~= prev.push(self.reasons@[i as int]@));
                assert(self.reasons.deep_view().take(i + 1) =~= self.reasons.deep_view().take(
                    i as int,
                ).push(self.reasons.deep_view()[i as int]));
            }
            i = i + 1;
        }
        proof {
            assert(self.reasons.deep_view().take(self.reasons@.len() as int)
                =~= self.reasons.deep_view());
        }
        let res = StaleEntry { id: self.id.clone(), branch: self.branch.clone(), reasons };
        proof {
            assert(res@ =~= self@);
        }
        res
    }
}

/// The reason recorded when an entry's work directory is gone.
pub open spec fn reason_worktree() -> Seq<char> {
    "worktree missing"@
}

/// The reason recorded when an entry's window is gone.
pub open spec fn reason_window() -> Seq<char> {
    "window missing"@
}

/// The reason recorded when an entry's branch label repeats an earlier
/// entry's.
pub open spec fn reason_duplicate() -> Seq<char> {
    "duplicate branch"@
}

/// The reasons one entry collects, in the fixed evaluation order:
/// directory first, then window, then duplicate branch.
pub open spec fn reasons_of(dir_ok: bool, win_ok: bool, dup: bool) -> Seq<Seq<char>> {
    (if !dir_ok {
        seq![reason_worktree()]
    } else {
        Seq::empty()
    }) + (if !win_ok {
        seq![reason_window()]
    } else {
        Seq::empty()
    }) + (if dup {
        seq![reason_duplicate()]
    } else {
        Seq::empty()
    })
}

/// Whether the branch of `entries[i]` already occurred strictly
/// earlier in the snapshot. Only later occurrences count: the first
/// occurrence of a branch is never a duplicate, whatever else is wrong
/// with it.
pub open spec fn dup_at(entries: Seq<EntryV>, i: int) -> bool {
    exists|k: int| 0 <= k < i && entries[k].branch == entries[i].branch
}

/// The reasons `entries[i]` collects under the given existence facts.
pub open spec fn spec_reasons_at(
    entries: Seq<EntryV>,
    dir_ok: Seq<bool>,
    win_ok: Seq<bool>,
    i: int,
) -> Seq<Seq<char>> {
    reasons_of(dir_ok[i], win_ok[i], dup_at(entries, i))
}

/// The flagged entry built for position `i`.
pub open spec fn spec_stale_at(
    entries: Seq<EntryV>,
    dir_ok: Seq<bool>,
    win_ok: Seq<bool>,
    i: int,
) -> StaleEntryV {
    StaleEntryV {
        id: entries[i].id,
        branch: entries[i].branch,
        reasons: spec_reasons_at(entries, dir_ok, win_ok, i),
    }
}

/// The flagged entries among the first `n` positions, in input order.
pub open spec fn spec_stale_upto(
    entries: Seq<EntryV>,
    dir_ok: Seq<bool>,
    win_ok: Seq<bool>,
    n: int,
) -> Seq<StaleEntryV>
    decreases n,
{
    if n <= 0 {
        Seq::empty()
    } else {
        let prefix = spec_stale_upto(entries, dir_ok, win_ok, n - 1);
        if spec_reasons_at(entries, dir_ok, win_ok, n - 1).len() > 0 {
            prefix.push(spec_stale_at(entries, dir_ok, win_ok, n - 1))
        } else {
            prefix
        }
    }
}

/// The stale-detection result: every entry with at least one reason,
/// in input order, each carrying exactly its triggered reasons.
pub open spec fn spec_stale(
    entries: Seq<EntryV>,
    dir_ok: Seq<bool>,
    win_ok: Seq<bool>,
) -> Seq<StaleEntryV> {
    spec_stale_upto(entries, dir_ok, win_ok, entries.len() as int)
}

/// An entry appears in the stale-detection output exactly when it
/// lacks its directory, lacks its window, or repeats an earlier
/// entry's branch; the output lists the flagged entries in input
/// order, each with exactly the reasons that triggered, in the fixed
/// order (directory, window, duplicate).
pub proof fn lemma_stale_characterization(
    entries: Seq<EntryV>,
    dir_ok: Seq<bool>,
    win_ok: Seq<bool>,
)
    requires
        dir_ok.len() == entries.len(),
        win_ok.len() == entries.len(),
    ensures
        spec_stale(entries, dir_ok, win_ok) == Seq::new(entries.len(), |i: int| i).filter(
            |i: int| spec_reasons_at(entries, dir_ok, win_ok, i).len() > 0,
        ).map_values(|i: int| spec_stale_at(entries, dir_ok, win_ok, i)),
{
    lemma_stale_upto_characterization(entries, dir_ok, win_ok, entries.len() as int);
}

proof fn lemma_stale_upto_characterization(
    entries: Seq<EntryV>,
    dir_ok: Seq<bool>,
    win_ok: Seq<bool>,
    n: int,
)
    requires
        0 <= n <= entries.len(),
    ensures
        spec_stale_upto(entries, dir_ok, win_ok, n) == Seq::new(n as nat, |i: int| i).filter(
            |i: int| spec_reasons_at(entries, dir_ok, win_ok, i).len() > 0,
        ).map_values(|i: int| spec_stale_at(entries, dir_ok, win_ok, i)),
    decreases n,
{
    broadcast use Seq::lemma_filter_push;
    broadcast use Seq::lemma_push_map_commute;

    let flag = |i: int| spec_reasons_at(entries, dir_ok, win_ok, i).len() > 0;
    let mk = |i: int| spec_stale_at(entries, dir_ok, win_ok, i);
    if n == 0 {
        assert(Seq::new(0, |i: int| i).filter(flag) =~= Seq::<int>::empty());
        assert(Seq::<int>::empty().map_values(mk) =~= Seq::<StaleEntryV>::empty());
    } else {
        lemma_stale_upto_characterization(entries, dir_ok, win_ok, n - 1);
        let idx_prev = Seq::new((n - 1) as nat, |i: int| i);
        let idx = Seq::new(n as nat, |i: int| i);
        assert(idx =~= idx_prev.push(n - 1));
        idx_prev.lemma_filter_push(n - 1, flag);
        if flag(n - 1) {
            assert(idx.filter(flag) == idx_prev.filter(flag).push(n - 1));
            idx_prev.filter(flag).lemma_push_map_commute(mk, n - 1);
            assert(idx.filter(flag).map_values(mk) =~= idx_prev.filter(flag).map_values(mk).push(
                mk(n - 1),
            ));
        } else {
            assert(idx.filter(flag) == idx_prev.filter(flag));
        }
    }
}

/// Whether `branch` occurs among the labels collected so far.
fn branch_seen(seen: &Vec<String>, branch: &str) -> (r: bool)
    ensures
        r == (exists|w: int|
            0 <= w < seen.deep_view().len() && seen.deep_view()[w] == branch@),
{
    let n = seen.len();
    let mut k: usize = 0;
    while k < n
        invariant
            k <= n,
            n == seen@.len(),
            forall|w: int| 0 <= w < k ==> (#[trigger] seen.deep_view()[w]) != branch@,
        decreases n - k,
    {
        if str_eq(seen[k].as_str(), branch) {
            proof {
                assert(seen.deep_view()[k as int] == branch@);
            }
            return true;
        }
        k = k + 1;
    }
    false
}

/// Builds the reason list for one entry, in the fixed evaluation
/// order.
fn build_reasons(dir_ok: bool, win_ok: bool, dup: bool) -> (r: Vec<String>)
    ensures
        r.deep_view() == reasons_of(dir_ok, win_ok, dup),
{
    let mut reasons: Vec<String> = Vec::new();
    if !dir_ok {
        reasons.push(String::from_str("worktree missing"));
    }
    if !win_ok {
        reasons.push(String::from_str("window missing"));
    }
    if dup {
        reasons.push(String::from_str("duplicate branch"));
    }
    proof {
        assert(reasons.deep_view() =~= reasons_of(dir_ok, win_ok, dup));
    }
    reasons
}

/// Finds stale entries in one pass over the snapshot. `dir_ok[i]` and
/// `win_ok[i]` report whether `entries[i]`'s work directory and window
/// still exist; the caller evaluates those facts against the world.
/// An entry is flagged when its directory is gone, its window is gone,
/// or its branch label already occurred earlier in the snapshot; the
/// first occurrence of a branch is never flagged as duplicate, even
/// when stale for other reasons. Entries without reasons are left out.
#[verifier::rlimit(100)]
pub fn find_stale_entries(entries: &Vec<Entry>, dir_ok: &Vec<bool>, win_ok: &Vec<bool>) -> (r:
    Vec<StaleEntry>)
    requires
        dir_ok@.len() == entries@.len(),
        win_ok@.len() == entries@.len(),
    ensures
        r.deep_view() == spec_stale(entries.deep_view(), dir_ok@, win_ok@),
{
    let ghost ev = entries.deep_view();
    let n = entries.len();
    let mut res: Vec<StaleEntry> = Vec::new();
    let mut seen: Vec<String> = Vec::new();
    let mut i: usize = 0;
    proof {
        assert(res.deep_view() =~= Seq::<StaleEntryV>::empty());
        assert(seen.deep_view() =~= ev.take(0).map_values(|e: EntryV| e.branch));
    }
    while i < n
        invariant
            i <= n,
            n == entries@.len(),
            ev == entries.deep_view(),
            dir_ok@.len() == n,
            win_ok@.len() == n,
            res.deep_view() == spec_stale_upto(ev, dir_ok@, win_ok@, i as int),
            seen.deep_view() == ev.take(i as int).map_values(|e: EntryV| e.branch),
        decreases n - i,
    {
        let entry = &entries[i];
        let ghost sv = seen.deep_view();
        let dup = branch_seen(&seen, entry.branch.as_str());
        proof {
            let pfx = ev.take(i as int);
            if dup {
                let w = choose|w: int| 0 <= w < sv.len() && sv[w] == entry.branch@;
                assert(sv[w] == pfx.map_values(|e: EntryV| e.branch)[w]);
                assert(pfx[w] == ev[w]);
                assert(ev[w].branch == ev[i as int].branch);
                assert(dup_at(ev, i as int));
            } else {
                if dup_at(ev, i as int) {
                    let m2 = choose|m2: int| 0 <= m2 < i && ev[m2].branch == ev[i as int].branch;
                    assert(sv[m2] == pfx.map_values(|e: EntryV| e.branch)[m2]);
                    assert(pfx[m2] == ev[m2]);
                    assert(sv[m2] == entry.branch@);
                    assert(false);
                }
            }
        }
        let reasons = build_reasons(dir_ok[i], win_ok[i], dup);
        proof {
            assert(reasons.deep_view() == spec_reasons_at(ev, dir_ok@, win_ok@, i as int));
        }

        let ghost prev_res = res.deep_view();
        if reasons.len() > 0 {
            let flagged = StaleEntry {
                id: entry.id.clone(),
                branch: entry.branch.clone(),
                reasons,
            };
            proof {
                assert(flagged@ =~= spec_stale_at(ev, dir_ok@, win_ok@, i as int));
            }
            res.push(flagged);
            proof {
                assert(res.deep_view() =~= prev_res.push(
                    spec_stale_at(ev, dir_ok@, win_ok@, i as int),
                ));
            }
        }

        seen.push(entry.branch.clone());
        proof {
            assert forall|k2: int| 0 <= k2 < i + 1 implies seen.deep_view()[k2] == ev.take(
                i + 1,
            ).map_values(|e: EntryV| e.branch)[k2] by {
                if k2 < i {
                    assert(seen.deep_view()[k2] == sv[k2]);
                    assert(ev.take(i as int)[k2] == ev.take(i + 1)[k2]);
                } else {
                    assert(seen.deep_view()[k2] == ev[i as int].branch);
                    assert(ev.take(i + 1)[k2] == ev[i as int]);
                }
            }
            assert(seen.deep_view() =~= ev.take(i + 1).map_values(|e: EntryV| e.branch));
        }
        i = i + 1;
    }
    proof {
        assert(ev.take(n as int) =~= ev);
    }
    res
}

} // verus!
