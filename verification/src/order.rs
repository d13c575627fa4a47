//! Stable orderings used by the read operations: entries by creation
//! time ascending, tool calls by timestamp descending (most recent
//! first). Each sort is specified as an insertion sort, which pins the
//! output completely: elements with equal keys keep their stored order.

use vstd::prelude::*;
use crate::entity::{EntryV, ToolCallV};

verus! {

/// Ascending by `created_at`.
pub open spec fn sorted_by_created(s: Seq<EntryV>) -> bool {
    forall|i: int, j: int| 0 <= i < j < s.len() ==> s[i].created_at <= s[j].created_at
}

/// Inserts `x` after every element whose `created_at` is not greater,
/// so elements with equal keys keep their existing order.
pub open spec fn insert_by_created(s: Seq<EntryV>, x: EntryV) -> Seq<EntryV>
    decreases s.len(),
{
    if s.len() == 0 {
        seq![x]
    } else if s.last().created_at <= x.created_at {
        s.push(x)
    } else {
        insert_by_created(s.drop_last(), x).push(s.last())
    }
}

/// Stable sort of the entries by `created_at`, ascending.
pub open spec fn sort_by_created(s: Seq<EntryV>) -> Seq<EntryV>
    decreases s.len(),
{
    if s.len() == 0 {
        Seq::empty()
    } else {
        insert_by_created(sort_by_created(s.drop_last()), s.last())
    }
}

/// Inserting keeps the sequence sorted; the result holds the old
/// elements plus `x`.
pub proof fn lemma_insert_by_created_sorted(s: Seq<EntryV>, x: EntryV)
    requires
        sorted_by_created(s),
    ensures
        sorted_by_created(insert_by_created(s, x)),
        insert_by_created(s, x).len() == s.len() + 1,
        forall|k: int|
            0 <= k < insert_by_created(s, x).len() ==> (#[trigger] insert_by_created(s, x)[k] == x
                || s.contains(insert_by_created(s, x)[k])),
    decreases s.len(),
{
    let out = insert_by_created(s, x);
    if s.len() == 0 {
    } else if s.last().created_at <= x.created_at {
        assert(out == s.push(x));
        assert forall|i: int, j: int| 0 <= i < j < out.len() implies out[i].created_at
            <= out[j].created_at by {
            if j == out.len() - 1 {
                assert(s[i].created_at <= s[s.len() - 1].created_at);
            }
        }
        assert forall|k: int|
            0 <= k < out.len() implies (#[trigger] out[k] == x || s.contains(out[k])) by {
            if k < s.len() {
                assert(out[k] == s[k]);
            }
        }
    } else {
        let t = s.drop_last();
        let y = s.last();
        assert forall|i: int, j: int| 0 <= i < j < t.len() implies t[i].created_at
            <= t[j].created_at by {
            assert(s[i] == t[i] && s[j] == t[j]);
        }
        lemma_insert_by_created_sorted(t, x);
        let inner = insert_by_created(t, x);
        assert(out == inner.push(y));
        assert forall|k: int| 0 <= k < inner.len() implies inner[k].created_at <= y.created_at by {
            if inner[k] == x {
            } else {
                assert(t.contains(inner[k]));
                let w = choose|w: int| 0 <= w < t.len() && t[w] == inner[k];
                assert(s[w] == t[w]);
                assert(s[w].created_at <= s[s.len() - 1].created_at);
            }
        }
        assert forall|i: int, j: int| 0 <= i < j < out.len() implies out[i].created_at
            <= out[j].created_at by {
            if j < inner.len() {
                assert(out[i] == inner[i] && out[j] == inner[j]);
            } else {
                assert(out[i] == inner[i] && out[j] == y);
            }
        }
        assert forall|k: int|
            0 <= k < out.len() implies (#[trigger] out[k] == x || s.contains(out[k])) by {
            if k < inner.len() {
                assert(out[k] == inner[k]);
                if inner[k] != x {
                    assert(t.contains(inner[k]));
                    let w = choose|w: int| 0 <= w < t.len() && t[w] == inner[k];
                    assert(s[w] == t[w]);
                }
            } else {
                assert(out[k] == y);
                assert(s[s.len() - 1] == y);
            }
        }
    }
}

/// The sort is sorted.
pub proof fn lemma_sort_by_created_sorted(s: Seq<EntryV>)
    ensures
        sorted_by_created(sort_by_created(s)),
    decreases s.len(),
{
    if s.len() == 0 {
    } else {
        lemma_sort_by_created_sorted(s.drop_last());
        lemma_insert_by_created_sorted(sort_by_created(s.drop_last()), s.last());
    }
}

/// On a sorted sequence, inserting at the boundary position `j` (every
/// earlier key not greater, every later key greater) is what
/// `insert_by_created` does.
pub proof fn lemma_insert_by_created_at(s: Seq<EntryV>, x: EntryV, j: int)
    requires
        sorted_by_created(s),
        0 <= j <= s.len(),
        forall|k: int| 0 <= k < j ==> (#[trigger] s[k]).created_at <= x.created_at,
        forall|k: int| j <= k < s.len() ==> (#[trigger] s[k]).created_at > x.created_at,
    ensures
        insert_by_created(s, x) == s.insert(j, x),
    decreases s.len(),
{
    if s.len() == 0 {
        assert(insert_by_created(s, x) =~= s.insert(0, x));
    } else if s.last().created_at <= x.created_at {
        assert(j == s.len());
        assert(s.push(x) =~= s.insert(j, x));
    } else {
        assert(j < s.len());
        let t = s.drop_last();
        assert forall|i2: int, j2: int| 0 <= i2 < j2 < t.len() implies t[i2].created_at
            <= t[j2].created_at by {
            assert(s[i2] == t[i2] && s[j2] == t[j2]);
        }
        assert forall|k: int| 0 <= k < j implies (#[trigger] t[k]).created_at <= x.created_at by {
            assert(t[k] == s[k]);
        }
        assert forall|k: int| j <= k < t.len() implies (#[trigger] t[k]).created_at
            > x.created_at by {
            assert(t[k] == s[k]);
        }
        lemma_insert_by_created_at(t, x, j);
        assert(insert_by_created(t, x).push(s.last()) =~= s.insert(j, x));
    }
}

/// Descending by `timestamp`.
pub open spec fn sorted_by_ts_desc(s: Seq<ToolCallV>) -> bool {
    forall|i: int, j: int| 0 <= i < j < s.len() ==> s[i].timestamp >= s[j].timestamp
}

/// Inserts `x` after every element whose `timestamp` is not smaller,
/// so elements with equal keys keep their existing order.
pub open spec fn insert_by_ts_desc(s: Seq<ToolCallV>, x: ToolCallV) -> Seq<ToolCallV>
    decreases s.len(),
{
    if s.len() == 0 {
        seq![x]
    } else if s.last().timestamp >= x.timestamp {
        s.push(x)
    } else {
        insert_by_ts_desc(s.drop_last(), x).push(s.last())
    }
}

/// Stable sort of the tool calls by `timestamp`, descending.
pub open spec fn sort_by_ts_desc(s: Seq<ToolCallV>) -> Seq<ToolCallV>
    decreases s.len(),
{
    if s.len() == 0 {
        Seq::empty()
    } else {
        insert_by_ts_desc(sort_by_ts_desc(s.drop_last()), s.last())
    }
}

/// Inserting keeps the sequence sorted; the result holds the old
/// elements plus `x`.
pub proof fn lemma_insert_by_ts_desc_sorted(s: Seq<ToolCallV>, x: ToolCallV)
    requires
        sorted_by_ts_desc(s),
    ensures
        sorted_by_ts_desc(insert_by_ts_desc(s, x)),
        insert_by_ts_desc(s, x).len() == s.len() + 1,
        forall|k: int|
            0 <= k < insert_by_ts_desc(s, x).len() ==> (#[trigger] insert_by_ts_desc(s, x)[k] == x
                || s.contains(insert_by_ts_desc(s, x)[k])),
    decreases s.len(),
{
    let out = insert_by_ts_desc(s, x);
    if s.len() == 0 {
    } else if s.last().timestamp >= x.timestamp {
        assert(out == s.push(x));
        assert forall|i: int, j: int| 0 <= i < j < out.len() implies out[i].timestamp
            >= out[j].timestamp by {
            if j == out.len() - 1 {
                assert(s[i].timestamp >= s[s.len() - 1].timestamp);
            }
        }
        assert forall|k: int|
            0 <= k < out.len() implies (#[trigger] out[k] == x || s.contains(out[k])) by {
            if k < s.len() {
                assert(out[k] == s[k]);
            }
        }
    } else {
        let t = s.drop_last();
        let y = s.last();
        assert forall|i: int, j: int| 0 <= i < j < t.len() implies t[i].timestamp
            >= t[j].timestamp by {
            assert(s[i] == t[i] && s[j] == t[j]);
        }
        lemma_insert_by_ts_desc_sorted(t, x);
        let inner = insert_by_ts_desc(t, x);
        assert(out == inner.push(y));
        assert forall|k: int| 0 <= k < inner.len() implies inner[k].timestamp >= y.timestamp by {
            if inner[k] == x {
            } else {
                assert(t.contains(inner[k]));
                let w = choose|w: int| 0 <= w < t.len() && t[w] == inner[k];
                assert(s[w] == t[w]);
                assert(s[w].timestamp >= s[s.len() - 1].timestamp);
            }
        }
        assert forall|i: int, j: int| 0 <= i < j < out.len() implies out[i].timestamp
            >= out[j].timestamp by {
            if j < inner.len() {
                assert(out[i] == inner[i] && out[j] == inner[j]);
            } else {
                assert(out[i] == inner[i] && out[j] == y);
            }
        }
        assert forall|k: int|
            0 <= k < out.len() implies (#[trigger] out[k] == x || s.contains(out[k])) by {
            if k < inner.len() {
                assert(out[k] == inner[k]);
                if inner[k] != x {
                    assert(t.contains(inner[k]));
                    let w = choose|w: int| 0 <= w < t.len() && t[w] == inner[k];
                    assert(s[w] == t[w]);
                }
            } else {
                assert(out[k] == y);
                assert(s[s.len() - 1] == y);
            }
        }
    }
}

/// The sort is sorted.
pub proof fn lemma_sort_by_ts_desc_sorted(s: Seq<ToolCallV>)
    ensures
        sorted_by_ts_desc(sort_by_ts_desc(s)),
    decreases s.len(),
{
    if s.len() == 0 {
    } else {
        lemma_sort_by_ts_desc_sorted(s.drop_last());
        lemma_insert_by_ts_desc_sorted(sort_by_ts_desc(s.drop_last()), s.last());
    }
}

/// On a sorted sequence, inserting at the boundary position `j` (every
/// earlier key not smaller, every later key smaller) is what
/// `insert_by_ts_desc` does.
pub proof fn lemma_insert_by_ts_desc_at(s: Seq<ToolCallV>, x: ToolCallV, j: int)
    requires
        sorted_by_ts_desc(s),
        0 <= j <= s.len(),
        forall|k: int| 0 <= k < j ==> (#[trigger] s[k]).timestamp >= x.timestamp,
        forall|k: int| j <= k < s.len() ==> (#[trigger] s[k]).timestamp < x.timestamp,
    ensures
        insert_by_ts_desc(s, x) == s.insert(j, x),
    decreases s.len(),
{
    if s.len() == 0 {
        assert(insert_by_ts_desc(s, x) =~= s.insert(0, x));
    } else if s.last().timestamp >= x.timestamp {
        assert(j == s.len());
        assert(s.push(x) =~= s.insert(j, x));
    } else {
        assert(j < s.len());
        let t = s.drop_last();
        assert forall|i2: int, j2: int| 0 <= i2 < j2 < t.len() implies t[i2].timestamp
            >= t[j2].timestamp by {
            assert(s[i2] == t[i2] && s[j2] == t[j2]);
        }
        assert forall|k: int| 0 <= k < j implies (#[trigger] t[k]).timestamp >= x.timestamp by {
            assert(t[k] == s[k]);
        }
        assert forall|k: int| j <= k < t.len() implies (#[trigger] t[k]).timestamp
            < x.timestamp by {
            assert(t[k] == s[k]);
        }
        lemma_insert_by_ts_desc_at(t, x, j);
        assert(insert_by_ts_desc(t, x).push(s.last()) =~= s.insert(j, x));
    }
}


/// Inserting adds exactly the new element to the contents.
pub proof fn lemma_insert_by_created_multiset(s: Seq<EntryV>, x: EntryV)
    ensures
        insert_by_created(s, x).to_multiset() =~= s.to_multiset().insert(x),
    decreases s.len(),
{
    broadcast use vstd::seq_lib::group_to_multiset_ensures;

    if s.len() == 0 {
        assert(insert_by_created(s, x) =~= Seq::<EntryV>::empty().push(x));
        assert(Seq::<EntryV>::empty().push(x).to_multiset() =~= Seq::<
            EntryV,
        >::empty().to_multiset().insert(x));
    } else if s.last().created_at <= x.created_at {
        assert(s.push(x).to_multiset() =~= s.to_multiset().insert(x));
    } else {
        let t = s.drop_last();
        let y = s.last();
        lemma_insert_by_created_multiset(t, x);
        let inner = insert_by_created(t, x);
        assert(insert_by_created(s, x) == inner.push(y));
        assert(inner.push(y).to_multiset() =~= inner.to_multiset().insert(y));
        assert(s =~= t.push(y));
        assert(t.push(y).to_multiset() =~= t.to_multiset().insert(y));
        assert(inner.to_multiset().insert(y) =~= t.to_multiset().insert(x).insert(y));
        assert(t.to_multiset().insert(x).insert(y) =~= t.to_multiset().insert(y).insert(x));
    }
}

/// The sorted listing holds exactly the stored entries: sorting
/// changes order alone, never content.
pub proof fn lemma_sort_by_created_multiset(s: Seq<EntryV>)
    ensures
        sort_by_created(s).to_multiset() =~= s.to_multiset(),
    decreases s.len(),
{
    broadcast use vstd::seq_lib::group_to_multiset_ensures;

    if s.len() == 0 {
        assert(sort_by_created(s) =~= s);
    } else {
        let t = s.drop_last();
        lemma_sort_by_created_multiset(t);
        lemma_insert_by_created_multiset(sort_by_created(t), s.last());
        assert(s =~= t.push(s.last()));
        assert(t.push(s.last()).to_multiset() =~= t.to_multiset().insert(s.last()));
    }
}

/// Inserting adds exactly the new element to the contents.
pub proof fn lemma_insert_by_ts_desc_multiset(s: Seq<ToolCallV>, x: ToolCallV)
    ensures
        insert_by_ts_desc(s, x).to_multiset() =~= s.to_multiset().insert(x),
    decreases s.len(),
{
    broadcast use vstd::seq_lib::group_to_multiset_ensures;

    if s.len() == 0 {
        assert(insert_by_ts_desc(s, x) =~= Seq::<ToolCallV>::empty().push(x));
        assert(Seq::<ToolCallV>::empty().push(x).to_multiset() =~= Seq::<
            ToolCallV,
        >::empty().to_multiset().insert(x));
    } else if s.last().timestamp >= x.timestamp {
        assert(s.push(x).to_multiset() =~= s.to_multiset().insert(x));
    } else {
        let t = s.drop_last();
        let y = s.last();
        lemma_insert_by_ts_desc_multiset(t, x);
        let inner = insert_by_ts_desc(t, x);
        assert(insert_by_ts_desc(s, x) == inner.push(y));
        assert(inner.push(y).to_multiset() =~= inner.to_multiset().insert(y));
        assert(s =~= t.push(y));
        assert(t.push(y).to_multiset() =~= t.to_multiset().insert(y));
        assert(inner.to_multiset().insert(y) =~= t.to_multiset().insert(x).insert(y));
        assert(t.to_multiset().insert(x).insert(y) =~= t.to_multiset().insert(y).insert(x));
    }
}

/// The sorted log holds exactly the stored calls: sorting changes
/// order alone, never content.
pub proof fn lemma_sort_by_ts_desc_multiset(s: Seq<ToolCallV>)
    ensures
        sort_by_ts_desc(s).to_multiset() =~= s.to_multiset(),
    decreases s.len(),
{
    broadcast use vstd::seq_lib::group_to_multiset_ensures;

    if s.len() == 0 {
        assert(sort_by_ts_desc(s) =~= s);
    } else {
        let t = s.drop_last();
        lemma_sort_by_ts_desc_multiset(t);
        lemma_insert_by_ts_desc_multiset(sort_by_ts_desc(t), s.last());
        assert(s =~= t.push(s.last()));
        assert(t.push(s.last()).to_multiset() =~= t.to_multiset().insert(s.last()));
    }
}

} // verus!
