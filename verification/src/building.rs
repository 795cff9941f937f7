use vstd::prelude::*;
use crate::database::DirRecord;
use crate::paths::{lemma_parent_path_fixed_point, parent_path_of};
use crate::database::Branch;
use crate::forest::well_formed;

verus! {

/// The path table after recording the first `k` walked entries, entry `t`
/// under index `t`, later entries overriding earlier ones.
pub open spec fn map_after(
    om: Map<Seq<char>, usize>,
    es: Seq<DirRecord>,
    k: int,
) -> Map<Seq<char>, usize>
    decreases k,
{
    if k <= 0 {
        om
    } else {
        map_after(om, es, k - 1).insert(es[k - 1].path@, (k - 1) as usize)
    }
}

/// The index the parent path of entry `k` is found under, once entry `k`
/// itself has been recorded.
pub open spec fn parent_lookup(om: Map<Seq<char>, usize>, es: Seq<DirRecord>, k: int) -> Option<
    usize,
> {
    let m = map_after(om, es, k + 1);
    let pp = parent_path_of(es[k].path@);
    if m.contains_key(pp) {
        Some(m[pp])
    } else {
        None
    }
}

/// Entry `k` is linked under the branch at index `j`.
pub open spec fn linked_to(om: Map<Seq<char>, usize>, es: Seq<DirRecord>, k: int, j: int) -> bool {
    1 <= k && parent_lookup(om, es, k) == Some(j as usize)
}

/// The ids, in increasing order, among the first `k` entries that get linked under index `j`.
pub open spec fn added_children(
    om: Map<Seq<char>, usize>,
    es: Seq<DirRecord>,
    j: int,
    k: int,
) -> Seq<usize>
    decreases k,
{
    if k <= 0 {
        Seq::empty()
    } else if linked_to(om, es, k - 1, j) {
        added_children(om, es, j, k - 1).push((k - 1) as usize)
    } else {
        added_children(om, es, j, k - 1)
    }
}

/// Per-depth directory counts after the first `k` entries: a depth one past
/// the end opens a new slot with 1, a known depth is counted up.
pub open spec fn depth_counts(s: Seq<i32>, es: Seq<DirRecord>, k: int) -> Seq<i32>
    decreases k,
{
    if k <= 0 {
        s
    } else {
        let t = depth_counts(s, es, k - 1);
        let d = es[k - 1].depth as int;
        if t.len() <= d {
            t.push(1)
        } else {
            t.update(d, (t[d] + 1) as i32)
        }
    }
}

/// No per-depth count is bumped past `i32::MAX` while the entries are counted.
pub open spec fn depth_counts_fit(s: Seq<i32>, es: Seq<DirRecord>) -> bool {
    forall|k: int|
        0 <= k < es.len() ==> (es[k].depth < #[trigger] depth_counts(s, es, k).len()
            ==> depth_counts(s, es, k)[es[k].depth as int] < i32::MAX)
}

/// Every count grows by at most one per entry.
proof fn lemma_depth_counts_bound(s: Seq<i32>, es: Seq<DirRecord>, k: int, bound: int)
    requires
        0 <= k <= es.len(),
        forall|d: int| 0 <= d < s.len() ==> #[trigger] s[d] <= bound,
        0 <= bound,
        bound + es.len() < i32::MAX,
    ensures
        depth_counts(s, es, k).len() >= s.len(),
        forall|d: int| 0 <= d < depth_counts(s, es, k).len() ==> #[trigger] depth_counts(s, es, k)[d] <= bound + k,
    decreases k,
{
    if k > 0 {
        lemma_depth_counts_bound(s, es, k - 1, bound);
        let t = depth_counts(s, es, k - 1);
        assert forall|d: int| 0 <= d < depth_counts(s, es, k).len() implies #[trigger] depth_counts(s, es, k)[d] <= bound + k by {
            if d < t.len() {
                assert(t[d] <= bound + k - 1);
            }
        }
    }
}

/// The counts stay inside `i32` when every starting count, plus the number of
/// entries, does.
pub proof fn lemma_depth_counts_fit(s: Seq<i32>, es: Seq<DirRecord>, bound: int)
    requires
        forall|d: int| 0 <= d < s.len() ==> #[trigger] s[d] <= bound,
        0 <= bound,
        bound + es.len() < i32::MAX,
    ensures
        depth_counts_fit(s, es),
{
    assert forall|k: int| 0 <= k < es.len() implies (es[k].depth < #[trigger] depth_counts(s, es, k).len()
        ==> depth_counts(s, es, k)[es[k].depth as int] < i32::MAX) by {
        lemma_depth_counts_bound(s, es, k, bound);
    }
}

/// Every lookup the build makes lands on a branch that exists at that moment.
pub open spec fn lookups_in_range(
    om: Map<Seq<char>, usize>,
    es: Seq<DirRecord>,
    old_len: int,
) -> bool {
    forall|k: int|
        1 <= k < es.len() ==> (#[trigger] parent_lookup(om, es, k) matches Some(v) ==> v < old_len
            + k + 1)
}

/// Starting from an empty table, every recorded index is below the number of recorded entries.
pub proof fn lemma_map_after_fresh(es: Seq<DirRecord>, k: int)
    requires
        0 <= k <= es.len(),
        es.len() <= usize::MAX,
    ensures
        forall|key: Seq<char>|
            #[trigger] map_after(Map::empty(), es, k).contains_key(key) ==> map_after(
                Map::empty(),
                es,
                k,
            )[key] < k,
    decreases k,
{
    if k > 0 {
        lemma_map_after_fresh(es, k - 1);
        let prev = map_after(Map::empty(), es, k - 1);
        assert forall|key: Seq<char>| #[trigger] map_after(Map::empty(), es, k).contains_key(key) implies map_after(
            Map::empty(),
            es,
            k,
        )[key] < k by {
            if key != es[k - 1].path@ {
                assert(prev.contains_key(key));
            }
        }
    }
}

/// Starting from an empty table, entry `k` finds its parent at an index no
/// greater than `k`, and at `k` itself exactly when its path is `/`.
pub proof fn lemma_fresh_lookup(es: Seq<DirRecord>, k: int)
    requires
        0 <= k < es.len(),
        es.len() <= usize::MAX,
    ensures
        parent_lookup(Map::empty(), es, k) matches Some(v) ==> v <= k && (v == k <==> es[k].path@
            == seq!['/']),
{
    lemma_map_after_fresh(es, k);
    lemma_parent_path_fixed_point(es[k].path@);
    let pp = parent_path_of(es[k].path@);
    let prev = map_after(Map::empty(), es, k);
    assert(map_after(Map::empty(), es, k + 1) == prev.insert(es[k].path@, k as usize));
    if pp != es[k].path@ && prev.contains_key(pp) {
        assert(prev[pp] < k);
    }
}

/// Recording from an empty table, a path recorded among the first `n` entries
/// is found under the last of them that carries it.
proof fn lemma_map_after_last(es: Seq<DirRecord>, n: int, i: int)
    requires
        es.len() <= usize::MAX,
        0 <= i < n <= es.len(),
        forall|t: int| i < t < n ==> es[t].path@ != es[i].path@,
    ensures
        map_after(Map::empty(), es, n).contains_key(es[i].path@),
        map_after(Map::empty(), es, n)[es[i].path@] == i as usize,
    decreases n,
{
    if n - 1 > i {
        lemma_map_after_last(es, n - 1, i);
        assert(es[n - 1].path@ != es[i].path@);
    }
}

/// An entry linked under `j` is among the ids linked under `j` once it has been added.
proof fn lemma_added_children_has(om: Map<Seq<char>, usize>, es: Seq<DirRecord>, j: int, k: int, n: int)
    requires
        linked_to(om, es, k, j),
        0 <= k < n,
    ensures
        added_children(om, es, j, n).contains(k as usize),
    decreases n,
{
    let cur = added_children(om, es, j, n);
    if n - 1 == k {
        assert(cur[cur.len() - 1] == k as usize);
    } else {
        lemma_added_children_has(om, es, j, k, n - 1);
        let prev = added_children(om, es, j, n - 1);
        let t = choose|t: int| 0 <= t < prev.len() && prev[t] == k as usize;
        if linked_to(om, es, n - 1, j) {
            assert(cur[t] == prev[t]);
        }
    }
}

/// Building from an empty table, an entry whose parent path was recorded at
/// or before the entry itself is linked under the last entry recorded with
/// that path, whatever the depths of the entries.
pub proof fn lemma_fresh_parent_link(es: Seq<DirRecord>, k: int, i: int)
    requires
        es.len() <= usize::MAX,
        1 <= k < es.len(),
        0 <= i <= k,
        es[i].path@ == parent_path_of(es[k].path@),
        forall|t: int| i < t <= k ==> es[t].path@ != es[i].path@,
    ensures
        parent_lookup(Map::empty(), es, k) == Some(i as usize),
        added_children(Map::empty(), es, i, es.len() as int).contains(k as usize),
{
    lemma_map_after_last(es, k + 1, i);
    lemma_added_children_has(Map::empty(), es, i, k, es.len() as int);
}

/// Building from an empty table never looks up a branch that does not exist yet.
pub proof fn lemma_fresh_lookups_in_range(es: Seq<DirRecord>)
    requires
        es.len() <= usize::MAX,
    ensures
        lookups_in_range(Map::empty(), es, 0),
{
    assert forall|k: int| 1 <= k < es.len() implies (#[trigger] parent_lookup(Map::empty(), es, k) matches Some(
        v,
    ) ==> v < 0 + k + 1) by {
        lemma_fresh_lookup(es, k);
    }
}

/// The ids linked under `j` are linked under `j`, below `k`, and increasing.
pub proof fn lemma_added_children_facts(
    om: Map<Seq<char>, usize>,
    es: Seq<DirRecord>,
    j: int,
    k: int,
)
    requires
        0 <= k <= usize::MAX + 1,
    ensures
        forall|i: int|
            0 <= i < added_children(om, es, j, k).len() ==> linked_to(
                om,
                es,
                #[trigger] added_children(om, es, j, k)[i] as int,
                j,
            ) && added_children(om, es, j, k)[i] < k,
        forall|a: int, b: int|
            0 <= a < b < added_children(om, es, j, k).len() ==> added_children(om, es, j, k)[a]
                < added_children(om, es, j, k)[b],
    decreases k,
{
    if k > 0 {
        lemma_added_children_facts(om, es, j, k - 1);
        let prev = added_children(om, es, j, k - 1);
        if linked_to(om, es, k - 1, j) {
            let cur = prev.push((k - 1) as usize);
            assert(cur == added_children(om, es, j, k));
            assert forall|i: int| 0 <= i < cur.len() implies linked_to(
                om,
                es,
                #[trigger] cur[i] as int,
                j,
            ) && cur[i] < k by {
                if i < prev.len() {
                    assert(cur[i] == prev[i]);
                }
            }
            assert forall|a: int, b: int| 0 <= a < b < cur.len() implies cur[a] < cur[b] by {
                assert(cur[a] == prev[a]);
                if b < prev.len() {
                    assert(cur[b] == prev[b]);
                }
            }
        }
    }
}

/// A table built from scratch is a forest as long as no entry but the first is `/`.
pub proof fn lemma_fresh_build_well_formed(es: Seq<DirRecord>, bs: Seq<Branch>)
    requires
        bs.len() == es.len(),
        es.len() <= usize::MAX,
        forall|k: int| 1 <= k < es.len() ==> es[k].path@ != seq!['/'],
        forall|k: int|
            0 <= k < es.len() ==> (#[trigger] bs[k]).parent == if k >= 1 && parent_lookup(
                Map::empty(),
                es,
                k,
            ) is Some {
                parent_lookup(Map::empty(), es, k)->0
            } else {
                0
            },
        forall|k: int|
            0 <= k < es.len() ==> (#[trigger] bs[k]).children@ == added_children(
                Map::empty(),
                es,
                k,
                es.len() as int,
            ),
    ensures
        well_formed(bs),
{
    let n = es.len() as int;
    assert forall|p: int, k: int| 0 <= p < bs.len() && 0 <= k < bs[p].children@.len() implies p
        < #[trigger] bs[p].children@[k] < bs.len() && bs[bs[p].children@[k] as int].parent
        == p by {
        assert(bs[p].children@ == added_children(Map::empty(), es, p, n));
        lemma_added_children_facts(Map::empty(), es, p, n);
        let t = bs[p].children@[k] as int;
        assert(linked_to(Map::empty(), es, t, p));
        lemma_fresh_lookup(es, t);
        assert(bs[t].parent == p);
    }
    assert forall|p: int| 0 <= p < bs.len() implies (#[trigger] bs[p].children@).no_duplicates() by {
        assert(bs[p].children@ == added_children(Map::empty(), es, p, n));
        lemma_added_children_facts(Map::empty(), es, p, n);
    }
}

/// Number of the first `k` entries at depth `d`.
pub open spec fn entries_at_depth(es: Seq<DirRecord>, k: int, d: int) -> int
    decreases k,
{
    if k <= 0 {
        0
    } else {
        entries_at_depth(es, k - 1, d) + if es[k - 1].depth == d {
            1int
        } else {
            0int
        }
    }
}

/// The depths come in walk order: the first is 0 or 1, and every later one is
/// at most one deeper than the one before.
pub open spec fn walk_ordered_depths(es: Seq<DirRecord>) -> bool {
    &&& es.len() > 0 ==> es[0].depth <= 1
    &&& forall|k: int| 1 <= k < es.len() ==> #[trigger] es[k].depth <= es[k - 1].depth + 1
}

/// Counting from the single empty slot, the per-depth counts of walk-ordered
/// entries give, at every depth, the number of entries at that depth.
pub proof fn lemma_depth_counts_count(es: Seq<DirRecord>, k: int)
    requires
        walk_ordered_depths(es),
        0 <= k <= es.len(),
        depth_counts_fit(seq![0i32], es),
    ensures
        depth_counts(seq![0i32], es, k).len() >= 1,
        k > 0 ==> depth_counts(seq![0i32], es, k).len() >= es[k - 1].depth + 1,
        forall|d: int|
            0 <= d < depth_counts(seq![0i32], es, k).len() ==> #[trigger] depth_counts(
                seq![0i32],
                es,
                k,
            )[d] == entries_at_depth(es, k, d),
        forall|d: int| d >= depth_counts(seq![0i32], es, k).len() ==> #[trigger] entries_at_depth(es, k, d) == 0,
    decreases k,
{
    let s0 = seq![0i32];
    if k > 0 {
        lemma_depth_counts_count(es, k - 1);
        lemma_entries_at_depth_bound(es, k - 1);
        let t = depth_counts(s0, es, k - 1);
        let d = es[k - 1].depth as int;
        if k >= 2 {
            assert(es[k - 1].depth <= es[k - 2].depth + 1);
        }
        assert(d <= t.len());
        assert(d < t.len() ==> t[d] < i32::MAX);
        let nt = depth_counts(s0, es, k);
        assert forall|e: int| e >= nt.len() implies #[trigger] entries_at_depth(es, k, e) == 0 by {
            assert(entries_at_depth(es, k - 1, e) == 0);
        }
        assert forall|e: int| 0 <= e < nt.len() implies #[trigger] nt[e] == entries_at_depth(es, k, e) by {
            assert(0 <= entries_at_depth(es, k - 1, e) <= k - 1);
            if e < t.len() {
                assert(t[e] == entries_at_depth(es, k - 1, e));
            } else {
                assert(entries_at_depth(es, k - 1, e) == 0);
            }
        }
    }
}

/// Every entry counts towards its own depth.
pub proof fn lemma_entries_at_depth_positive(es: Seq<DirRecord>, k: int)
    requires
        0 <= k <= es.len(),
    ensures
        forall|t: int| 0 <= t < k ==> entries_at_depth(es, k, #[trigger] es[t].depth as int) >= 1,
    decreases k,
{
    if k > 0 {
        lemma_entries_at_depth_positive(es, k - 1);
        lemma_entries_at_depth_bound(es, k - 1);
        assert forall|t: int| 0 <= t < k implies entries_at_depth(es, k, #[trigger] es[t].depth as int) >= 1 by {
            assert(entries_at_depth(es, k - 1, es[t].depth as int) >= 0);
        }
    }
}

/// At most `k` of the first `k` entries are at any depth.
proof fn lemma_entries_at_depth_bound(es: Seq<DirRecord>, k: int)
    requires
        0 <= k <= es.len(),
    ensures
        forall|d: int| 0 <= #[trigger] entries_at_depth(es, k, d) <= k,
    decreases k,
{
    if k > 0 {
        lemma_entries_at_depth_bound(es, k - 1);
        assert forall|d: int| 0 <= #[trigger] entries_at_depth(es, k, d) <= k by {
            assert(0 <= entries_at_depth(es, k - 1, d) <= k - 1);
        }
    }
}

/// Starting from an empty table, every recorded path is recorded under the
/// index of an entry with that path, and every entry's path is recorded.
pub proof fn lemma_map_after_fresh_names(es: Seq<DirRecord>, k: int)
    requires
        0 <= k <= es.len(),
        es.len() <= usize::MAX,
    ensures
        forall|key: Seq<char>|
            #[trigger] map_after(Map::empty(), es, k).contains_key(key) ==> map_after(
                Map::empty(),
                es,
                k,
            )[key] < k && es[map_after(Map::empty(), es, k)[key] as int].path@ == key,
        forall|t: int| 0 <= t < k ==> map_after(Map::empty(), es, k).contains_key(#[trigger] es[t].path@),
    decreases k,
{
    if k > 0 {
        lemma_map_after_fresh_names(es, k - 1);
        let prev = map_after(Map::empty(), es, k - 1);
        let cur = map_after(Map::empty(), es, k);
        assert forall|key: Seq<char>| #[trigger] cur.contains_key(key) implies cur[key] < k
            && es[cur[key] as int].path@ == key by {
            if key != es[k - 1].path@ {
                assert(prev.contains_key(key));
            }
        }
        assert forall|t: int| 0 <= t < k implies cur.contains_key(#[trigger] es[t].path@) by {
            if t < k - 1 {
                assert(prev.contains_key(es[t].path@));
            }
        }
    }
}

} // verus!
