use vstd::prelude::*;
use vstd::hash_map::StringHashMap;
use vstd::string::*;
use crate::building::{
    added_children, depth_counts, depth_counts_fit, entries_at_depth, lemma_depth_counts_count,
    lemma_entries_at_depth_positive, lemma_fresh_build_well_formed, lemma_fresh_parent_link, lemma_map_after_fresh_names,
    linked_to, lookups_in_range, map_after, parent_lookup, walk_ordered_depths,
};
use crate::paths::{get_parent_path, parent_path_of};
use crate::sorting::sort_by_count;
use crate::forest::{
    acyclic_below, children_in_range_below, counts_fit, counts_zero_below, has_child,
    in_first_subtrees, in_subtree, keyed, lemma_acyclic_below_sub, lemma_acyclic_same,
    lemma_child_in_subtree, lemma_child_is_below, lemma_child_subtree_smaller,
    lemma_counts_from_zero, lemma_has_child_same, lemma_keyed_elements, lemma_members_in_range,
    lemma_resort, lemma_same_lists_same_sets, lemma_same_sets_chain, lemma_subtree_bounds,
    lemma_subtree_root, lemma_subtree_same, lemma_subtree_trans, lemma_subtree_via_children,
    lemma_subtrees_disjoint, lemma_tally_frame, same_but_children, same_but_count,
    same_child_lists, same_child_sets, sorted_below, sorted_children_of, subtree_count,
    subtree_set, tally, tree_below, weight_in, well_formed, lemma_count_is_weight,
};

verus! {

/// One directory of the walked tree.
#[derive(Clone, Debug)]
pub struct Branch {
    /// Full path of the directory.
    pub name: String,
    /// Number of direct subdirectories reported by the walk.
    pub num_of_children: i32,
    /// Number of all subdirectories below, filled in by `dive_to_count`.
    pub num_of_all_children: i32,
    /// Indices of the direct children in the branch table.
    pub children: Vec<usize>,
    /// Index of the parent in the branch table (the root is its own parent).
    pub parent: usize,
    /// Depth of the directory below the walk's root.
    pub depth: usize,
}

impl Branch {
    /// An empty, unnamed branch at depth 0 whose parent is index 0.
    pub fn new() -> (b: Self)
        ensures
            b.name@ == Seq::<char>::empty(),
            b.num_of_children == 0,
            b.num_of_all_children == 0,
            b.children@ == Seq::<usize>::empty(),
            b.parent == 0,
            b.depth == 0,
    {
        Branch {
            name: String::new(),
            num_of_children: 0,
            num_of_all_children: 0,
            parent: 0,
            children: Vec::new(),
            depth: 0,
        }
    }
}

/// What the directory walk reports of one directory.
pub struct DirRecord {
    /// Full path of the directory.
    pub path: String,
    /// Depth below the walk's root.
    pub depth: usize,
    /// Number of direct subdirectories.
    pub num_of_children: i32,
}

/// The walked directory tree: its branch table, the index of every path in
/// it, and the number of directories per depth.
pub struct Tree {
    pub path: String,
    /// `siblings[d]` counts the directories at depth `d`.
    pub siblings: Vec<i32>,
    pub branches: Vec<Branch>,
    /// Index in `branches` of every recorded path.
    pub hash_map: StringHashMap<usize>,
}

impl Tree {
    /// An empty tree named `path`.
    pub fn new() -> (t: Self)
        ensures
            t.path@ == seq!['p', 'a', 't', 'h'],
            t.siblings@ == Seq::<i32>::empty(),
            t.branches@ == Seq::<Branch>::empty(),
            t.hash_map@ == Map::<Seq<char>, usize>::empty(),
    {
        proof {
            reveal_strlit("path");
        }
        Tree {
            path: String::from_str("path"),
            siblings: Vec::new(),
            branches: Vec::new(),
            hash_map: StringHashMap::new(),
        }
    }

    /// Records the walked directories, in walk order: entry `k` becomes
    /// branch `branches.len() + k` and is recorded under index `k`; from the
    /// second entry on, the index recorded for its parent path (once the entry
    /// itself is recorded) receives `k` as a child and becomes the new
    /// branch's parent. The per-depth counts get a new slot for depth 0 first.
    pub fn construct(&mut self, entries: &Vec<DirRecord>)
        requires
            lookups_in_range(old(self).hash_map@, entries@, old(self).branches@.len() as int),
            depth_counts_fit(old(self).siblings@.push(0), entries@),
        ensures
            final(self).path@ == old(self).path@,
            final(self).hash_map@ == map_after(
                old(self).hash_map@,
                entries@,
                entries@.len() as int,
            ),
            final(self).siblings@ == depth_counts(
                old(self).siblings@.push(0),
                entries@,
                entries@.len() as int,
            ),
            final(self).branches@.len() == old(self).branches@.len() + entries@.len(),
            forall|j: int|
                0 <= j < old(self).branches@.len() ==> same_but_children(
                    old(self).branches@[j],
                    #[trigger] final(self).branches@[j],
                ) && final(self).branches@[j].children@ == old(self).branches@[j].children@
                    + added_children(old(self).hash_map@, entries@, j, entries@.len() as int),
            forall|k: int|
                0 <= k < entries@.len() ==> {
                    let b = #[trigger] final(self).branches@[old(self).branches@.len() + k];
                    &&& b.name@ == entries@[k].path@
                    &&& b.num_of_children == entries@[k].num_of_children
                    &&& b.num_of_all_children == 0
                    &&& b.depth == entries@[k].depth
                    &&& b.parent == if k >= 1 && parent_lookup(
                        old(self).hash_map@,
                        entries@,
                        k,
                    ) is Some {
                        parent_lookup(old(self).hash_map@, entries@, k)->0
                    } else {
                        0
                    }
                    &&& b.children@ == added_children(
                        old(self).hash_map@,
                        entries@,
                        old(self).branches@.len() + k,
                        entries@.len() as int,
                    )
                },
            old(self).branches@.len() == 0 && old(self).hash_map@ == Map::<Seq<char>, usize>::empty()
                && (forall|k: int| 1 <= k < entries@.len() ==> #[trigger] entries@[k].path@ != seq!['/'])
                ==> well_formed(final(self).branches@),
            old(self).branches@.len() == 0 && old(self).hash_map@ == Map::<Seq<char>, usize>::empty()
                ==> forall|key: Seq<char>| #[trigger] final(self).hash_map@.contains_key(key)
                ==> final(self).hash_map@[key] < final(self).branches@.len()
                && final(self).branches@[final(self).hash_map@[key] as int].name@ == key,
            old(self).branches@.len() == 0 && old(self).hash_map@ == Map::<Seq<char>, usize>::empty()
                ==> forall|k: int| 0 <= k < entries@.len()
                ==> final(self).hash_map@.contains_key(#[trigger] entries@[k].path@),
            old(self).branches@.len() == 0 && old(self).hash_map@ == Map::<Seq<char>, usize>::empty()
                ==> forall|k: int, i: int|
                #![trigger final(self).branches@[k], entries@[i]]
                1 <= k < entries@.len() && 0 <= i <= k && entries@[i].path@ == parent_path_of(
                    entries@[k].path@,
                ) && (forall|t: int| i < t <= k ==> entries@[t].path@ != entries@[i].path@)
                    ==> final(self).branches@[k].parent == i && final(self).branches@[i].children@.contains(
                    k as usize,
                ),
            old(self).siblings@.len() == 0 && walk_ordered_depths(entries@) ==> forall|d: int|
                0 <= d < final(self).siblings@.len() ==> #[trigger] final(self).siblings@[d]
                == entries_at_depth(entries@, entries@.len() as int, d),
            old(self).siblings@.len() == 0 && walk_ordered_depths(entries@) ==> forall|k: int|
                0 <= k < entries@.len() ==> #[trigger] entries@[k].depth < final(self).siblings@.len(),
    {
        let ghost ob = self.branches@;
        let ghost om = self.hash_map@;
        let ghost os = self.siblings@;
        let ghost es = entries@;
        let mut id_index: usize = 0;
        self.siblings.push(0);
        let n = entries.len();
        while id_index < n
            invariant
                n == es.len(),
                es == entries@,
                lookups_in_range(om, es, ob.len() as int),
                depth_counts_fit(os.push(0), es),
                0 <= id_index <= n,
                self.path@ == old(self).path@,
                self.hash_map@ == map_after(om, es, id_index as int),
                self.siblings@ == depth_counts(os.push(0), es, id_index as int),
                self.branches@.len() == ob.len() + id_index,
                forall|j: int|
                    0 <= j < ob.len() ==> same_but_children(ob[j], #[trigger] self.branches@[j])
                        && self.branches@[j].children@ == ob[j].children@ + added_children(
                        om,
                        es,
                        j,
                        id_index as int,
                    ),
                forall|k: int|
                    0 <= k < id_index ==> {
                        let b = #[trigger] self.branches@[ob.len() + k];
                        &&& b.name@ == es[k].path@
                        &&& b.num_of_children == es[k].num_of_children
                        &&& b.num_of_all_children == 0
                        &&& b.depth == es[k].depth
                        &&& b.parent == if k >= 1 && parent_lookup(om, es, k) is Some {
                            parent_lookup(om, es, k)->0
                        } else {
                            0
                        }
                        &&& b.children@ == added_children(om, es, ob.len() + k, id_index as int)
                    },
            decreases n - id_index,
        {
            let entry = &entries[id_index];
            let ghost k0 = id_index as int;
            let ghost pre = self.branches@;
            self.branches.push(
                Branch {
                    name: entry.path.clone(),
                    num_of_children: entry.num_of_children,
                    num_of_all_children: 0,
                    children: Vec::new(),
                    parent: 0,
                    depth: entry.depth,
                },
            );
            self.hash_map.insert(entry.path.clone(), id_index);
            let ghost pushed = self.branches@;
            if id_index > 0 {
                let parent_path = get_parent_path(entry.path.as_str());
                let found: Option<usize> = match self.hash_map.get(parent_path.as_str()) {
                    Some(index) => Some(*index),
                    None => None,
                };
                proof {
                    assert(self.hash_map@ == map_after(om, es, id_index + 1));
                    assert(found == parent_lookup(om, es, id_index as int));
                    assert(1 <= id_index < es.len());
                }
                match found {
                    None => {},
                    Some(index) => {
                        self.branches[index].children.push(id_index);
                        let last = self.branches.len() - 1;
                        self.branches[last].parent = index;
                    },
                }
            }
            proof {
                let bs = self.branches@;
                let last = ob.len() + k0;
                assert(bs.len() == last + 1);
                assert(bs.len() == self.branches.len());
                assert forall|j: int| 0 <= j < bs.len() && j != last implies same_but_children(
                    pushed[j],
                    #[trigger] bs[j],
                ) && bs[j].children@ == pushed[j].children@ + if linked_to(om, es, k0, j) {
                    seq![k0 as usize]
                } else {
                    Seq::<usize>::empty()
                } by {
                    if linked_to(om, es, k0, j) {
                        assert(bs[j].children@ =~= pushed[j].children@.push(k0 as usize));
                    } else {
                        assert(bs[j].children@ =~= pushed[j].children@);
                    }
                }
                assert({
                    let b = bs[last];
                    &&& b.name@ == es[k0].path@
                    &&& b.num_of_children == es[k0].num_of_children
                    &&& b.num_of_all_children == 0
                    &&& b.depth == es[k0].depth
                    &&& b.parent == if k0 >= 1 && parent_lookup(om, es, k0) is Some {
                        parent_lookup(om, es, k0)->0
                    } else {
                        0
                    }
                    &&& b.children@ == if linked_to(om, es, k0, last) {
                        seq![k0 as usize]
                    } else {
                        Seq::<usize>::empty()
                    }
                });
                assert forall|j: int| 0 <= j < ob.len() implies same_but_children(
                    ob[j],
                    #[trigger] bs[j],
                ) && bs[j].children@ == ob[j].children@ + added_children(om, es, j, k0 + 1) by {
                    assert(pushed[j] == pre[j]);
                    assert(same_but_children(pushed[j], bs[j]));
                    if linked_to(om, es, k0, j) {
                        assert(bs[j].children@ =~= ob[j].children@ + added_children(om, es, j, k0 + 1));
                    } else {
                        assert(bs[j].children@ =~= ob[j].children@ + added_children(om, es, j, k0 + 1));
                    }
                }
                assert forall|k: int| 0 <= k < k0 + 1 implies {
                    let b = #[trigger] bs[ob.len() + k];
                    &&& b.name@ == es[k].path@
                    &&& b.num_of_children == es[k].num_of_children
                    &&& b.num_of_all_children == 0
                    &&& b.depth == es[k].depth
                    &&& b.parent == if k >= 1 && parent_lookup(om, es, k) is Some {
                        parent_lookup(om, es, k)->0
                    } else {
                        0
                    }
                    &&& b.children@ == added_children(om, es, ob.len() + k, k0 + 1)
                } by {
                    if k < k0 {
                        assert(pushed[ob.len() + k] == pre[ob.len() + k]);
                        assert(bs[ob.len() + k].children@ =~= added_children(om, es, ob.len() + k, k0 + 1));
                    } else {
                        lemma_added_children_later(om, es, ob.len() as int, last, k0);
                        assert(bs[ob.len() + k].children@ =~= added_children(om, es, ob.len() + k, k0 + 1));
                    }
                }
            }
            id_index += 1;
            proof {
                assert(depth_counts(os.push(0), es, k0) == self.siblings@);
            }
            if self.siblings.len() <= entry.depth {
                self.siblings.push(1);
            } else {
                let count = self.siblings[entry.depth];
                self.siblings.set(entry.depth, count + 1);
            }
        }
        proof {
            if ob.len() == 0 && om == Map::<Seq<char>, usize>::empty() && (forall|k: int|
                1 <= k < es.len() ==> #[trigger] es[k].path@ != seq!['/']) {
                let bs = self.branches@;
                assert forall|k: int| 0 <= k < es.len() implies (#[trigger] bs[k]).parent == if k >= 1
                    && parent_lookup(Map::empty(), es, k) is Some {
                    parent_lookup(Map::empty(), es, k)->0
                } else {
                    0
                } && bs[k].children@ == added_children(Map::empty(), es, k, es.len() as int) by {
                    assert(bs[ob.len() + k] == bs[k]);
                }
                lemma_fresh_build_well_formed(es, bs);
            }
            if ob.len() == 0 && om == Map::<Seq<char>, usize>::empty() {
                let bs = self.branches@;
                assert forall|k: int, i: int|
                    #![trigger bs[k], es[i]]
                    1 <= k < es.len() && 0 <= i <= k && es[i].path@ == parent_path_of(es[k].path@) && (
                    forall|t: int| i < t <= k ==> es[t].path@ != es[i].path@) implies bs[k].parent == i
                    && bs[i].children@.contains(k as usize) by {
                    lemma_fresh_parent_link(es, k, i);
                    assert(bs[ob.len() + k] == bs[k]);
                    assert(bs[ob.len() + i] == bs[i]);
                }
            }
            if ob.len() == 0 && om == Map::<Seq<char>, usize>::empty() {
                lemma_map_after_fresh_names(es, es.len() as int);
                let bs = self.branches@;
                assert forall|key: Seq<char>| #[trigger] self.hash_map@.contains_key(key) implies self.hash_map@[key]
                    < bs.len() && bs[self.hash_map@[key] as int].name@ == key by {
                    let t = self.hash_map@[key] as int;
                    assert(bs[ob.len() + t] == bs[t]);
                }
            }
            if os.len() == 0 && walk_ordered_depths(es) {
                assert(os.push(0) =~= seq![0i32]);
                lemma_depth_counts_count(es, es.len() as int);
                lemma_entries_at_depth_positive(es, es.len() as int);
            }
        }
    }
}

/// No entry before `k` links under an index past the branches that exist before `k`.
proof fn lemma_added_children_later(
    om: Map<Seq<char>, usize>,
    es: Seq<DirRecord>,
    old_len: int,
    j: int,
    k: int,
)
    requires
        lookups_in_range(om, es, old_len),
        old_len + k <= j <= usize::MAX,
        0 <= old_len,
        0 <= k <= es.len(),
    ensures
        added_children(om, es, j, k) == Seq::<usize>::empty(),
    decreases k,
{
    if k > 0 {
        lemma_added_children_later(om, es, old_len, j, k - 1);
        if k - 1 >= 1 {
            assert(parent_lookup(om, es, k - 1) matches Some(v) ==> v < old_len + (k - 1) + 1);
        }
    }
}

/// Number of `true` flags in `flags`.
pub open spec fn dirs_in(flags: Seq<bool>) -> int
    decreases flags.len(),
{
    if flags.len() == 0 {
        0
    } else {
        dirs_in(flags.drop_last()) + if flags.last() {
            1int
        } else {
            0int
        }
    }
}

/// Every directory flag counts once, wherever it stands in the walk: one more
/// entry adds one directory when it is a directory and none otherwise.
pub proof fn lemma_dirs_in_push(flags: Seq<bool>, is_dir: bool)
    ensures
        dirs_in(flags.push(is_dir)) == dirs_in(flags) + if is_dir {
            1int
        } else {
            0int
        },
{
    assert(flags.push(is_dir).drop_last() =~= flags);
}

/// A walk of `n` entries sees between 0 and `n` directories.
pub proof fn lemma_dirs_in_bounds(flags: Seq<bool>)
    ensures
        0 <= dirs_in(flags) <= flags.len(),
    decreases flags.len(),
{
    if flags.len() > 0 {
        lemma_dirs_in_bounds(flags.drop_last());
    }
}

/// Number of subdirectories of a directory, given for each entry of a walk of
/// depth one (the directory itself first, then its entries) whether it is a
/// directory: the directories seen, less the directory itself.
pub fn count_directories(entry_is_dir: &Vec<bool>) -> (cnt: i32)
    requires
        dirs_in(entry_is_dir@) <= i32::MAX + 1,
    ensures
        cnt == dirs_in(entry_is_dir@) - 1,
{
    let mut cnt: i32 = -1;
    let mut i: usize = 0;
    proof {
        assert(entry_is_dir@.take(0) =~= Seq::<bool>::empty());
    }
    while i < entry_is_dir.len()
        invariant
            0 <= i <= entry_is_dir@.len(),
            dirs_in(entry_is_dir@) <= i32::MAX + 1,
            cnt == dirs_in(entry_is_dir@.take(i as int)) - 1,
        decreases entry_is_dir@.len() - i,
    {
        proof {
            assert(entry_is_dir@.take(i + 1).drop_last() =~= entry_is_dir@.take(i as int));
            lemma_dirs_in_prefix(entry_is_dir@, i + 1);
        }
        if entry_is_dir[i] {
            cnt += 1;
        }
        i += 1;
    }
    proof {
        assert(entry_is_dir@.take(i as int) =~= entry_is_dir@);
    }
    cnt
}

/// A prefix of the walk sees no more directories than the whole walk.
proof fn lemma_dirs_in_prefix(flags: Seq<bool>, k: int)
    requires
        0 <= k <= flags.len(),
    ensures
        dirs_in(flags.take(k)) <= dirs_in(flags),
    decreases flags.len(),
{
    if k < flags.len() {
        assert(flags.drop_last().take(k) =~= flags.take(k));
        lemma_dirs_in_prefix(flags.drop_last(), k);
    } else {
        assert(flags.take(k) =~= flags);
    }
}

/// Whether the branch table is a forest in the sense of `well_formed`; from any
/// node of such a table `dive_to_count` and `dive_to_sort` may start (see
/// `lemma_well_formed_tree`).
pub fn is_well_formed(branches: &Vec<Branch>) -> (r: bool)
    ensures
        r == well_formed(branches@),
{
    let ghost bs = branches@;
    let n = branches.len();
    let mut p: usize = 0;
    while p < n
        invariant
            n == bs.len(),
            bs == branches@,
            0 <= p <= n,
            forall|q: int, k: int|
                0 <= q < p && 0 <= k < bs[q].children@.len() ==> q < #[trigger] bs[q].children@[k]
                    < bs.len() && bs[bs[q].children@[k] as int].parent == q,
            forall|q: int| 0 <= q < p ==> (#[trigger] bs[q].children@).no_duplicates(),
        decreases n - p,
    {
        let m = branches[p].children.len();
        let mut k: usize = 0;
        while k < m
            invariant
                n == bs.len(),
                bs == branches@,
                0 <= p < n,
                m == bs[p as int].children@.len(),
                0 <= k <= m,
                forall|t: int|
                    0 <= t < k ==> p < #[trigger] bs[p as int].children@[t] < bs.len()
                        && bs[bs[p as int].children@[t] as int].parent == p,
                forall|a: int, b: int|
                    0 <= a < k && 0 <= b < m && a != b ==> bs[p as int].children@[a]
                        != bs[p as int].children@[b],
            decreases m - k,
        {
            let c = branches[p].children[k];
            if !(p < c && c < n) {
                return false;
            }
            if branches[c].parent != p {
                return false;
            }
            let mut t: usize = 0;
            while t < m
                invariant
                    n == bs.len(),
                    bs == branches@,
                    0 <= p < n,
                    m == bs[p as int].children@.len(),
                    0 <= k < m,
                    c == bs[p as int].children@[k as int],
                    0 <= t <= m,
                    forall|b: int| 0 <= b < t && b != k ==> c != bs[p as int].children@[b],
                decreases m - t,
            {
                if t != k && branches[p].children[t] == c {
                    return false;
                }
                t += 1;
            }
            k += 1;
        }
        p += 1;
    }
    true
}

/// Before `dive_to_count` descends into the `k`-th child `c` of `index`, the
/// table `cur` still matches `old` on the subtree of `c`, which is a smaller
/// tree on which the counts fit.
proof fn lemma_count_descend(old: Seq<Branch>, cur: Seq<Branch>, index: int, k: int, c: int)
    requires
        tree_below(old, index),
        counts_fit(old, index),
        0 <= index < old.len(),
        0 <= k < old[index].children@.len(),
        c == old[index].children@[k] as int,
        c < old.len(),
        same_child_lists(old, cur),
        forall|j: int|
            0 <= j < old.len() && j != index ==> (#[trigger] cur[j]).num_of_all_children == if in_first_subtrees(
                old,
                index,
                k,
                j,
            ) {
                subtree_count(old, j)
            } else {
                old[j].num_of_all_children as int
            },
    ensures
        has_child(old, index, c),
        tree_below(cur, c),
        counts_fit(cur, c),
        subtree_set(cur, c) == subtree_set(old, c),
        subtree_set(old, c).len() < subtree_set(old, index).len(),
        !in_subtree(old, c, index),
        forall|j: int| #[trigger] in_subtree(cur, c, j) == in_subtree(old, c, j),
        forall|j: int|
            #[trigger] in_subtree(old, c, j) ==> in_subtree(old, index, j) && !in_first_subtrees(
                old,
                index,
                k,
                j,
            ) && subtree_count(cur, j) == subtree_count(old, j),
{
    assert(has_child(old, index, c));
    lemma_subtree_root(old, index);
    lemma_child_subtree_smaller(old, index, index, c);
    lemma_same_lists_same_sets(old, cur);
    lemma_subtree_same(old, cur, c);
    assert forall|i: int| #[trigger] in_subtree(old, c, i) implies in_subtree(old, index, i)
        && !in_first_subtrees(old, index, k, i) && old[i].num_of_all_children == cur[i].num_of_all_children by {
        lemma_child_in_subtree(old, index, c, i);
        lemma_subtree_bounds(old, c, i);
        if in_first_subtrees(old, index, k, i) {
            let m = choose|m: int| 0 <= m < k && #[trigger] in_subtree(old, old[index].children@[m] as int, i);
            let cm = old[index].children@[m] as int;
            lemma_subtree_bounds(old, cm, i);
            assert(has_child(old, index, cm));
            assert(old[index].children@[m] != old[index].children@[k]);
            lemma_subtrees_disjoint(old, index, index, cm, c, i);
        }
    }
    assert forall|j: int, kk: int| in_subtree(old, c, j) implies #[trigger] tally(cur, j, kk) == tally(old, j, kk) by {
        assert forall|i: int| #[trigger] in_subtree(old, j, i) implies old[i].num_of_all_children
            == cur[i].num_of_all_children by {
            lemma_subtree_trans(old, c, j, i);
        }
        lemma_tally_frame(old, cur, j, kk);
    }
    assert forall|j: int| #[trigger] in_subtree(old, c, j) implies subtree_count(cur, j) == subtree_count(old, j) by {
        lemma_subtree_bounds(old, c, j);
        assert(cur[j].children@ == old[j].children@);
        assert(tally(cur, j, cur[j].children@.len() as int) == tally(old, j, old[j].children@.len() as int));
    }
    lemma_child_is_below(old, index, c);
    lemma_acyclic_below_sub(old, index, c);
    lemma_acyclic_same(old, cur, c);
    assert forall|p: int, a: int, b: int|
        in_subtree(cur, c, p) && 0 <= a < b < cur[p].children@.len() && cur[p].children@[a] < cur.len()
            implies #[trigger] cur[p].children@[a] != #[trigger] cur[p].children@[b] by {
        assert(in_subtree(old, c, p));
        assert(in_subtree(old, index, p));
        lemma_subtree_bounds(old, c, p);
        assert(cur[p].children@ == old[p].children@);
        assert(old[p].children@[a] != old[p].children@[b]);
    }
    assert forall|p1: int, p2: int, x: int|
        in_subtree(cur, c, p1) && in_subtree(cur, c, p2) && #[trigger] has_child(cur, p1, x)
            && #[trigger] has_child(cur, p2, x) implies p1 == p2 by {
        lemma_has_child_same(old, cur, p1, x);
        lemma_has_child_same(old, cur, p2, x);
        assert(in_subtree(old, c, p1) && in_subtree(old, c, p2));
        assert(in_subtree(old, index, p1) && in_subtree(old, index, p2));
        assert(has_child(old, p1, x) && has_child(old, p2, x));
    }
}

/// Adds up the subdirectories below `index`: every node of its subtree ends up
/// with its stored count plus, for each directory below it, that directory's
/// stored count and one, and the new count at `index` plus one is returned (0
/// for an index outside the table). Started on counts of zero, every node below
/// `index` gets the number of its descendants and the size of the subtree is
/// returned.
pub fn dive_to_count(index: usize, branches: &mut Vec<Branch>) -> (total: i32)
    requires
        tree_below(old(branches)@, index as int),
        counts_fit(old(branches)@, index as int),
    ensures
        final(branches)@.len() == old(branches)@.len(),
        total == if index < old(branches)@.len() {
            subtree_count(old(branches)@, index as int) + 1
        } else {
            0
        },
        forall|j: int|
            0 <= j < old(branches)@.len() ==> same_but_count(
                #[trigger] old(branches)@[j],
                final(branches)@[j],
            ),
        forall|j: int|
            0 <= j < old(branches)@.len() ==> (#[trigger] final(branches)@[j]).num_of_all_children
                == if in_subtree(old(branches)@, index as int, j) {
                subtree_count(old(branches)@, j)
            } else {
                old(branches)@[j].num_of_all_children as int
            },
        forall|j: int|
            #[trigger] in_subtree(old(branches)@, index as int, j) ==> final(branches)@[j].num_of_all_children
                == old(branches)@[j].num_of_all_children + weight_in(
                old(branches)@,
                subtree_set(old(branches)@, j).remove(j),
                old(branches)@.len() as int,
            ),
        index < old(branches)@.len() && counts_zero_below(old(branches)@, index as int) ==> total
            == subtree_set(old(branches)@, index as int).len() && forall|j: int|
            #[trigger] in_subtree(old(branches)@, index as int, j) ==> final(branches)@[j].num_of_all_children
                == subtree_set(old(branches)@, j).len() - 1,
    decreases subtree_set(old(branches)@, index as int).len(),
{
    let ghost old_bs = branches@;
    if branches.len() > index {
        let children = branches[index].children.clone();
        assert(children@ =~= old_bs[index as int].children@);
        proof {
            lemma_subtree_root(old_bs, index as int);
        }
        let mut k: usize = 0;
        while k < children.len()
            invariant
                0 <= k <= children.len(),
                old_bs == old(branches)@,
                index < old_bs.len(),
                children@ == old_bs[index as int].children@,
                tree_below(old_bs, index as int),
                counts_fit(old_bs, index as int),
                in_subtree(old_bs, index as int, index as int),
                branches@.len() == old_bs.len(),
                forall|j: int|
                    0 <= j < old_bs.len() ==> same_but_count(#[trigger] old_bs[j], branches@[j]),
                branches@[index as int].num_of_all_children == tally(old_bs, index as int, k as int),
                forall|j: int|
                    0 <= j < old_bs.len() && j != index ==> (#[trigger] branches@[j]).num_of_all_children
                        == if in_first_subtrees(old_bs, index as int, k as int, j) {
                        subtree_count(old_bs, j)
                    } else {
                        old_bs[j].num_of_all_children as int
                    },
            decreases children.len() - k,
        {
            let child_index = children[k];
            let ghost c = child_index as int;
            let ghost cur = branches@;
            if branches.len() > child_index {
                proof {
                    assert(same_child_lists(old_bs, cur)) by {
                        assert forall|p: int| 0 <= p < old_bs.len() implies (#[trigger] old_bs[p].children@)
                            == cur[p].children@ by {
                            assert(same_but_count(old_bs[p], cur[p]));
                        }
                    }
                    lemma_count_descend(old_bs, cur, index as int, k as int, c);
                    assert(old_bs[index as int].children@[k as int] as int == c);
                    assert(tally(old_bs, index as int, k + 1) == tally(old_bs, index as int, k as int)
                        + subtree_count(old_bs, c) + 1);
                    assert(i32::MIN <= tally(old_bs, index as int, k + 1) <= i32::MAX);
                }
                let r = dive_to_count(child_index, branches);
                let ghost nxt = branches@;
                proof {
                    assert(in_subtree(old_bs, c, c)) by {
                        lemma_subtree_root(old_bs, c);
                    }
                    assert(r == subtree_count(old_bs, c) + 1);
                    assert(!in_subtree(cur, c, index as int));
                }
                let cur_count = branches[index].num_of_all_children;
                branches[index].num_of_all_children = cur_count + r;
                proof {
                    let fin = branches@;
                    assert forall|j: int| 0 <= j < old_bs.len() implies same_but_count(
                        #[trigger] old_bs[j],
                        fin[j],
                    ) by {
                        assert(same_but_count(old_bs[j], cur[j]));
                        assert(same_but_count(cur[j], nxt[j]));
                    }
                    assert forall|j: int| 0 <= j < old_bs.len() && j != index implies (
                    #[trigger] fin[j]).num_of_all_children == if in_first_subtrees(
                        old_bs,
                        index as int,
                        k + 1,
                        j,
                    ) {
                        subtree_count(old_bs, j)
                    } else {
                        old_bs[j].num_of_all_children as int
                    } by {
                        assert(fin[j] == nxt[j]);
                        if in_subtree(old_bs, c, j) {
                            assert(in_subtree(old_bs, old_bs[index as int].children@[k as int] as int, j));
                            assert(in_first_subtrees(old_bs, index as int, k + 1, j));
                        } else {
                            if in_first_subtrees(old_bs, index as int, k + 1, j) {
                                let m = choose|m: int|
                                    0 <= m < k + 1 && #[trigger] in_subtree(
                                        old_bs,
                                        old_bs[index as int].children@[m] as int,
                                        j,
                                    );
                                assert(m != k);
                                assert(in_first_subtrees(old_bs, index as int, k as int, j));
                            }
                        }
                    }
                }
            } else {
                proof {
                    assert(tally(old_bs, index as int, k + 1) == tally(old_bs, index as int, k as int));
                    assert forall|j: int| 0 <= j < old_bs.len() && j != index implies in_first_subtrees(
                        old_bs,
                        index as int,
                        k + 1,
                        j,
                    ) == in_first_subtrees(old_bs, index as int, k as int, j) by {
                        if in_first_subtrees(old_bs, index as int, k + 1, j) {
                            let m = choose|m: int|
                                0 <= m < k + 1 && #[trigger] in_subtree(
                                    old_bs,
                                    old_bs[index as int].children@[m] as int,
                                    j,
                                );
                            if m == k {
                                lemma_subtree_bounds(old_bs, c, j);
                            }
                            assert(in_first_subtrees(old_bs, index as int, k as int, j));
                        }
                    }
                }
            }
            k += 1;
        }
        proof {
            assert(subtree_count(old_bs, index as int) < i32::MAX);
            assert forall|j: int| 0 <= j < old_bs.len() && j != index implies in_subtree(
                old_bs,
                index as int,
                j,
            ) == in_first_subtrees(old_bs, index as int, children.len() as int, j) by {
                lemma_subtree_via_children(old_bs, index as int, j);
            }
        }
        let total = branches[index].num_of_all_children + 1;
        proof {
            assert forall|j: int| #[trigger] in_subtree(old_bs, index as int, j) implies branches@[j].num_of_all_children
                == old_bs[j].num_of_all_children + weight_in(
                old_bs,
                subtree_set(old_bs, j).remove(j),
                old_bs.len() as int,
            ) by {
                lemma_subtree_bounds(old_bs, index as int, j);
                lemma_count_is_weight(old_bs, index as int, j);
                if j != index {
                    assert(in_first_subtrees(old_bs, index as int, children.len() as int, j));
                }
            }
            if counts_zero_below(old_bs, index as int) {
                lemma_counts_from_zero(old_bs, index as int, index as int);
                assert forall|j: int| #[trigger] in_subtree(old_bs, index as int, j) implies branches@[j].num_of_all_children
                    == subtree_set(old_bs, j).len() - 1 by {
                    lemma_subtree_bounds(old_bs, index as int, j);
                    lemma_counts_from_zero(old_bs, index as int, j);
                    if j != index {
                        assert(in_first_subtrees(old_bs, index as int, children.len() as int, j));
                    }
                }
            }
        }
        total
    } else {
        proof {
            assert forall|j: int| !#[trigger] in_subtree(old_bs, index as int, j) by {
                if in_subtree(old_bs, index as int, j) {
                    lemma_subtree_bounds(old_bs, index as int, j);
                }
            }
        }
        0
    }
}

/// What `dive_to_sort` needs at `index` carries over to every table with the
/// same child sets.
proof fn lemma_sort_pre_same(old: Seq<Branch>, cur: Seq<Branch>, index: int, c: int)
    requires
        acyclic_below(old, index),
        children_in_range_below(old, index),
        same_child_sets(old, cur),
        0 <= index < old.len(),
        has_child(old, index, c),
    ensures
        acyclic_below(cur, c),
        children_in_range_below(cur, c),
        subtree_set(cur, c) == subtree_set(old, c),
        subtree_set(old, c).len() < subtree_set(old, index).len(),
        !in_subtree(old, c, index),
        forall|j: int| #[trigger] in_subtree(cur, c, j) == in_subtree(old, c, j),
        forall|j: int| #[trigger] in_subtree(old, c, j) ==> in_subtree(old, index, j),
{
    lemma_subtree_root(old, index);
    lemma_child_subtree_smaller(old, index, index, c);
    lemma_child_is_below(old, index, c);
    lemma_acyclic_below_sub(old, index, c);
    lemma_acyclic_same(old, cur, c);
    lemma_subtree_same(old, cur, c);
    assert forall|j: int| #[trigger] in_subtree(old, c, j) implies in_subtree(old, index, j) by {
        lemma_subtree_trans(old, index, c, j);
    }
    assert forall|p: int, k: int| in_subtree(cur, c, p) && 0 <= k < cur[p].children@.len() implies #[trigger] cur[
        p
    ].children@[k] < cur.len() by {
        assert(in_subtree(old, c, p));
        assert(in_subtree(old, index, p));
        lemma_subtree_bounds(old, index, p);
        assert forall|d: usize| #[trigger] cur[p].children@.contains(d) implies old[p].children@.contains(d) by {
            assert(old[p].children@.contains(d) <==> cur[p].children@.contains(d));
        }
        lemma_members_in_range(old, index, p, cur[p].children@);
    }
}

/// Sorts, at every node of the subtree below `index`, the list of children by
/// their subtree counts (smallest first, equal counts kept in their order).
pub fn dive_to_sort(index: usize, branches: &mut Vec<Branch>)
    requires
        acyclic_below(old(branches)@, index as int),
        children_in_range_below(old(branches)@, index as int),
    ensures
        sorted_below(old(branches)@, index as int, final(branches)@),
        acyclic_below(final(branches)@, index as int),
        children_in_range_below(final(branches)@, index as int),
    decreases subtree_set(old(branches)@, index as int).len(),
{
    let ghost old_bs = branches@;
    if branches.len() > index && branches[index].children.len() != 0 {
        proof {
            lemma_subtree_root(old_bs, index as int);
        }
        let mut sort_vec: Vec<(usize, i32)> = Vec::new();
        let n = branches[index].children.len();
        let ghost ch = old_bs[index as int].children@;
        let mut i: usize = 0;
        while i < n
            invariant
                branches@ == old_bs,
                index < old_bs.len(),
                ch == old_bs[index as int].children@,
                n == ch.len(),
                children_in_range_below(old_bs, index as int),
                in_subtree(old_bs, index as int, index as int),
                0 <= i <= n,
                sort_vec@ == keyed(old_bs, ch.take(i as int)),
            decreases n - i,
        {
            proof {
                assert(ch[i as int] < old_bs.len());
            }
            if branches[index].children[i] < branches.len() {
                let c = branches[index].children[i];
                sort_vec.push((c, branches[c].num_of_all_children));
            }
            proof {
                assert(keyed(old_bs, ch.take(i + 1)) =~= keyed(old_bs, ch.take(i as int)).push(
                    (ch[i as int], old_bs[ch[i as int] as int].num_of_all_children),
                ));
            }
            i += 1;
        }
        proof {
            assert(ch.take(n as int) =~= ch);
        }
        let ghost unsorted = sort_vec@;
        if sort_vec.len() > 0 {
            sort_by_count(&mut sort_vec);
            let m = sort_vec.len();
            let mut i: usize = 0;
            while i < m
                invariant
                    m == sort_vec@.len(),
                    m == n,
                    n == ch.len(),
                    index < old_bs.len(),
                    0 <= i <= m,
                    branches@.len() == old_bs.len(),
                    forall|j: int| 0 <= j < old_bs.len() && j != index ==> #[trigger] branches@[j] == old_bs[j],
                    same_but_children(old_bs[index as int], branches@[index as int]),
                    branches@[index as int].children@.len() == n,
                    forall|t: int| 0 <= t < i ==> #[trigger] branches@[index as int].children@[t] == sort_vec@[t].0,
                decreases m - i,
            {
                branches[index].children[i] = sort_vec[i].0;
                i += 1;
            }
        }
        let ghost mid = branches@;
        let ghost new_ch = mid[index as int].children@;
        proof {
            let sorted = sort_vec@;
            assert(new_ch.len() == ch.len());
            assert forall|t: int| 0 <= t < sorted.len() implies keyed(old_bs, new_ch)[t]
                == #[trigger] sorted[t] by {
                assert(sorted.contains(sorted[t]));
                assert(unsorted.contains(sorted[t]));
                lemma_keyed_elements(old_bs, ch, sorted[t]);
            }
            assert(keyed(old_bs, new_ch) =~= sorted);
            assert(sorted_children_of(old_bs, ch, new_ch));
            assert forall|c: usize| #[trigger] new_ch.contains(c) <==> ch.contains(c) by {
                let kc = (c, old_bs[c as int].num_of_all_children);
                if new_ch.contains(c) {
                    let t = choose|t: int| 0 <= t < new_ch.len() && new_ch[t] == c;
                    assert(keyed(old_bs, new_ch)[t] == kc);
                    assert(sorted[t] == kc);
                    assert(sorted.contains(kc));
                    assert(unsorted.contains(kc));
                    lemma_keyed_elements(old_bs, ch, kc);
                }
                if ch.contains(c) {
                    let t = choose|t: int| 0 <= t < ch.len() && ch[t] == c;
                    assert(keyed(old_bs, ch)[t] == kc);
                    assert(unsorted.contains(kc));
                    assert(sorted.contains(kc));
                    let u = choose|u: int| 0 <= u < sorted.len() && sorted[u] == kc;
                    assert(keyed(old_bs, new_ch)[u] == sorted[u]);
                    assert(new_ch[u] == c);
                }
            }
            assert forall|p: int, d: usize| 0 <= p < old_bs.len() implies (old_bs[p].children@.contains(d)
                <==> mid[p].children@.contains(d)) by {
                if p != index {
                    assert(mid[p] == old_bs[p]);
                }
            }
            assert(same_child_sets(old_bs, mid));
            lemma_subtree_same(old_bs, mid, index as int);
        }
        let children = branches[index].children.clone();
        assert(children@ =~= new_ch);
        let mut k: usize = 0;
        while k < children.len()
            invariant
                0 <= k <= children.len(),
                old_bs == old(branches)@,
                index < old_bs.len(),
                ch == old_bs[index as int].children@,
                children@ == new_ch,
                new_ch == mid[index as int].children@,
                acyclic_below(old_bs, index as int),
                children_in_range_below(old_bs, index as int),
                in_subtree(old_bs, index as int, index as int),
                same_child_sets(old_bs, mid),
                forall|c: usize| #[trigger] new_ch.contains(c) <==> ch.contains(c),
                sorted_children_of(old_bs, ch, new_ch),
                branches@.len() == old_bs.len(),
                same_child_sets(old_bs, branches@),
                forall|j: int|
                    0 <= j < old_bs.len() ==> same_but_children(#[trigger] old_bs[j], branches@[j]),
                branches@[index as int].children@ == new_ch,
                forall|j: int|
                    0 <= j < old_bs.len() && j != index ==> if in_first_subtrees(mid, index as int, k as int, j) {
                        sorted_children_of(old_bs, old_bs[j].children@, (#[trigger] branches@[j]).children@)
                    } else {
                        branches@[j].children@ == old_bs[j].children@
                    },
            decreases children.len() - k,
        {
            let child_index = children[k];
            let ghost c = child_index as int;
            let ghost cur = branches@;
            proof {
                assert(new_ch.contains(child_index));
                assert(ch.contains(child_index));
                let t = choose|t: int| 0 <= t < ch.len() && ch[t] == child_index;
                assert(ch[t] < old_bs.len());
                assert(has_child(old_bs, index as int, c));
                lemma_sort_pre_same(old_bs, cur, index as int, c);
            }
            if branches.len() > child_index {
                dive_to_sort(child_index, branches);
                proof {
                    let nxt = branches@;
                    lemma_same_sets_chain(old_bs, cur, nxt);
                    lemma_subtree_same(old_bs, mid, c);
                    assert(!in_subtree(cur, c, index as int));
                    assert forall|j: int| 0 <= j < old_bs.len() implies same_but_children(
                        #[trigger] old_bs[j],
                        nxt[j],
                    ) by {
                        assert(same_but_children(old_bs[j], cur[j]));
                        assert(same_but_children(cur[j], nxt[j]));
                    }
                    assert forall|j: int| 0 <= j < old_bs.len() && j != index implies if in_first_subtrees(
                        mid,
                        index as int,
                        k + 1,
                        j,
                    ) {
                        sorted_children_of(old_bs, old_bs[j].children@, (#[trigger] nxt[j]).children@)
                    } else {
                        nxt[j].children@ == old_bs[j].children@
                    } by {
                        if in_subtree(cur, c, j) {
                            assert(in_subtree(mid, mid[index as int].children@[k as int] as int, j));
                            assert(in_first_subtrees(mid, index as int, k + 1, j));
                            assert(in_subtree(old_bs, index as int, j));
                            let l0 = old_bs[j].children@;
                            let l1 = cur[j].children@;
                            let l2 = nxt[j].children@;
                            assert forall|d: usize| #[trigger] l1.contains(d) implies l0.contains(d) by {
                                assert(old_bs[j].children@.contains(d) <==> cur[j].children@.contains(d));
                            }
                            assert forall|d: usize| #[trigger] l2.contains(d) implies l0.contains(d) by {
                                assert(old_bs[j].children@.contains(d) <==> nxt[j].children@.contains(d));
                            }
                            lemma_members_in_range(old_bs, index as int, j, l1);
                            lemma_members_in_range(old_bs, index as int, j, l2);
                            assert forall|i: int| 0 <= i < old_bs.len() implies (#[trigger] old_bs[i]).num_of_all_children
                                == cur[i].num_of_all_children by {
                                assert(same_but_children(old_bs[i], cur[i]));
                            }
                            assert(sorted_children_of(cur, l1, l2));
                            lemma_resort(old_bs, cur, l0, l1, l2);
                        } else {
                            assert(nxt[j].children@ == cur[j].children@);
                            if in_first_subtrees(mid, index as int, k + 1, j) {
                                let m = choose|m: int|
                                    0 <= m < k + 1 && #[trigger] in_subtree(
                                        mid,
                                        mid[index as int].children@[m] as int,
                                        j,
                                    );
                                assert(m != k);
                                assert(in_first_subtrees(mid, index as int, k as int, j));
                            }
                        }
                    }
                }
            }
            k += 1;
        }
        proof {
            let fin = branches@;
            lemma_subtree_same(old_bs, mid, index as int);
            assert forall|j: int| 0 <= j < old_bs.len() implies if in_subtree(old_bs, index as int, j) {
                sorted_children_of(old_bs, old_bs[j].children@, (#[trigger] fin[j]).children@)
            } else {
                fin[j].children@ == old_bs[j].children@
            } by {
                if j != index {
                    lemma_subtree_via_children(mid, index as int, j);
                }
            }
            lemma_acyclic_same(old_bs, fin, index as int);
            lemma_sort_pre_same_root(old_bs, fin, index as int);
        }
    } else {
        proof {
            if index < old_bs.len() {
                assert forall|j: int| 0 <= j < old_bs.len() && j != index implies !in_subtree(
                    old_bs,
                    index as int,
                    j,
                ) by {
                    lemma_subtree_via_children(old_bs, index as int, j);
                }
                assert(keyed(old_bs, old_bs[index as int].children@) =~= Seq::<(usize, i32)>::empty());
            } else {
                assert forall|j: int| !#[trigger] in_subtree(old_bs, index as int, j) by {
                    if in_subtree(old_bs, index as int, j) {
                        lemma_subtree_bounds(old_bs, index as int, j);
                    }
                }
            }
            assert forall|p: int, d: usize| 0 <= p < old_bs.len() implies (old_bs[p].children@.contains(d)
                <==> branches@[p].children@.contains(d)) by {}
        }
    }
}

/// Child lists with the same members keep every child below `index` inside the table.
proof fn lemma_sort_pre_same_root(old: Seq<Branch>, cur: Seq<Branch>, index: int)
    requires
        children_in_range_below(old, index),
        same_child_sets(old, cur),
    ensures
        children_in_range_below(cur, index),
{
    lemma_subtree_same(old, cur, index);
    assert forall|p: int, k: int| in_subtree(cur, index, p) && 0 <= k < cur[p].children@.len() implies #[trigger] cur[
        p
    ].children@[k] < cur.len() by {
        assert(in_subtree(old, index, p));
        lemma_subtree_bounds(old, index, p);
        assert forall|d: usize| #[trigger] cur[p].children@.contains(d) implies old[p].children@.contains(d) by {
            assert(old[p].children@.contains(d) <==> cur[p].children@.contains(d));
        }
        lemma_members_in_range(old, index, p, cur[p].children@);
    }
}

} // verus!
