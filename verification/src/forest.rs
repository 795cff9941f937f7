use vstd::prelude::*;
use vstd::set_lib::{lemma_int_range, lemma_len_subset, lemma_set_disjoint_lens, set_int_range};
use crate::database::Branch;
use crate::sorting::{is_stable_sort_of, lemma_sorted_unique, lemma_stable_sort_trans};

verus! {

/// `b` is `a` with at most its subtree count changed.
pub open spec fn same_but_count(a: Branch, b: Branch) -> bool {
    &&& a.name@ == b.name@
    &&& a.num_of_children == b.num_of_children
    &&& a.children@ == b.children@
    &&& a.parent == b.parent
    &&& a.depth == b.depth
}

/// `b` is `a` with at most its list of children changed.
pub open spec fn same_but_children(a: Branch, b: Branch) -> bool {
    &&& a.name@ == b.name@
    &&& a.num_of_children == b.num_of_children
    &&& a.num_of_all_children == b.num_of_all_children
    &&& a.parent == b.parent
    &&& a.depth == b.depth
}

/// The branch table is a forest: every listed child lies after its parent,
/// inside the table, points back to that parent, and no list repeats a child.
pub open spec fn well_formed(bs: Seq<Branch>) -> bool {
    &&& forall|p: int, k: int|
        0 <= p < bs.len() && 0 <= k < bs[p].children@.len() ==> p < #[trigger] bs[p].children@[k]
            < bs.len()
    &&& forall|p: int, k: int|
        0 <= p < bs.len() && 0 <= k < bs[p].children@.len() ==> bs[#[trigger] bs[p].children@[k] as int].parent == p
    &&& forall|p: int| 0 <= p < bs.len() ==> (#[trigger] bs[p].children@).no_duplicates()
}

/// `c` is listed as a child of `p`, and both lie inside the table.
pub open spec fn has_child(bs: Seq<Branch>, p: int, c: int) -> bool {
    &&& 0 <= p < bs.len()
    &&& 0 <= c < bs.len()
    &&& exists|k: int| 0 <= k < bs[p].children@.len() && #[trigger] bs[p].children@[k] as int == c
}

/// `j` is reached from `root` by following exactly `n` child links inside the table.
pub open spec fn reach_in(bs: Seq<Branch>, root: int, j: int, n: nat) -> bool
    decreases n,
{
    if n == 0 {
        0 <= root < bs.len() && j == root
    } else {
        exists|c: int| #[trigger] has_child(bs, root, c) && reach_in(bs, c, j, (n - 1) as nat)
    }
}

/// `j` lies in the subtree hanging from `root` (following the children lists).
pub open spec fn in_subtree(bs: Seq<Branch>, root: int, j: int) -> bool {
    exists|n: nat| #[trigger] reach_in(bs, root, j, n)
}

/// The nodes of the subtree hanging from `root`, `root` included.
pub open spec fn subtree_set(bs: Seq<Branch>, root: int) -> Set<int> {
    Set::new(|j: int| in_subtree(bs, root, j))
}

/// No node below `index` reaches itself again by following child links.
pub open spec fn acyclic_below(bs: Seq<Branch>, index: int) -> bool {
    forall|j: int, n: nat| in_subtree(bs, index, j) && n > 0 ==> !#[trigger] reach_in(bs, j, j, n)
}

/// Below `index` the child links form a tree: no cycle, no node listed twice
/// by the same node, and no node listed by two different nodes.
pub open spec fn tree_below(bs: Seq<Branch>, index: int) -> bool {
    &&& acyclic_below(bs, index)
    &&& forall|p: int, a: int, b: int|
        in_subtree(bs, index, p) && 0 <= a < b < bs[p].children@.len() && bs[p].children@[a]
            < bs.len() ==> #[trigger] bs[p].children@[a] != #[trigger] bs[p].children@[b]
    &&& forall|p1: int, p2: int, c: int|
        in_subtree(bs, index, p1) && in_subtree(bs, index, p2) && #[trigger] has_child(bs, p1, c)
            && #[trigger] has_child(bs, p2, c) ==> p1 == p2
}

/// Every node below `index` lists only children inside the table.
pub open spec fn children_in_range_below(bs: Seq<Branch>, index: int) -> bool {
    forall|p: int, k: int|
        in_subtree(bs, index, p) && 0 <= k < bs[p].children@.len() ==> #[trigger] bs[p].children@[k]
            < bs.len()
}

/// The value `dive_to_count` leaves at `j` after handling its first `k` children:
/// the stored count plus, per child inside the table, that child's subtree total and one.
pub open spec fn tally(bs: Seq<Branch>, j: int, k: int) -> int
    decreases subtree_set(bs, j).len(), k,
{
    if !(0 <= j < bs.len()) {
        0
    } else if k <= 0 || k > bs[j].children@.len() {
        bs[j].num_of_all_children as int
    } else {
        let c = bs[j].children@[k - 1] as int;
        tally(bs, j, k - 1) + if c < bs.len() && subtree_set(bs, c).len() < subtree_set(bs, j).len() {
            tally(bs, c, bs[c].children@.len() as int) + 1
        } else {
            0
        }
    }
}

/// Total that `dive_to_count` stores at `j`.
pub open spec fn subtree_count(bs: Seq<Branch>, j: int) -> int {
    tally(bs, j, bs[j].children@.len() as int)
}

/// No intermediate sum of `dive_to_count` from `index` leaves `i32`.
pub open spec fn counts_fit(bs: Seq<Branch>, index: int) -> bool {
    &&& forall|j: int, k: int|
        in_subtree(bs, index, j) && 0 <= k <= bs[j].children@.len() ==> i32::MIN <= #[trigger] tally(
            bs,
            j,
            k,
        ) <= i32::MAX
    &&& forall|j: int| in_subtree(bs, index, j) ==> #[trigger] subtree_count(bs, j) < i32::MAX
}

/// Reached nodes lie inside the table.
pub proof fn lemma_reach_bounds(bs: Seq<Branch>, r: int, j: int, n: nat)
    requires
        reach_in(bs, r, j, n),
    ensures
        0 <= r < bs.len(),
        0 <= j < bs.len(),
    decreases n,
{
    if n > 0 {
        let c = choose|c: int| #[trigger] has_child(bs, r, c) && reach_in(bs, c, j, (n - 1) as nat);
        lemma_reach_bounds(bs, c, j, (n - 1) as nat);
    }
}

/// A subtree's nodes lie inside the table.
pub proof fn lemma_subtree_bounds(bs: Seq<Branch>, r: int, j: int)
    requires
        in_subtree(bs, r, j),
    ensures
        0 <= r < bs.len(),
        0 <= j < bs.len(),
{
    let n = choose|n: nat| #[trigger] reach_in(bs, r, j, n);
    lemma_reach_bounds(bs, r, j, n);
}

/// A node inside the table lies in its own subtree.
pub proof fn lemma_subtree_root(bs: Seq<Branch>, r: int)
    requires
        0 <= r < bs.len(),
    ensures
        in_subtree(bs, r, r),
{
    assert(reach_in(bs, r, r, 0));
}

/// A subtree is a finite set of at most as many nodes as the table has.
pub proof fn lemma_subtree_finite(bs: Seq<Branch>, r: int)
    ensures
        subtree_set(bs, r).finite(),
        subtree_set(bs, r).len() <= bs.len(),
{
    lemma_int_range(0, bs.len() as int);
    assert(subtree_set(bs, r).subset_of(set_int_range(0, bs.len() as int))) by {
        assert forall|j: int| subtree_set(bs, r).contains(j) implies set_int_range(
            0,
            bs.len() as int,
        ).contains(j) by {
            lemma_subtree_bounds(bs, r, j);
        }
    }
    lemma_len_subset(subtree_set(bs, r), set_int_range(0, bs.len() as int));
}

/// Following `n` links and then `m` more follows `n + m` links.
pub proof fn lemma_reach_trans(bs: Seq<Branch>, a: int, b: int, c: int, n: nat, m: nat)
    requires
        reach_in(bs, a, b, n),
        reach_in(bs, b, c, m),
    ensures
        reach_in(bs, a, c, n + m),
    decreases n,
{
    if n == 0 {
    } else {
        let d = choose|d: int| #[trigger] has_child(bs, a, d) && reach_in(bs, d, b, (n - 1) as nat);
        lemma_reach_trans(bs, d, b, c, (n - 1) as nat, m);
        assert(reach_in(bs, d, c, (n - 1 + m) as nat));
        assert(has_child(bs, a, d) && reach_in(bs, d, c, ((n + m) - 1) as nat));
    }
}

/// Lying below is transitive.
pub proof fn lemma_subtree_trans(bs: Seq<Branch>, r: int, m: int, j: int)
    requires
        in_subtree(bs, r, m),
        in_subtree(bs, m, j),
    ensures
        in_subtree(bs, r, j),
{
    let n1 = choose|n: nat| #[trigger] reach_in(bs, r, m, n);
    let n2 = choose|n: nat| #[trigger] reach_in(bs, m, j, n);
    lemma_reach_trans(bs, r, m, j, n1, n2);
}

/// What lies below a child lies below its parent.
pub proof fn lemma_child_in_subtree(bs: Seq<Branch>, r: int, c: int, j: int)
    requires
        has_child(bs, r, c),
        in_subtree(bs, c, j),
    ensures
        in_subtree(bs, r, j),
{
    let n = choose|n: nat| #[trigger] reach_in(bs, c, j, n);
    assert(reach_in(bs, r, j, n + 1));
}

/// A child is in its parent's subtree.
pub proof fn lemma_child_is_below(bs: Seq<Branch>, r: int, c: int)
    requires
        has_child(bs, r, c),
    ensures
        in_subtree(bs, r, c),
        reach_in(bs, r, c, 1),
{
    assert(reach_in(bs, c, c, 0));
    assert(reach_in(bs, r, c, 1));
}

/// The last link of a path of `n > 0` links comes from a node reached in `n - 1` links.
pub proof fn lemma_reach_last(bs: Seq<Branch>, a: int, x: int, n: nat) -> (q: int)
    requires
        reach_in(bs, a, x, n),
        n > 0,
    ensures
        reach_in(bs, a, q, (n - 1) as nat),
        has_child(bs, q, x),
    decreases n,
{
    let c = choose|c: int| #[trigger] has_child(bs, a, c) && reach_in(bs, c, x, (n - 1) as nat);
    if n == 1 {
        lemma_reach_bounds(bs, a, x, n);
        assert(reach_in(bs, a, a, 0));
        a
    } else {
        let q = lemma_reach_last(bs, c, x, (n - 1) as nat);
        assert(has_child(bs, a, c) && reach_in(bs, c, q, ((n - 1) - 1) as nat));
        q
    }
}

/// The nodes below `index` that lie below one of its first `k` children.
pub open spec fn in_first_subtrees(bs: Seq<Branch>, index: int, k: int, j: int) -> bool {
    exists|m: int| 0 <= m < k && #[trigger] in_subtree(bs, bs[index].children@[m] as int, j)
}

/// For a node other than `index`, lying below `index` means lying below one of its children.
pub proof fn lemma_subtree_via_children(bs: Seq<Branch>, index: int, j: int)
    requires
        0 <= index < bs.len(),
        j != index,
    ensures
        in_subtree(bs, index, j) == in_first_subtrees(bs, index, bs[index].children@.len() as int, j),
{
    if in_subtree(bs, index, j) {
        let n = choose|n: nat| #[trigger] reach_in(bs, index, j, n);
        let c = choose|c: int| #[trigger] has_child(bs, index, c) && reach_in(bs, c, j, (n - 1) as nat);
        let m = choose|m: int| 0 <= m < bs[index].children@.len() && #[trigger] bs[index].children@[m] as int == c;
        assert(in_subtree(bs, bs[index].children@[m] as int, j));
    }
    if in_first_subtrees(bs, index, bs[index].children@.len() as int, j) {
        let m = choose|m: int|
            0 <= m < bs[index].children@.len() && #[trigger] in_subtree(
                bs,
                bs[index].children@[m] as int,
                j,
            );
        let c = bs[index].children@[m] as int;
        lemma_subtree_bounds(bs, c, j);
        assert(has_child(bs, index, c));
        lemma_child_in_subtree(bs, index, c, j);
    }
}

/// Below an acyclic node, a child's subtree is strictly smaller than its parent's.
pub proof fn lemma_child_subtree_smaller(bs: Seq<Branch>, index: int, j: int, c: int)
    requires
        acyclic_below(bs, index),
        in_subtree(bs, index, j),
        has_child(bs, j, c),
    ensures
        subtree_set(bs, c).subset_of(subtree_set(bs, j)),
        subtree_set(bs, c).len() < subtree_set(bs, j).len(),
        !in_subtree(bs, c, j),
{
    assert forall|x: int| subtree_set(bs, c).contains(x) implies subtree_set(bs, j).contains(x) by {
        lemma_child_in_subtree(bs, j, c, x);
    }
    if in_subtree(bs, c, j) {
        let n = choose|n: nat| #[trigger] reach_in(bs, c, j, n);
        lemma_child_is_below(bs, j, c);
        lemma_reach_trans(bs, j, c, j, 1, n);
        assert(!reach_in(bs, j, j, 1 + n));
    }
    lemma_subtree_root(bs, j);
    lemma_subtree_finite(bs, j);
    lemma_subtree_finite(bs, c);
    assert(subtree_set(bs, c).subset_of(subtree_set(bs, j).remove(j)));
    lemma_len_subset(subtree_set(bs, c), subtree_set(bs, j).remove(j));
}

/// Acyclicity below `index` carries over to every node below it.
pub proof fn lemma_acyclic_below_sub(bs: Seq<Branch>, index: int, j: int)
    requires
        acyclic_below(bs, index),
        in_subtree(bs, index, j),
    ensures
        acyclic_below(bs, j),
{
    assert forall|x: int, n: nat| in_subtree(bs, j, x) && n > 0 implies !#[trigger] reach_in(bs, x, x, n) by {
        lemma_subtree_trans(bs, index, j, x);
    }
}

/// Every node of `a` lists the same children as in `b`, in whatever order.
pub open spec fn same_child_sets(a: Seq<Branch>, b: Seq<Branch>) -> bool {
    &&& a.len() == b.len()
    &&& forall|p: int, c: usize|
        #![trigger a[p].children@.contains(c)]
        #![trigger b[p].children@.contains(c)]
        0 <= p < a.len() ==> (a[p].children@.contains(c) <==> b[p].children@.contains(c))
}

/// Every node of `a` lists exactly the children it lists in `b`.
pub open spec fn same_child_lists(a: Seq<Branch>, b: Seq<Branch>) -> bool {
    &&& a.len() == b.len()
    &&& forall|p: int| 0 <= p < a.len() ==> (#[trigger] a[p].children@) == b[p].children@
}

/// Equal child lists give equal child sets.
pub proof fn lemma_same_lists_same_sets(a: Seq<Branch>, b: Seq<Branch>)
    requires
        same_child_lists(a, b),
    ensures
        same_child_sets(a, b),
{
    assert forall|p: int, c: usize| 0 <= p < a.len() implies (a[p].children@.contains(c)
        <==> b[p].children@.contains(c)) by {
        assert(a[p].children@ == b[p].children@);
    }
}

/// Having the same child sets is symmetric and transitive.
pub proof fn lemma_same_sets_chain(a: Seq<Branch>, b: Seq<Branch>, c: Seq<Branch>)
    requires
        same_child_sets(a, b),
        same_child_sets(b, c),
    ensures
        same_child_sets(a, c),
        same_child_sets(b, a),
{
    assert forall|p: int, d: usize| 0 <= p < a.len() implies (a[p].children@.contains(d)
        <==> c[p].children@.contains(d)) by {
        assert(a[p].children@.contains(d) <==> b[p].children@.contains(d));
        assert(b[p].children@.contains(d) <==> c[p].children@.contains(d));
    }
    assert forall|p: int, d: usize| 0 <= p < b.len() implies (b[p].children@.contains(d)
        <==> a[p].children@.contains(d)) by {
        assert(a[p].children@.contains(d) <==> b[p].children@.contains(d));
    }
}

/// Same child sets give the same child links.
pub proof fn lemma_has_child_same(a: Seq<Branch>, b: Seq<Branch>, p: int, c: int)
    requires
        same_child_sets(a, b),
    ensures
        has_child(a, p, c) == has_child(b, p, c),
{
    if has_child(a, p, c) {
        let k = choose|k: int| 0 <= k < a[p].children@.len() && #[trigger] a[p].children@[k] as int == c;
        assert(a[p].children@.contains(a[p].children@[k]));
        assert(b[p].children@.contains(c as usize));
        let k2 = choose|k2: int| 0 <= k2 < b[p].children@.len() && b[p].children@[k2] == c as usize;
        assert(b[p].children@[k2] as int == c);
    }
    if has_child(b, p, c) {
        let k = choose|k: int| 0 <= k < b[p].children@.len() && #[trigger] b[p].children@[k] as int == c;
        assert(b[p].children@.contains(b[p].children@[k]));
        assert(a[p].children@.contains(c as usize));
        let k2 = choose|k2: int| 0 <= k2 < a[p].children@.len() && a[p].children@[k2] == c as usize;
        assert(a[p].children@[k2] as int == c);
    }
}

/// Same child sets give the same paths.
pub proof fn lemma_reach_same(a: Seq<Branch>, b: Seq<Branch>, r: int, j: int, n: nat)
    requires
        same_child_sets(a, b),
    ensures
        reach_in(a, r, j, n) == reach_in(b, r, j, n),
    decreases n,
{
    if n > 0 {
        assert forall|c: int| #[trigger] has_child(a, r, c) && reach_in(a, c, j, (n - 1) as nat)
            <==> has_child(b, r, c) && reach_in(b, c, j, (n - 1) as nat) by {
            lemma_has_child_same(a, b, r, c);
            lemma_reach_same(a, b, c, j, (n - 1) as nat);
        }
        if reach_in(a, r, j, n) {
            let c = choose|c: int| #[trigger] has_child(a, r, c) && reach_in(a, c, j, (n - 1) as nat);
            assert(has_child(b, r, c) && reach_in(b, c, j, (n - 1) as nat));
        }
        if reach_in(b, r, j, n) {
            let c = choose|c: int| #[trigger] has_child(b, r, c) && reach_in(b, c, j, (n - 1) as nat);
            lemma_has_child_same(a, b, r, c);
            lemma_reach_same(a, b, c, j, (n - 1) as nat);
            assert(has_child(a, r, c) && reach_in(a, c, j, (n - 1) as nat));
        }
    }
}

/// Same child sets give the same subtrees.
pub proof fn lemma_subtree_same(a: Seq<Branch>, b: Seq<Branch>, r: int)
    requires
        same_child_sets(a, b),
    ensures
        subtree_set(a, r) == subtree_set(b, r),
        forall|j: int| #[trigger] in_subtree(a, r, j) == in_subtree(b, r, j),
{
    assert forall|j: int| #[trigger] in_subtree(a, r, j) == in_subtree(b, r, j) by {
        if in_subtree(a, r, j) {
            let n = choose|n: nat| #[trigger] reach_in(a, r, j, n);
            lemma_reach_same(a, b, r, j, n);
        }
        if in_subtree(b, r, j) {
            let n = choose|n: nat| #[trigger] reach_in(b, r, j, n);
            lemma_reach_same(a, b, r, j, n);
        }
    }
    assert(subtree_set(a, r) =~= subtree_set(b, r));
}

/// Same child sets keep a subtree acyclic.
pub proof fn lemma_acyclic_same(a: Seq<Branch>, b: Seq<Branch>, r: int)
    requires
        same_child_sets(a, b),
        acyclic_below(a, r),
    ensures
        acyclic_below(b, r),
{
    lemma_subtree_same(a, b, r);
    assert forall|j: int, n: nat| in_subtree(b, r, j) && n > 0 implies !#[trigger] reach_in(b, j, j, n) by {
        lemma_reach_same(a, b, j, j, n);
    }
}

/// With the same child lists, and the same stored counts below `r`, the tallies at `r` agree.
pub proof fn lemma_tally_frame(a: Seq<Branch>, b: Seq<Branch>, r: int, k: int)
    requires
        same_child_lists(a, b),
        forall|i: int| #[trigger] in_subtree(a, r, i) ==> a[i].num_of_all_children == b[i].num_of_all_children,
    ensures
        tally(a, r, k) == tally(b, r, k),
    decreases subtree_set(a, r).len(), k,
{
    lemma_same_lists_same_sets(a, b);
    if 0 <= r < a.len() {
        lemma_subtree_root(a, r);
        assert(a[r].children@ == b[r].children@);
        if 0 < k <= a[r].children@.len() {
            lemma_tally_frame(a, b, r, k - 1);
            let c = a[r].children@[k - 1] as int;
            lemma_subtree_same(a, b, r);
            lemma_subtree_same(a, b, c);
            if c < a.len() && subtree_set(a, c).len() < subtree_set(a, r).len() {
                assert(a[c].children@ == b[c].children@);
                assert(has_child(a, r, c));
                assert forall|i: int| #[trigger] in_subtree(a, c, i) implies a[i].num_of_all_children
                    == b[i].num_of_all_children by {
                    lemma_child_in_subtree(a, r, c, i);
                }
                lemma_tally_frame(a, b, c, a[c].children@.len() as int);
            }
        }
    }
}

/// Below a tree node, the subtrees of two different children share no node.
pub proof fn lemma_paths_meet(
    bs: Seq<Branch>,
    index: int,
    p: int,
    a: int,
    b: int,
    x: int,
    n1: nat,
    n2: nat,
)
    requires
        tree_below(bs, index),
        in_subtree(bs, index, p),
        has_child(bs, p, a),
        has_child(bs, p, b),
        a != b,
    ensures
        !(reach_in(bs, a, x, n1) && reach_in(bs, b, x, n2)),
    decreases n1 + n2,
{
    if !(reach_in(bs, a, x, n1) && reach_in(bs, b, x, n2)) {
        return;
    }
    lemma_child_is_below(bs, p, a);
    lemma_child_is_below(bs, p, b);
    lemma_subtree_trans(bs, index, p, a);
    lemma_subtree_trans(bs, index, p, b);
    if n1 == 0 && n2 == 0 {
    } else if n1 == 0 {
        let q = lemma_reach_last(bs, b, x, n2);
        assert(in_subtree(bs, b, q));
        lemma_subtree_trans(bs, index, b, q);
        assert(q == p);
        lemma_reach_trans(bs, p, b, p, 1, (n2 - 1) as nat);
        assert(!reach_in(bs, p, p, 1 + (n2 - 1) as nat));
    } else if n2 == 0 {
        let q = lemma_reach_last(bs, a, x, n1);
        assert(in_subtree(bs, a, q));
        lemma_subtree_trans(bs, index, a, q);
        assert(q == p);
        lemma_reach_trans(bs, p, a, p, 1, (n1 - 1) as nat);
        assert(!reach_in(bs, p, p, 1 + (n1 - 1) as nat));
    } else {
        let q1 = lemma_reach_last(bs, a, x, n1);
        let q2 = lemma_reach_last(bs, b, x, n2);
        assert(in_subtree(bs, a, q1));
        assert(in_subtree(bs, b, q2));
        lemma_subtree_trans(bs, index, a, q1);
        lemma_subtree_trans(bs, index, b, q2);
        assert(q1 == q2);
        lemma_paths_meet(bs, index, p, a, b, q1, (n1 - 1) as nat, (n2 - 1) as nat);
    }
}

/// Below a tree node, the subtrees of two different children are disjoint.
pub proof fn lemma_subtrees_disjoint(bs: Seq<Branch>, index: int, p: int, a: int, b: int, x: int)
    requires
        tree_below(bs, index),
        in_subtree(bs, index, p),
        has_child(bs, p, a),
        has_child(bs, p, b),
        a != b,
    ensures
        !(in_subtree(bs, a, x) && in_subtree(bs, b, x)),
{
    if in_subtree(bs, a, x) && in_subtree(bs, b, x) {
        let n1 = choose|n: nat| #[trigger] reach_in(bs, a, x, n);
        let n2 = choose|n: nat| #[trigger] reach_in(bs, b, x, n);
        lemma_paths_meet(bs, index, p, a, b, x, n1, n2);
    }
}

/// Every node of the subtree of `r` still stores a count of zero.
pub open spec fn counts_zero_below(bs: Seq<Branch>, r: int) -> bool {
    forall|i: int| #[trigger] in_subtree(bs, r, i) ==> bs[i].num_of_all_children == 0
}

/// The nodes below the first `k` children of `j`.
pub open spec fn first_subtrees_set(bs: Seq<Branch>, j: int, k: int) -> Set<int> {
    Set::new(|i: int| in_first_subtrees(bs, j, k, i))
}

/// Below an acyclic node, no node lies below one of its own children.
proof fn lemma_not_below_own_children(bs: Seq<Branch>, index: int, j: int, k: int)
    requires
        acyclic_below(bs, index),
        in_subtree(bs, index, j),
        0 <= k <= bs[j].children@.len(),
    ensures
        !in_first_subtrees(bs, j, k, j),
        first_subtrees_set(bs, j, k).subset_of(subtree_set(bs, j)),
        first_subtrees_set(bs, j, k).finite(),
{
    lemma_subtree_bounds(bs, index, j);
    if in_first_subtrees(bs, j, k, j) {
        let m = choose|m: int| 0 <= m < k && #[trigger] in_subtree(bs, bs[j].children@[m] as int, j);
        let cm = bs[j].children@[m] as int;
        lemma_subtree_bounds(bs, cm, j);
        assert(has_child(bs, j, cm));
        lemma_child_subtree_smaller(bs, index, j, cm);
    }
    assert forall|i: int| first_subtrees_set(bs, j, k).contains(i) implies subtree_set(bs, j).contains(i) by {
        let m = choose|m: int| 0 <= m < k && #[trigger] in_subtree(bs, bs[j].children@[m] as int, i);
        let cm = bs[j].children@[m] as int;
        lemma_subtree_bounds(bs, cm, i);
        assert(has_child(bs, j, cm));
        lemma_child_in_subtree(bs, j, cm, i);
    }
    lemma_subtree_finite(bs, j);
    lemma_len_subset(first_subtrees_set(bs, j, k), subtree_set(bs, j));
}

/// A subtree is its root together with the nodes below the root's children.
proof fn lemma_subtree_split(bs: Seq<Branch>, index: int, j: int)
    requires
        acyclic_below(bs, index),
        in_subtree(bs, index, j),
    ensures
        subtree_set(bs, j) == first_subtrees_set(bs, j, bs[j].children@.len() as int).insert(j),
        !first_subtrees_set(bs, j, bs[j].children@.len() as int).contains(j),
{
    let n = bs[j].children@.len() as int;
    lemma_subtree_bounds(bs, index, j);
    lemma_not_below_own_children(bs, index, j, n);
    lemma_subtree_root(bs, j);
    assert forall|i: int| subtree_set(bs, j).contains(i) <==> first_subtrees_set(bs, j, n).insert(j).contains(i) by {
        if i != j {
            lemma_subtree_via_children(bs, j, i);
        }
    }
    assert(subtree_set(bs, j) =~= first_subtrees_set(bs, j, n).insert(j));
}

/// With zero counts, the tally over the first `k` children of `j` is the number
/// of nodes below them.
proof fn lemma_tally_counts_nodes(bs: Seq<Branch>, index: int, j: int, k: int)
    requires
        tree_below(bs, index),
        in_subtree(bs, index, j),
        0 <= k <= bs[j].children@.len(),
        counts_zero_below(bs, index),
    ensures
        first_subtrees_set(bs, j, k).finite(),
        tally(bs, j, k) == first_subtrees_set(bs, j, k).len(),
    decreases subtree_set(bs, j).len(), k,
{
    lemma_subtree_bounds(bs, index, j);
    lemma_not_below_own_children(bs, index, j, k);
    let u = first_subtrees_set(bs, j, k);
    if k == 0 {
        assert(u =~= Set::<int>::empty());
    } else {
        lemma_tally_counts_nodes(bs, index, j, k - 1);
        lemma_not_below_own_children(bs, index, j, k - 1);
        let prev = first_subtrees_set(bs, j, k - 1);
        let c = bs[j].children@[k - 1] as int;
        let sc = subtree_set(bs, c);
        assert(u =~= prev + sc) by {
            assert forall|i: int| u.contains(i) <==> (prev + sc).contains(i) by {
                if u.contains(i) {
                    let m = choose|m: int| 0 <= m < k && #[trigger] in_subtree(bs, bs[j].children@[m] as int, i);
                    if m < k - 1 {
                        assert(prev.contains(i));
                    }
                }
                if sc.contains(i) {
                    assert(in_subtree(bs, bs[j].children@[k - 1] as int, i));
                }
                if prev.contains(i) {
                    let m = choose|m: int| 0 <= m < k - 1 && #[trigger] in_subtree(bs, bs[j].children@[m] as int, i);
                    assert(in_subtree(bs, bs[j].children@[m] as int, i));
                }
            }
        }
        if 0 <= c < bs.len() {
            assert(has_child(bs, j, c));
            lemma_child_subtree_smaller(bs, index, j, c);
            lemma_child_is_below(bs, j, c);
            lemma_subtree_trans(bs, index, j, c);
            let nc = bs[c].children@.len() as int;
            lemma_tally_counts_nodes(bs, index, c, nc);
            lemma_subtree_split(bs, index, c);
            lemma_subtree_finite(bs, c);
            assert(prev.disjoint(sc)) by {
                assert forall|i: int| !(prev.contains(i) && sc.contains(i)) by {
                    if prev.contains(i) && sc.contains(i) {
                        let m = choose|m: int| 0 <= m < k - 1 && #[trigger] in_subtree(bs, bs[j].children@[m] as int, i);
                        let cm = bs[j].children@[m] as int;
                        lemma_subtree_bounds(bs, cm, i);
                        assert(has_child(bs, j, cm));
                        assert(bs[j].children@[m] != bs[j].children@[k - 1]);
                        lemma_subtrees_disjoint(bs, index, j, cm, c, i);
                    }
                }
            }
            lemma_set_disjoint_lens(prev, sc);
        } else {
            assert(sc =~= Set::<int>::empty()) by {
                assert forall|i: int| !sc.contains(i) by {
                    if sc.contains(i) {
                        lemma_subtree_bounds(bs, c, i);
                    }
                }
            }
            assert(u =~= prev);
        }
    }
}

/// Started from zero counts below `index`, the count `dive_to_count` stores at
/// a node below `index` is the number of its descendants.
pub proof fn lemma_counts_from_zero(bs: Seq<Branch>, index: int, j: int)
    requires
        tree_below(bs, index),
        counts_zero_below(bs, index),
        in_subtree(bs, index, j),
    ensures
        subtree_count(bs, j) == subtree_set(bs, j).len() - 1,
{
    lemma_subtree_bounds(bs, index, j);
    let n = bs[j].children@.len() as int;
    lemma_tally_counts_nodes(bs, index, j, n);
    lemma_subtree_split(bs, index, j);
}

/// The children `ch` paired with the subtree counts stored for them in `bs`.
pub open spec fn keyed(bs: Seq<Branch>, ch: Seq<usize>) -> Seq<(usize, i32)> {
    ch.map_values(|c: usize| (c, bs[c as int].num_of_all_children))
}

/// `after` is `before` stably sorted by the subtree counts stored in `bs`:
/// ordered by count, children of equal count kept in their order.
pub open spec fn sorted_children_of(bs: Seq<Branch>, before: Seq<usize>, after: Seq<usize>) -> bool {
    is_stable_sort_of(keyed(bs, after), keyed(bs, before))
}

/// `new` is `old` with the children list of every node below `index` stably
/// sorted by the children's subtree counts, and nothing else changed.
pub open spec fn sorted_below(old: Seq<Branch>, index: int, new: Seq<Branch>) -> bool {
    &&& new.len() == old.len()
    &&& same_child_sets(old, new)
    &&& forall|j: int| 0 <= j < old.len() ==> same_but_children(#[trigger] old[j], new[j])
    &&& forall|j: int|
        0 <= j < old.len() ==> if in_subtree(old, index, j) {
            sorted_children_of(old, old[j].children@, (#[trigger] new[j]).children@)
        } else {
            new[j].children@ == old[j].children@
        }
}

/// Pairs of a keyed child list carry the count stored for their child.
pub proof fn lemma_keyed_elements(bs: Seq<Branch>, ch: Seq<usize>, x: (usize, i32))
    requires
        keyed(bs, ch).contains(x),
    ensures
        ch.contains(x.0),
        x.1 == bs[x.0 as int].num_of_all_children,
{
    let i = choose|i: int| 0 <= i < keyed(bs, ch).len() && keyed(bs, ch)[i] == x;
    assert(ch[i] == x.0);
}

/// Keys only depend on the stored counts of the listed children.
pub proof fn lemma_keyed_same(a: Seq<Branch>, b: Seq<Branch>, ch: Seq<usize>)
    requires
        a.len() == b.len(),
        forall|j: int| 0 <= j < a.len() ==> (#[trigger] a[j]).num_of_all_children == b[j].num_of_all_children,
        forall|t: int| 0 <= t < ch.len() ==> #[trigger] ch[t] < a.len(),
    ensures
        keyed(a, ch) == keyed(b, ch),
{
    assert forall|t: int| 0 <= t < ch.len() implies keyed(a, ch)[t] == keyed(b, ch)[t] by {
        assert(ch[t] < a.len());
    }
    assert(keyed(a, ch) =~= keyed(b, ch));
}

/// A list whose members are all children of a node below `index` lists only
/// nodes inside the table.
pub proof fn lemma_members_in_range(bs: Seq<Branch>, index: int, j: int, l: Seq<usize>)
    requires
        children_in_range_below(bs, index),
        in_subtree(bs, index, j),
        forall|c: usize| #[trigger] l.contains(c) ==> bs[j].children@.contains(c),
    ensures
        forall|t: int| 0 <= t < l.len() ==> #[trigger] l[t] < bs.len(),
{
    assert forall|t: int| 0 <= t < l.len() implies #[trigger] l[t] < bs.len() by {
        assert(l.contains(l[t]));
        let u = choose|u: int| 0 <= u < bs[j].children@.len() && bs[j].children@[u] == l[t];
        assert(bs[j].children@[u] < bs.len());
    }
}

/// Sorting again a list that is already sorted, or still unsorted, of a node
/// whose children keep their counts, gives a stable sort of the original list.
pub proof fn lemma_resort(
    old: Seq<Branch>,
    cur: Seq<Branch>,
    l0: Seq<usize>,
    l1: Seq<usize>,
    l2: Seq<usize>,
)
    requires
        old.len() == cur.len(),
        forall|j: int| 0 <= j < old.len() ==> (#[trigger] old[j]).num_of_all_children == cur[j].num_of_all_children,
        forall|t: int| 0 <= t < l1.len() ==> #[trigger] l1[t] < old.len(),
        forall|t: int| 0 <= t < l2.len() ==> #[trigger] l2[t] < old.len(),
        l1 == l0 || sorted_children_of(old, l0, l1),
        sorted_children_of(cur, l1, l2),
    ensures
        sorted_children_of(old, l0, l2),
{
    lemma_keyed_same(old, cur, l1);
    lemma_keyed_same(old, cur, l2);
    if l1 != l0 {
        lemma_stable_sort_trans(keyed(old, l0), keyed(old, l1), keyed(old, l2));
    }
}

/// Sorting the children below a node twice gives what sorting once gave: a
/// second `dive_to_sort` from the same node changes nothing.
pub proof fn lemma_sort_twice(b0: Seq<Branch>, b1: Seq<Branch>, b2: Seq<Branch>, index: int)
    requires
        children_in_range_below(b0, index),
        sorted_below(b0, index, b1),
        sorted_below(b1, index, b2),
    ensures
        b2.len() == b1.len(),
        forall|j: int|
            0 <= j < b1.len() ==> same_but_children(#[trigger] b1[j], b2[j]) && b2[j].children@
                == b1[j].children@,
{
    lemma_subtree_same(b0, b1, index);
    assert forall|j: int| 0 <= j < b1.len() implies same_but_children(#[trigger] b1[j], b2[j])
        && b2[j].children@ == b1[j].children@ by {
        assert(same_but_children(b0[j], b1[j]));
        assert(same_but_children(b1[j], b2[j]));
        if in_subtree(b1, index, j) {
            let l0 = b0[j].children@;
            let l1 = b1[j].children@;
            let l2 = b2[j].children@;
            assert(in_subtree(b0, index, j));
            assert(sorted_children_of(b0, l0, l1));
            assert(sorted_children_of(b1, l1, l2));
            assert forall|c: usize| #[trigger] l1.contains(c) implies l0.contains(c) by {
                assert(b0[j].children@.contains(c) <==> b1[j].children@.contains(c));
            }
            lemma_members_in_range(b0, index, j, l1);
            assert forall|i: int| 0 <= i < b0.len() implies (#[trigger] b0[i]).num_of_all_children
                == b1[i].num_of_all_children by {
                assert(same_but_children(b0[i], b1[i]));
            }
            lemma_keyed_same(b0, b1, l1);
            lemma_sorted_unique(keyed(b1, l2), keyed(b1, l1));
            assert(l2.len() == keyed(b1, l2).len());
            assert forall|t: int| 0 <= t < l2.len() implies l2[t] == l1[t] by {
                assert(keyed(b1, l2)[t].0 == l2[t]);
                assert(keyed(b1, l1)[t].0 == l1[t]);
            }
            assert(l2 =~= l1);
        }
    }
}

/// In a forest in the sense of `well_formed`, links lead to later nodes.
proof fn lemma_reach_increasing(bs: Seq<Branch>, a: int, x: int, n: nat)
    requires
        well_formed(bs),
        reach_in(bs, a, x, n),
    ensures
        n > 0 ==> a < x,
        a <= x,
    decreases n,
{
    if n > 0 {
        let c = choose|c: int| #[trigger] has_child(bs, a, c) && reach_in(bs, c, x, (n - 1) as nat);
        let k = choose|k: int| 0 <= k < bs[a].children@.len() && #[trigger] bs[a].children@[k] as int == c;
        assert(a < bs[a].children@[k]);
        lemma_reach_increasing(bs, c, x, (n - 1) as nat);
    }
}

/// A forest in the sense of `well_formed` is a tree below each of its nodes,
/// and lists only children inside the table.
pub proof fn lemma_well_formed_tree(bs: Seq<Branch>, index: int)
    requires
        well_formed(bs),
    ensures
        tree_below(bs, index),
        children_in_range_below(bs, index),
{
    assert forall|j: int, n: nat| in_subtree(bs, index, j) && n > 0 implies !#[trigger] reach_in(bs, j, j, n) by {
        if reach_in(bs, j, j, n) {
            lemma_reach_increasing(bs, j, j, n);
        }
    }
    assert forall|p: int, a: int, b: int|
        in_subtree(bs, index, p) && 0 <= a < b < bs[p].children@.len() && bs[p].children@[a]
            < bs.len() implies #[trigger] bs[p].children@[a] != #[trigger] bs[p].children@[b] by {
        lemma_subtree_bounds(bs, index, p);
        assert(bs[p].children@.no_duplicates());
    }
    assert forall|p1: int, p2: int, c: int|
        in_subtree(bs, index, p1) && in_subtree(bs, index, p2) && #[trigger] has_child(bs, p1, c)
            && #[trigger] has_child(bs, p2, c) implies p1 == p2 by {
        let k1 = choose|k: int| 0 <= k < bs[p1].children@.len() && #[trigger] bs[p1].children@[k] as int == c;
        let k2 = choose|k: int| 0 <= k < bs[p2].children@.len() && #[trigger] bs[p2].children@[k] as int == c;
        assert(bs[bs[p1].children@[k1] as int].parent == p1);
        assert(bs[bs[p2].children@[k2] as int].parent == p2);
    }
    assert forall|p: int, k: int| in_subtree(bs, index, p) && 0 <= k < bs[p].children@.len() implies #[trigger] bs[
        p
    ].children@[k] < bs.len() by {
        lemma_subtree_bounds(bs, index, p);
    }
}

/// Counts of zero below `index`, in a table of at most `i32::MAX` entries, keep
/// every sum of `dive_to_count` inside `i32`.
pub proof fn lemma_zero_counts_fit(bs: Seq<Branch>, index: int)
    requires
        tree_below(bs, index),
        counts_zero_below(bs, index),
        bs.len() <= i32::MAX,
    ensures
        counts_fit(bs, index),
{
    assert forall|j: int, k: int|
        in_subtree(bs, index, j) && 0 <= k <= bs[j].children@.len() implies i32::MIN <= #[trigger] tally(
            bs,
            j,
            k,
        ) <= i32::MAX by {
        lemma_tally_counts_nodes(bs, index, j, k);
        lemma_not_below_own_children(bs, index, j, k);
        lemma_subtree_finite(bs, j);
        lemma_len_subset(first_subtrees_set(bs, j, k), subtree_set(bs, j));
    }
    assert forall|j: int| in_subtree(bs, index, j) implies #[trigger] subtree_count(bs, j) < i32::MAX by {
        lemma_counts_from_zero(bs, index, j);
        lemma_subtree_finite(bs, j);
    }
}

/// Sum, over the nodes of `s` among the first `n` entries of the table, of
/// each node's stored count plus one.
pub open spec fn weight_in(bs: Seq<Branch>, s: Set<int>, n: int) -> int
    decreases n,
{
    if n <= 0 {
        0
    } else {
        weight_in(bs, s, n - 1) + if s.contains(n - 1) {
            bs[n - 1].num_of_all_children + 1
        } else {
            0
        }
    }
}

/// The weight of two disjoint sets adds up.
proof fn lemma_weight_disjoint(bs: Seq<Branch>, a: Set<int>, b: Set<int>, n: int)
    requires
        a.disjoint(b),
    ensures
        weight_in(bs, a + b, n) == weight_in(bs, a, n) + weight_in(bs, b, n),
    decreases n,
{
    if n > 0 {
        lemma_weight_disjoint(bs, a, b, n - 1);
    }
}

/// Adding a node `x < n` that is not yet in `s` adds its count plus one.
proof fn lemma_weight_insert(bs: Seq<Branch>, s: Set<int>, x: int, n: int)
    requires
        !s.contains(x),
        0 <= x < n,
    ensures
        weight_in(bs, s.insert(x), n) == weight_in(bs, s, n) + bs[x].num_of_all_children + 1,
    decreases n,
{
    if n - 1 > x {
        lemma_weight_insert(bs, s, x, n - 1);
    } else {
        assert(n - 1 == x);
        lemma_weight_same(bs, s.insert(x), s, n - 1);
    }
}

/// Sets that agree on the first `n` entries have the same weight there.
proof fn lemma_weight_same(bs: Seq<Branch>, a: Set<int>, b: Set<int>, n: int)
    requires
        forall|i: int| 0 <= i < n ==> (a.contains(i) <==> b.contains(i)),
    ensures
        weight_in(bs, a, n) == weight_in(bs, b, n),
    decreases n,
{
    if n > 0 {
        lemma_weight_same(bs, a, b, n - 1);
    }
}

/// The tally over the first `k` children of `j` is the count stored at `j`
/// plus, for every node below those children, its stored count plus one.
proof fn lemma_tally_weight(bs: Seq<Branch>, index: int, j: int, k: int)
    requires
        tree_below(bs, index),
        in_subtree(bs, index, j),
        0 <= k <= bs[j].children@.len(),
    ensures
        tally(bs, j, k) == bs[j].num_of_all_children + weight_in(
            bs,
            first_subtrees_set(bs, j, k),
            bs.len() as int,
        ),
    decreases subtree_set(bs, j).len(), k,
{
    let n = bs.len() as int;
    lemma_subtree_bounds(bs, index, j);
    lemma_not_below_own_children(bs, index, j, k);
    let u = first_subtrees_set(bs, j, k);
    if k == 0 {
        lemma_weight_same(bs, u, Set::<int>::empty(), n);
        assert(weight_in(bs, Set::<int>::empty(), n) == 0) by {
            lemma_weight_empty(bs, n);
        }
    } else {
        lemma_tally_weight(bs, index, j, k - 1);
        lemma_not_below_own_children(bs, index, j, k - 1);
        let prev = first_subtrees_set(bs, j, k - 1);
        let c = bs[j].children@[k - 1] as int;
        let sc = subtree_set(bs, c);
        assert(u =~= prev + sc) by {
            assert forall|i: int| u.contains(i) <==> (prev + sc).contains(i) by {
                if u.contains(i) {
                    let m = choose|m: int| 0 <= m < k && #[trigger] in_subtree(bs, bs[j].children@[m] as int, i);
                    if m < k - 1 {
                        assert(prev.contains(i));
                    }
                }
                if sc.contains(i) {
                    assert(in_subtree(bs, bs[j].children@[k - 1] as int, i));
                }
                if prev.contains(i) {
                    let m = choose|m: int| 0 <= m < k - 1 && #[trigger] in_subtree(bs, bs[j].children@[m] as int, i);
                    assert(in_subtree(bs, bs[j].children@[m] as int, i));
                }
            }
        }
        if 0 <= c < n {
            assert(has_child(bs, j, c));
            lemma_child_subtree_smaller(bs, index, j, c);
            lemma_child_is_below(bs, j, c);
            lemma_subtree_trans(bs, index, j, c);
            let nc = bs[c].children@.len() as int;
            lemma_tally_weight(bs, index, c, nc);
            lemma_subtree_split(bs, index, c);
            lemma_weight_insert(bs, first_subtrees_set(bs, c, nc), c, n);
            assert(prev.disjoint(sc)) by {
                assert forall|i: int| !(prev.contains(i) && sc.contains(i)) by {
                    if prev.contains(i) && sc.contains(i) {
                        let m = choose|m: int| 0 <= m < k - 1 && #[trigger] in_subtree(bs, bs[j].children@[m] as int, i);
                        let cm = bs[j].children@[m] as int;
                        lemma_subtree_bounds(bs, cm, i);
                        assert(has_child(bs, j, cm));
                        assert(bs[j].children@[m] != bs[j].children@[k - 1]);
                        lemma_subtrees_disjoint(bs, index, j, cm, c, i);
                    }
                }
            }
            lemma_weight_disjoint(bs, prev, sc, n);
        } else {
            assert(sc =~= Set::<int>::empty()) by {
                assert forall|i: int| !sc.contains(i) by {
                    if sc.contains(i) {
                        lemma_subtree_bounds(bs, c, i);
                    }
                }
            }
            assert(u =~= prev);
        }
    }
}

/// The empty set weighs nothing.
proof fn lemma_weight_empty(bs: Seq<Branch>, n: int)
    ensures
        weight_in(bs, Set::<int>::empty(), n) == 0,
    decreases n,
{
    if n > 0 {
        lemma_weight_empty(bs, n - 1);
    }
}

/// The count `dive_to_count` stores at a node below `index` is the count
/// stored there before plus, for every descendant, its stored count plus one.
pub proof fn lemma_count_is_weight(bs: Seq<Branch>, index: int, j: int)
    requires
        tree_below(bs, index),
        in_subtree(bs, index, j),
    ensures
        subtree_count(bs, j) == bs[j].num_of_all_children + weight_in(
            bs,
            subtree_set(bs, j).remove(j),
            bs.len() as int,
        ),
{
    lemma_subtree_bounds(bs, index, j);
    let n = bs[j].children@.len() as int;
    lemma_tally_weight(bs, index, j, n);
    lemma_subtree_split(bs, index, j);
    assert(subtree_set(bs, j).remove(j) =~= first_subtrees_set(bs, j, n));
}

} // verus!
