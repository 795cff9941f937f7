use vstd::prelude::*;

verus! {

/// The pairs are in non-decreasing order of their count (second component).
pub open spec fn sorted_by_count(s: Seq<(usize, i32)>) -> bool {
    forall|a: int, b: int| 0 <= a < b < s.len() ==> s[a].1 <= s[b].1
}

/// The pairs of `s` whose count is `v`, in their order in `s`.
pub open spec fn with_count(s: Seq<(usize, i32)>, v: i32) -> Seq<(usize, i32)> {
    s.filter(|p: (usize, i32)| p.1 == v)
}

/// `out` is `inp` stably sorted by count: ordered by count, and for every
/// count the pairs carrying it appear in the same order as in `inp`.
pub open spec fn is_stable_sort_of(out: Seq<(usize, i32)>, inp: Seq<(usize, i32)>) -> bool {
    &&& sorted_by_count(out)
    &&& forall|v: i32| #[trigger] with_count(out, v) == with_count(inp, v)
}

proof fn lemma_with_count_none(s: Seq<(usize, i32)>, v: i32)
    requires
        forall|i: int| 0 <= i < s.len() ==> s[i].1 != v,
    ensures
        with_count(s, v) == Seq::<(usize, i32)>::empty(),
    decreases s.len(),
{
    reveal(Seq::filter);
    if s.len() > 0 {
        lemma_with_count_none(s.drop_last(), v);
    }
}

/// Inserting `x` after every pair of count at most `x.1` and before every pair
/// of larger count keeps the order and appends `x` to its count's pairs.
proof fn lemma_insert_sorted(out: Seq<(usize, i32)>, pos: int, x: (usize, i32))
    requires
        sorted_by_count(out),
        0 <= pos <= out.len(),
        forall|i: int| 0 <= i < pos ==> out[i].1 <= x.1,
        forall|i: int| pos <= i < out.len() ==> out[i].1 > x.1,
    ensures
        sorted_by_count(out.insert(pos, x)),
        forall|v: i32|
            #[trigger] with_count(out.insert(pos, x), v) == if v == x.1 {
                with_count(out, v).push(x)
            } else {
                with_count(out, v)
            },
{
    let new = out.insert(pos, x);
    let front = out.take(pos);
    let back = out.skip(pos);
    assert(out =~= front + back);
    assert(new =~= front.push(x) + back);
    assert forall|v: i32| #[trigger] with_count(new, v) == if v == x.1 {
        with_count(out, v).push(x)
    } else {
        with_count(out, v)
    } by {
        let pred = |p: (usize, i32)| p.1 == v;
        Seq::filter_distributes_over_add(front.push(x), back, pred);
        Seq::filter_distributes_over_add(front, back, pred);
        front.lemma_filter_push(x, pred);
        if v == x.1 {
            lemma_with_count_none(back, v);
            assert(back.filter(pred) =~= Seq::<(usize, i32)>::empty());
            assert(front.filter(pred) + Seq::<(usize, i32)>::empty() =~= front.filter(pred));
            assert(front.filter(pred).push(x) + Seq::<(usize, i32)>::empty() =~= front.filter(
                pred,
            ).push(x));
        }
    }
}

/// Sorts the pairs by count, keeping pairs of equal count in their order.
pub fn sort_by_count(v: &mut Vec<(usize, i32)>)
    ensures
        is_stable_sort_of(final(v)@, old(v)@),
        final(v)@.len() == old(v)@.len(),
        forall|x: (usize, i32)| #[trigger] final(v)@.contains(x) <==> old(v)@.contains(x),
        old(v)@.no_duplicates() ==> final(v)@.no_duplicates(),
{
    let ghost inp = v@;
    let mut out: Vec<(usize, i32)> = Vec::new();
    let n = v.len();
    let mut i: usize = 0;
    assert(inp.take(0) =~= Seq::<(usize, i32)>::empty());
    while i < n
        invariant
            n == inp.len(),
            v@ == inp,
            0 <= i <= n,
            out@.len() == i,
            sorted_by_count(out@),
            forall|w: i32| #[trigger] with_count(out@, w) == with_count(inp.take(i as int), w),
            forall|x: (usize, i32)| #[trigger] out@.contains(x) <==> inp.take(i as int).contains(x),
            inp.take(i as int).no_duplicates() ==> out@.no_duplicates(),
        decreases n - i,
    {
        let x = v[i];
        let mut pos: usize = 0;
        while pos < out.len() && out[pos].1 <= x.1
            invariant
                0 <= pos <= out@.len(),
                forall|j: int| 0 <= j < pos ==> out@[j].1 <= x.1,
            decreases out@.len() - pos,
        {
            pos += 1;
        }
        let ghost old_out = out@;
        proof {
            assert forall|j: int| pos <= j < old_out.len() implies old_out[j].1 > x.1 by {
                assert(old_out[pos as int].1 > x.1);
            }
            lemma_insert_sorted(old_out, pos as int, x);
            assert(inp.take(i + 1) =~= inp.take(i as int).push(x));
            assert forall|w: i32| #[trigger] with_count(out@.insert(pos as int, x), w) == with_count(
                inp.take(i + 1),
                w,
            ) by {
                inp.take(i as int).lemma_filter_push(x, |p: (usize, i32)| p.1 == w);
            }
        }
        out.insert(pos, x);
        proof {
            let pre = inp.take(i as int);
            let nxt = inp.take(i + 1);
            assert forall|y: (usize, i32)| #[trigger] out@.contains(y) <==> nxt.contains(y) by {
                if out@.contains(y) {
                    let j = choose|j: int| 0 <= j < out@.len() && out@[j] == y;
                    if j < pos {
                        assert(old_out[j] == y);
                        assert(old_out.contains(y));
                    } else if j > pos {
                        assert(old_out[j - 1] == y);
                        assert(old_out.contains(y));
                    }
                    if y != x {
                        let k = choose|k: int| 0 <= k < i && pre[k] == y;
                        assert(nxt[k] == y);
                    } else {
                        assert(nxt[i as int] == y);
                    }
                }
                if nxt.contains(y) {
                    let k = choose|k: int| 0 <= k < i + 1 && nxt[k] == y;
                    if k < i {
                        assert(pre[k] == y);
                        assert(old_out.contains(y));
                        let j = choose|j: int| 0 <= j < old_out.len() && old_out[j] == y;
                        if j < pos {
                            assert(out@[j] == y);
                        } else {
                            assert(out@[j + 1] == y);
                        }
                    } else {
                        assert(out@[pos as int] == y);
                    }
                }
            }
            if nxt.no_duplicates() {
                assert(pre.no_duplicates()) by {
                    assert forall|a: int, b: int|
                        0 <= a < i && 0 <= b < i && a != b implies pre[a] != pre[b] by {
                        assert(nxt[a] == pre[a]);
                        assert(nxt[b] == pre[b]);
                    }
                }
                assert(!old_out.contains(x)) by {
                    if old_out.contains(x) {
                        let k = choose|k: int| 0 <= k < i && pre[k] == x;
                        assert(nxt[k] == x);
                        assert(nxt[i as int] == x);
                    }
                }
                assert forall|a: int, b: int|
                    0 <= a < out@.len() && 0 <= b < out@.len() && a != b implies out@[a]
                    != out@[b] by {
                    if a == pos {
                        if b < pos {
                            assert(old_out[b] == out@[b]);
                        } else {
                            assert(old_out[b - 1] == out@[b]);
                        }
                    } else if b == pos {
                        if a < pos {
                            assert(old_out[a] == out@[a]);
                        } else {
                            assert(old_out[a - 1] == out@[a]);
                        }
                    } else {
                        let a0 = if a < pos { a } else { a - 1 };
                        let b0 = if b < pos { b } else { b - 1 };
                        assert(old_out[a0] == out@[a]);
                        assert(old_out[b0] == out@[b]);
                    }
                }
            }
        }
        i += 1;
    }
    proof {
        assert(inp.take(n as int) =~= inp);
    }
    *v = out;
}

/// A stable sort of a stable sort of `inp` is itself a stable sort of `inp`.
pub proof fn lemma_stable_sort_trans(a: Seq<(usize, i32)>, b: Seq<(usize, i32)>, c: Seq<(usize, i32)>)
    requires
        is_stable_sort_of(b, a),
        is_stable_sort_of(c, b),
    ensures
        is_stable_sort_of(c, a),
{
    assert forall|v: i32| #[trigger] with_count(c, v) == with_count(a, v) by {
        assert(with_count(c, v) == with_count(b, v));
    }
}

/// The last pair of `s` ends the pairs of its count.
proof fn lemma_with_count_last(s: Seq<(usize, i32)>)
    requires
        s.len() > 0,
    ensures
        with_count(s, s.last().1) == with_count(s.drop_last(), s.last().1).push(s.last()),
        with_count(s, s.last().1).len() > 0,
{
    let x = s.last();
    assert(s =~= s.drop_last().push(x));
    s.drop_last().lemma_filter_push(x, |p: (usize, i32)| p.1 == x.1);
}

/// A count that has pairs in `with_count(s, v)` is carried by some pair of `s`.
proof fn lemma_with_count_nonempty(s: Seq<(usize, i32)>, v: i32) -> (i: int)
    requires
        with_count(s, v).len() > 0,
    ensures
        0 <= i < s.len(),
        s[i].1 == v,
{
    if forall|i: int| 0 <= i < s.len() ==> s[i].1 != v {
        lemma_with_count_none(s, v);
    }
    choose|i: int| 0 <= i < s.len() && s[i].1 == v
}

/// Two sequences ordered by count that hold the same pairs, in the same order,
/// for every count are equal.
pub proof fn lemma_sorted_unique(s: Seq<(usize, i32)>, t: Seq<(usize, i32)>)
    requires
        sorted_by_count(s),
        sorted_by_count(t),
        forall|v: i32| #[trigger] with_count(s, v) == with_count(t, v),
    ensures
        s == t,
    decreases s.len(),
{
    if s.len() == 0 {
        if t.len() > 0 {
            lemma_with_count_last(t);
            assert(with_count(s, t[t.len() - 1].1) == with_count(t, t[t.len() - 1].1));
            let i = lemma_with_count_nonempty(s, t[t.len() - 1].1);
        }
        assert(s =~= t);
    } else if t.len() == 0 {
        lemma_with_count_last(s);
        assert(with_count(s, s[s.len() - 1].1) == with_count(t, s[s.len() - 1].1));
        let i = lemma_with_count_nonempty(t, s[s.len() - 1].1);
    } else {
        let x = s.last();
        let y = t.last();
        lemma_with_count_last(s);
        lemma_with_count_last(t);
        if x.1 < y.1 {
            assert(with_count(s, y.1) == with_count(t, y.1));
            let i = lemma_with_count_nonempty(s, y.1);
            assert(s[i].1 <= s[s.len() - 1].1);
        }
        if y.1 < x.1 {
            assert(with_count(s, x.1) == with_count(t, x.1));
            let i = lemma_with_count_nonempty(t, x.1);
            assert(t[i].1 <= t[t.len() - 1].1);
        }
        let s0 = s.drop_last();
        let t0 = t.drop_last();
        assert(s =~= s0.push(x));
        assert(t =~= t0.push(y));
        assert forall|v: i32| #[trigger] with_count(s0, v) == with_count(t0, v) by {
            let pred = |p: (usize, i32)| p.1 == v;
            s0.lemma_filter_push(x, pred);
            t0.lemma_filter_push(y, pred);
            assert(with_count(s, v) == with_count(t, v));
            if v == x.1 {
                assert(with_count(s, v).drop_last() =~= with_count(s0, v));
                assert(with_count(t, v).drop_last() =~= with_count(t0, v));
            }
        }
        assert(x == y) by {
            assert(with_count(s, x.1) == with_count(t, x.1));
            assert(with_count(s, x.1).last() == x);
            assert(with_count(t, y.1).last() == y);
        }
        lemma_sorted_unique(s0, t0);
        assert(s =~= t);
    }
}

} // verus!
