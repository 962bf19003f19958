//! Ants in the order of their positions.
//!
//! Two ants that stand at one position keep the order in which they came:
//! the sort is stable. A sequence has exactly one stable sort, so the order
//! of the ants after a tick is fixed by their order before it.

use vstd::prelude::*;
use crate::ant::Ant;

verus! {

/// No ant stands before one that comes earlier in the sequence.
pub open spec fn sorted(s: Seq<Ant>) -> bool {
    forall|i: int, j: int| 0 <= i <= j < s.len() ==> s[i].position <= s[j].position
}

/// The test that an ant stands at `p`.
pub open spec fn stands_at(p: int) -> spec_fn(Ant) -> bool {
    |a: Ant| a.position == p
}

/// The ants of `s` that stand at `p`, in the order in which `s` holds them.
pub open spec fn at(s: Seq<Ant>, p: int) -> Seq<Ant> {
    s.filter(stands_at(p))
}

/// `out` holds the ants of `inp` in the order of their positions, and those
/// that share a position in the order in which `inp` holds them.
pub open spec fn is_stable_sort(out: Seq<Ant>, inp: Seq<Ant>) -> bool {
    &&& sorted(out)
    &&& forall|p: int| #[trigger] at(out, p) == at(inp, p)
}

/// The stable sort of `s` by position.
pub open spec fn stable_sorted(s: Seq<Ant>) -> Seq<Ant> {
    choose|out: Seq<Ant>| is_stable_sort(out, s)
}

/// `x` put into the sorted sequence `s`, behind every ant that does not
/// stand after it.
spec fn inserted(s: Seq<Ant>, x: Ant) -> Seq<Ant>
    decreases s.len(),
{
    if s.len() == 0 || s.last().position <= x.position {
        s.push(x)
    } else {
        inserted(s.drop_last(), x).push(s.last())
    }
}

/// The ants of `s`, put one after the other into a sorted sequence.
spec fn built(s: Seq<Ant>) -> Seq<Ant>
    decreases s.len(),
{
    if s.len() == 0 {
        s
    } else {
        inserted(built(s.drop_last()), s.last())
    }
}

/// No ant stands anywhere in the empty sequence.
pub proof fn lemma_at_empty(p: int)
    ensures
        at(Seq::<Ant>::empty(), p) == Seq::<Ant>::empty(),
{
    reveal(Seq::filter);
}

/// An ant added at the end joins those at its own position and no others.
pub proof fn lemma_at_push(s: Seq<Ant>, x: Ant, p: int)
    ensures
        at(s.push(x), p) == if x.position == p {
            at(s, p).push(x)
        } else {
            at(s, p)
        },
{
    s.lemma_filter_push(x, stands_at(p));
}

/// The ants at `p` are those of the two parts of a sequence, one after the
/// other.
pub proof fn lemma_at_add(a: Seq<Ant>, b: Seq<Ant>, p: int)
    ensures
        at(a + b, p) == at(a, p) + at(b, p),
{
    Seq::filter_distributes_over_add(a, b, stands_at(p));
}

/// Where some ant stands at `p`, the sequence holds one: the result is the
/// index of the last of them.
pub proof fn lemma_at_member(s: Seq<Ant>, p: int) -> (i: int)
    requires
        at(s, p).len() > 0,
    ensures
        0 <= i < s.len(),
        s[i] == at(s, p).last(),
        s[i].position == p,
    decreases s.len(),
{
    if s.len() == 0 {
        lemma_at_empty(p);
        assert(s =~= Seq::<Ant>::empty());
        0
    } else {
        assert(s.drop_last().push(s.last()) =~= s);
        lemma_at_push(s.drop_last(), s.last(), p);
        if s.last().position == p {
            s.len() - 1
        } else {
            lemma_at_member(s.drop_last(), p)
        }
    }
}

/// Every ant of a sequence is among those at its own position.
pub proof fn lemma_member_at(s: Seq<Ant>, i: int)
    requires
        0 <= i < s.len(),
    ensures
        at(s, s[i].position as int).contains(s[i]),
{
    s.lemma_filter_contains(stands_at(s[i].position as int), i);
}

/// Every ant among those at `p` is an ant of the sequence.
pub proof fn lemma_at_within(s: Seq<Ant>, p: int, x: Ant)
    requires
        at(s, p).contains(x),
    ensures
        s.contains(x),
        x.position == p,
{
    s.lemma_filter_contains_rev(stands_at(p), x);
    let k = choose|k: int| 0 <= k < at(s, p).len() && at(s, p)[k] == x;
    s.lemma_filter_pred(stands_at(p), k);
}

proof fn lemma_inserted(s: Seq<Ant>, x: Ant)
    requires
        sorted(s),
    ensures
        sorted(inserted(s, x)),
        inserted(s, x).len() == s.len() + 1,
        forall|p: int| #[trigger] at(inserted(s, x), p) == at(s.push(x), p),
        forall|i: int|
            0 <= i < inserted(s, x).len() ==> #[trigger] inserted(s, x)[i] == x || s.contains(
                inserted(s, x)[i],
            ),
        inserted(s, x).to_multiset() == s.to_multiset().insert(x),
    decreases s.len(),
{
    broadcast use vstd::seq_lib::group_to_multiset_ensures;

    if s.len() == 0 || s.last().position <= x.position {
        assert forall|i: int| 0 <= i < s.push(x).len() implies #[trigger] s.push(x)[i] == x
            || s.contains(s.push(x)[i]) by {
            if i < s.len() {
                assert(s[i] == s.push(x)[i]);
            }
        }
    } else {
        let front = s.drop_last();
        let l = s.last();
        lemma_inserted(front, x);
        let r = inserted(front, x);
        let out = r.push(l);
        assert(front.push(l) =~= s);
        assert(out.to_multiset() =~= s.to_multiset().insert(x));
        assert forall|i: int, j: int| 0 <= i <= j < out.len() implies out[i].position
            <= out[j].position by {
            if j < r.len() {
                assert(r[i].position <= r[j].position);
            } else if i < r.len() {
                if r[i] != x {
                    assert(front.contains(r[i]));
                    let k = choose|k: int| 0 <= k < front.len() && front[k] == r[i];
                    assert(s[k].position <= s[s.len() - 1].position);
                }
            }
        }
        assert forall|p: int| #[trigger] at(out, p) == at(s.push(x), p) by {
            assert(front.push(l) =~= s);
            assert(at(r, p) == at(front.push(x), p));
            lemma_at_push(r, l, p);
            lemma_at_push(front, x, p);
            lemma_at_push(s, x, p);
            lemma_at_push(front, l, p);
        }
        assert forall|i: int| 0 <= i < out.len() implies #[trigger] out[i] == x || s.contains(
            out[i],
        ) by {
            if i < r.len() {
                if r[i] != x {
                    assert(front.contains(r[i]));
                    let k = choose|k: int| 0 <= k < front.len() && front[k] == r[i];
                    assert(s[k] == out[i]);
                }
            } else {
                assert(s[s.len() - 1] == out[i]);
            }
        }
    }
}

proof fn lemma_built(s: Seq<Ant>)
    ensures
        is_stable_sort(built(s), s),
        built(s).len() == s.len(),
        built(s).to_multiset() == s.to_multiset(),
    decreases s.len(),
{
    broadcast use vstd::seq_lib::group_to_multiset_ensures;

    if s.len() > 0 {
        let front = s.drop_last();
        let l = s.last();
        lemma_built(front);
        lemma_inserted(built(front), l);
        assert(front.push(l) =~= s);
        assert(built(s).to_multiset() =~= s.to_multiset());
        assert forall|p: int| #[trigger] at(built(s), p) == at(s, p) by {
            assert(front.push(l) =~= s);
            assert(at(built(front), p) == at(front, p));
            assert(at(inserted(built(front), l), p) == at(built(front).push(l), p));
            lemma_at_push(built(front), l, p);
            lemma_at_push(front, l, p);
        }
    }
}

/// Two sorted sequences that hold the same ants at every position, in the
/// same order, are one sequence.
pub proof fn lemma_sorted_same_at(a: Seq<Ant>, b: Seq<Ant>)
    requires
        sorted(a),
        sorted(b),
        forall|p: int| #[trigger] at(a, p) == at(b, p),
    ensures
        a == b,
    decreases a.len(),
{
    if a.len() == 0 {
        if b.len() > 0 {
            lemma_member_at(b, b.len() - 1);
            assert(at(a, b.last().position as int) == at(b, b.last().position as int));
            lemma_at_empty(b.last().position as int);
            assert(a =~= Seq::<Ant>::empty());
        }
        assert(a =~= b);
    } else {
        let x = a.last();
        let p = x.position as int;
        lemma_member_at(a, a.len() - 1);
        assert(at(a, p) == at(b, p));
        let kb = lemma_at_member(b, p);
        let y = b.last();
        let q = y.position as int;
        lemma_member_at(b, b.len() - 1);
        assert(at(a, q) == at(b, q));
        let ka = lemma_at_member(a, q);
        assert(a[ka].position <= a[a.len() - 1].position);
        assert(b[kb].position <= b[b.len() - 1].position);
        assert(p == q);
        assert(a.drop_last().push(x) =~= a);
        assert(b.drop_last().push(y) =~= b);
        lemma_at_push(a.drop_last(), x, p);
        lemma_at_push(b.drop_last(), y, p);
        assert(at(a, p).last() == x);
        assert(at(b, p).last() == y);
        assert(x == y);
        assert forall|r: int| #[trigger] at(a.drop_last(), r) == at(b.drop_last(), r) by {
            lemma_at_push(a.drop_last(), x, r);
            lemma_at_push(b.drop_last(), y, r);
            assert(at(a, r) == at(b, r));
            if r == p {
                assert(at(a.drop_last(), r) =~= at(a, r).drop_last());
                assert(at(b.drop_last(), r) =~= at(b, r).drop_last());
            }
        }
        lemma_sorted_same_at(a.drop_last(), b.drop_last());
    }
}

/// Every sequence of ants has a stable sort.
pub proof fn lemma_stable_sort_exists(s: Seq<Ant>)
    ensures
        is_stable_sort(stable_sorted(s), s),
        stable_sorted(s).len() == s.len(),
{
    lemma_built(s);
    lemma_sorted_same_at(stable_sorted(s), built(s));
}

/// A sequence of ants has one stable sort only.
pub proof fn lemma_stable_sort_unique(out: Seq<Ant>, inp: Seq<Ant>)
    requires
        is_stable_sort(out, inp),
    ensures
        out == stable_sorted(inp),
        out.len() == inp.len(),
{
    lemma_stable_sort_exists(inp);
    lemma_sorted_same_at(out, stable_sorted(inp));
}

/// A stable sort holds the ants of what it sorts, each as often.
pub proof fn lemma_stable_sort_permutes(inp: Seq<Ant>)
    ensures
        stable_sorted(inp).to_multiset() == inp.to_multiset(),
{
    lemma_built(inp);
    lemma_sorted_same_at(stable_sorted(inp), built(inp));
}

/// Every ant of a sequence is an ant of its stable sort, and every ant of
/// the stable sort is one of the sequence.
pub proof fn lemma_stable_sort_same_ants(inp: Seq<Ant>)
    ensures
        forall|i: int|
            0 <= i < inp.len() ==> stable_sorted(inp).contains(#[trigger] inp[i]),
        forall|i: int|
            0 <= i < inp.len() ==> inp.contains(#[trigger] stable_sorted(inp)[i]),
{
    lemma_stable_sort_exists(inp);
    let out = stable_sorted(inp);
    assert forall|i: int| 0 <= i < inp.len() implies out.contains(#[trigger] inp[i]) by {
        lemma_member_at(inp, i);
        assert(at(out, inp[i].position as int) == at(inp, inp[i].position as int));
        lemma_at_within(out, inp[i].position as int, inp[i]);
    }
    assert forall|i: int| 0 <= i < inp.len() implies inp.contains(#[trigger] out[i]) by {
        lemma_member_at(out, i);
        assert(at(out, out[i].position as int) == at(inp, out[i].position as int));
        lemma_at_within(inp, out[i].position as int, out[i]);
    }
}

/// Where no ant of a sequence stands at `p`, none is among those at `p`.
proof fn lemma_at_none(s: Seq<Ant>, p: int)
    requires
        forall|k: int| 0 <= k < s.len() ==> (#[trigger] s[k]).position != p,
    ensures
        at(s, p) == Seq::<Ant>::empty(),
    decreases s.len(),
{
    if s.len() == 0 {
        lemma_at_empty(p);
        assert(s =~= Seq::<Ant>::empty());
    } else {
        let front = s.drop_last();
        assert(front.push(s.last()) =~= s);
        assert(s[s.len() - 1].position != p);
        lemma_at_push(front, s.last(), p);
        assert forall|k: int| 0 <= k < front.len() implies (#[trigger] front[k]).position
            != p by {
            assert(front[k] == s[k]);
        }
        lemma_at_none(front, p);
    }
}

/// Merges two sorted sequences into one. Of two ants at one position the
/// one of `left` comes first.
fn merge(left: &Vec<Ant>, right: &Vec<Ant>) -> (out: Vec<Ant>)
    requires
        sorted(left@),
        sorted(right@),
    ensures
        sorted(out@),
        out@.len() == left@.len() + right@.len(),
        forall|p: int| #[trigger] at(out@, p) == at(left@, p) + at(right@, p),
{
    let mut out: Vec<Ant> = Vec::new();
    let mut i: usize = 0;
    let mut j: usize = 0;
    proof {
        assert forall|p: int| #[trigger] at(out@, p) == at(left@.take(0), p) + at(
            right@.take(0),
            p,
        ) by {
            lemma_at_empty(p);
            assert(out@ =~= Seq::<Ant>::empty());
            assert(left@.take(0) =~= Seq::<Ant>::empty());
            assert(right@.take(0) =~= Seq::<Ant>::empty());
        }
    }
    while i < left.len() || j < right.len()
        invariant
            i <= left@.len(),
            j <= right@.len(),
            sorted(left@),
            sorted(right@),
            out@.len() == i + j,
            sorted(out@),
            forall|p: int|
                #[trigger] at(out@, p) == at(left@.take(i as int), p) + at(
                    right@.take(j as int),
                    p,
                ),
            forall|k: int|
                0 <= k < out@.len() && i < left@.len() ==> (#[trigger] out@[k]).position
                    <= left@[i as int].position,
            forall|k: int|
                0 <= k < out@.len() && j < right@.len() ==> (#[trigger] out@[k]).position
                    <= right@[j as int].position,
            forall|k: int|
                0 <= k < j && i < left@.len() ==> (#[trigger] right@[k]).position
                    < left@[i as int].position,
        decreases left@.len() - i + right@.len() - j,
    {
        let ghost before = out@;
        let from_left = if i >= left.len() {
            false
        } else if j >= right.len() {
            true
        } else {
            left[i].position <= right[j].position
        };
        if from_left {
            let x = left[i];
            out.push(x);
            proof {
                assert forall|p: int| #[trigger] at(out@, p) == at(left@.take(i + 1), p) + at(
                    right@.take(j as int),
                    p,
                ) by {
                    assert(at(before, p) == at(left@.take(i as int), p) + at(
                        right@.take(j as int),
                        p,
                    ));
                    lemma_at_push(before, x, p);
                    assert(left@.take(i + 1) =~= left@.take(i as int).push(x));
                    lemma_at_push(left@.take(i as int), x, p);
                    if x.position == p {
                        lemma_at_none(right@.take(j as int), p);
                        assert((at(left@.take(i as int), p) + Seq::<Ant>::empty()).push(x)
                            =~= at(left@.take(i as int), p).push(x) + Seq::<Ant>::empty());
                    }
                }
                assert forall|a: int, b: int| 0 <= a <= b < out@.len() implies out@[a].position
                    <= out@[b].position by {
                    if b < before.len() {
                        assert(before[a].position <= before[b].position);
                    } else if a < before.len() {
                        assert(before[a].position <= x.position);
                    }
                }
                assert forall|k: int| 0 <= k < out@.len() && i + 1 < left@.len() implies (
                #[trigger] out@[k]).position <= left@[i + 1].position by {
                    assert(left@[i as int].position <= left@[i + 1].position);
                    if k < before.len() {
                        assert(before[k].position <= left@[i as int].position);
                    }
                }
                assert forall|k: int| 0 <= k < out@.len() && j < right@.len() implies (
                #[trigger] out@[k]).position <= right@[j as int].position by {
                    if k < before.len() {
                        assert(before[k].position <= right@[j as int].position);
                    }
                }
                assert forall|k: int| 0 <= k < j && i + 1 < left@.len() implies (
                #[trigger] right@[k]).position < left@[i + 1].position by {
                    assert(left@[i as int].position <= left@[i + 1].position);
                }
            }
            i = i + 1;
        } else {
            let y = right[j];
            out.push(y);
            proof {
                assert forall|p: int| #[trigger] at(out@, p) == at(left@.take(i as int), p) + at(
                    right@.take(j + 1),
                    p,
                ) by {
                    assert(at(before, p) == at(left@.take(i as int), p) + at(
                        right@.take(j as int),
                        p,
                    ));
                    lemma_at_push(before, y, p);
                    assert(right@.take(j + 1) =~= right@.take(j as int).push(y));
                    lemma_at_push(right@.take(j as int), y, p);
                    assert((at(left@.take(i as int), p) + at(right@.take(j as int), p)).push(y)
                        =~= at(left@.take(i as int), p) + at(right@.take(j as int), p).push(y));
                }
                assert forall|a: int, b: int| 0 <= a <= b < out@.len() implies out@[a].position
                    <= out@[b].position by {
                    if b < before.len() {
                        assert(before[a].position <= before[b].position);
                    } else if a < before.len() {
                        assert(before[a].position <= y.position);
                    }
                }
                assert forall|k: int| 0 <= k < out@.len() && i < left@.len() implies (
                #[trigger] out@[k]).position <= left@[i as int].position by {
                    if k < before.len() {
                        assert(before[k].position <= left@[i as int].position);
                    }
                }
                assert forall|k: int| 0 <= k < out@.len() && j + 1 < right@.len() implies (
                #[trigger] out@[k]).position <= right@[j + 1].position by {
                    assert(right@[j as int].position <= right@[j + 1].position);
                    if k < before.len() {
                        assert(before[k].position <= right@[j as int].position);
                    }
                }
            }
            j = j + 1;
        }
    }
    proof {
        assert(left@.take(i as int) =~= left@);
        assert(right@.take(j as int) =~= right@);
    }
    out
}

/// The ants from place `lo` up to place `hi`, sorted by position: each half
/// is sorted by itself and the two are merged.
fn sorted_range(ants: &Vec<Ant>, lo: usize, hi: usize) -> (out: Vec<Ant>)
    requires
        lo <= hi <= ants@.len(),
    ensures
        is_stable_sort(out@, ants@.subrange(lo as int, hi as int)),
        out@.len() == hi - lo,
    decreases hi - lo,
{
    let ghost all = ants@.subrange(lo as int, hi as int);
    if hi - lo <= 1 {
        let mut out: Vec<Ant> = Vec::new();
        if lo < hi {
            out.push(ants[lo]);
        }
        assert(out@ =~= all);
        out
    } else {
        let mid = lo + (hi - lo) / 2;
        let left = sorted_range(ants, lo, mid);
        let right = sorted_range(ants, mid, hi);
        let out = merge(&left, &right);
        proof {
            let first = ants@.subrange(lo as int, mid as int);
            let second = ants@.subrange(mid as int, hi as int);
            assert(all =~= first + second);
            assert forall|p: int| #[trigger] at(out@, p) == at(all, p) by {
                assert(at(left@, p) == at(first, p));
                assert(at(right@, p) == at(second, p));
                lemma_at_add(first, second, p);
            }
        }
        out
    }
}

/// Sorts the ants by position. Ants at one position keep their order.
pub fn sort_by_position(ants: &mut Vec<Ant>)
    ensures
        final(ants)@ == stable_sorted(old(ants)@),
        is_stable_sort(final(ants)@, old(ants)@),
        final(ants)@.len() == old(ants)@.len(),
{
    let n = ants.len();
    let out = sorted_range(ants, 0, n);
    proof {
        assert(ants@.subrange(0, n as int) =~= ants@);
        lemma_stable_sort_unique(out@, ants@);
    }
    *ants = out;
}

} // verus!
