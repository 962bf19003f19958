//! The rod as a mathematical object: the ants on it, the step and the time,
//! what one tick makes of them, and what holds of every tick.

use vstd::prelude::*;
use crate::ant::{Ant, AntType, Direction, ROD_LENGTH};
use crate::order::{
    is_stable_sort, lemma_stable_sort_exists, lemma_stable_sort_same_ants,
    lemma_stable_sort_unique, sorted, stable_sorted,
};
use vstd::arithmetic::div_mod::{
    lemma_basic_div, lemma_div_is_ordered, lemma_div_minus_one, lemma_div_nonincreasing,
    lemma_div_plus_one, lemma_div_pos_is_pos,
};

verus! {

/// The ants of `ants` after each has walked `step` units.
pub open spec fn advanced_all(ants: Seq<Ant>, step: int) -> Seq<Ant> {
    Seq::new(ants.len(), |i: int| ants[i].advanced(step))
}

/// The kinds of the ants, place by place.
pub open spec fn kinds_of(ants: Seq<Ant>) -> Seq<AntType> {
    Seq::new(ants.len(), |i: int| ants[i].typ)
}

/// The ants of `walked`, the one in each place under the kind that `kinds`
/// holds for that place.
pub open spec fn relabelled(walked: Seq<Ant>, kinds: Seq<AntType>) -> Seq<Ant> {
    Seq::new(walked.len(), |i: int| walked[i].with_typ(kinds[i]))
}

/// The test that an ant stands on the rod.
pub open spec fn stays() -> spec_fn(Ant) -> bool {
    |a: Ant| a.on_rod()
}

/// The ants of `ants` that stand on the rod, in their order.
pub open spec fn remaining(ants: Seq<Ant>) -> Seq<Ant> {
    ants.filter(stays())
}

/// The test that an ant is Molly.
pub open spec fn is_molly() -> spec_fn(Ant) -> bool {
    |a: Ant| a.typ == AntType::Molly
}

/// The number of ants that are Molly.
pub open spec fn molly_count(ants: Seq<Ant>) -> nat {
    ants.filter(is_molly()).len()
}

/// The ants after one tick: each walks `step` units, they are put in the
/// order of their positions, the kinds stay in their places, and the ants
/// that left the rod are gone.
pub open spec fn next_ants(ants: Seq<Ant>, step: int) -> Seq<Ant> {
    remaining(relabelled(stable_sorted(advanced_all(ants, step)), kinds_of(ants)))
}

/// The number of ticks after which the last of the ants has left the rod.
pub open spec fn horizon(ants: Seq<Ant>, step: int) -> int
    decreases ants.len(),
{
    if ants.len() == 0 {
        0
    } else {
        let rest = horizon(ants.drop_last(), step);
        let last = ants.last().ticks_left(step);
        if rest >= last {
            rest
        } else {
            last
        }
    }
}

/// A rod: its ants from the near end to the far end, the number of units an
/// ant walks in a tick, and the number of ticks so far.
pub struct Rod {
    pub ants: Seq<Ant>,
    pub step: int,
    pub time: nat,
}

impl Rod {
    /// The ants stand on the rod in the order of their positions, each is
    /// plain or Molly, at most one is Molly, and the step is positive and
    /// fits the machine's step.
    pub open spec fn valid(self) -> bool {
        &&& 1 <= self.step <= u32::MAX
        &&& sorted(self.ants)
        &&& forall|i: int| 0 <= i < self.ants.len() ==> (#[trigger] self.ants[i]).on_rod()
        &&& forall|i: int|
            0 <= i < self.ants.len() ==> (#[trigger] self.ants[i]).typ != AntType::Empty
        &&& molly_count(self.ants) <= 1
    }

    /// No ant is left.
    pub open spec fn finished(self) -> bool {
        self.ants.len() == 0
    }

    /// The rod after one tick.
    pub open spec fn next(self) -> Rod {
        Rod { ants: next_ants(self.ants, self.step), step: self.step, time: self.time + 1 }
    }

    /// The rod after `n` ticks.
    pub open spec fn after(self, n: nat) -> Rod
        decreases n,
    {
        if n == 0 {
            self
        } else {
            self.after((n - 1) as nat).next()
        }
    }

    /// The number of ticks after which the rod is empty.
    pub open spec fn ticks_left(self) -> int {
        horizon(self.ants, self.step)
    }
}

/// An ant added at the end stays with the rest if it stands on the rod.
pub proof fn lemma_remaining_push(s: Seq<Ant>, x: Ant)
    ensures
        remaining(s.push(x)) == if x.on_rod() {
            remaining(s).push(x)
        } else {
            remaining(s)
        },
{
    s.lemma_filter_push(x, stays());
}

/// What remains of a sequence are its ants on the rod, all of them.
pub proof fn lemma_remaining_members(s: Seq<Ant>)
    ensures
        remaining(s).len() <= s.len(),
        forall|k: int|
            0 <= k < remaining(s).len() ==> (#[trigger] remaining(s)[k]).on_rod() && s.contains(
                remaining(s)[k],
            ),
        forall|i: int| 0 <= i < s.len() && s[i].on_rod() ==> remaining(s).contains(#[trigger] s[i]),
{
    let r = remaining(s);
    s.lemma_filter_len(stays());
    assert forall|k: int| 0 <= k < r.len() implies (#[trigger] r[k]).on_rod() && s.contains(
        r[k],
    ) by {
        s.lemma_filter_pred(stays(), k);
        assert(r.contains(r[k]));
        s.lemma_filter_contains_rev(stays(), r[k]);
    }
    assert forall|i: int| 0 <= i < s.len() && s[i].on_rod() implies r.contains(
        #[trigger] s[i],
    ) by {
        s.lemma_filter_contains(stays(), i);
    }
}

/// What remains of a sorted sequence is sorted.
pub proof fn lemma_remaining_sorted(s: Seq<Ant>)
    requires
        sorted(s),
    ensures
        sorted(remaining(s)),
    decreases s.len(),
{
    if s.len() == 0 {
        lemma_remaining_members(s);
    } else {
        let front = s.drop_last();
        let l = s.last();
        assert(front.push(l) =~= s);
        lemma_remaining_push(front, l);
        lemma_remaining_sorted(front);
        lemma_remaining_members(front);
        if l.on_rod() {
            let r = remaining(front);
            let out = r.push(l);
            assert forall|i: int, j: int| 0 <= i <= j < out.len() implies out[i].position
                <= out[j].position by {
                if j < r.len() {
                    assert(r[i].position <= r[j].position);
                } else if i < r.len() {
                    assert(front.contains(r[i]));
                    let k = choose|k: int| 0 <= k < front.len() && front[k] == r[i];
                    assert(s[k].position <= s[s.len() - 1].position);
                }
            }
        }
    }
}

/// Where the ants on the rod are those from `lo` up to `hi`, they are what
/// remains.
pub proof fn lemma_remaining_range(s: Seq<Ant>, lo: int, hi: int)
    requires
        0 <= lo <= hi <= s.len(),
        forall|k: int| 0 <= k < lo ==> !(#[trigger] s[k]).on_rod(),
        forall|k: int| lo <= k < hi ==> (#[trigger] s[k]).on_rod(),
        forall|k: int| hi <= k < s.len() ==> !(#[trigger] s[k]).on_rod(),
    ensures
        remaining(s) == s.subrange(lo, hi),
    decreases s.len(),
{
    if s.len() == 0 {
        lemma_remaining_members(s);
        assert(remaining(s) =~= s.subrange(lo, hi));
    } else {
        let front = s.drop_last();
        let l = s.last();
        assert(front.push(l) =~= s);
        lemma_remaining_push(front, l);
        if hi == s.len() && lo < hi {
            assert(s[hi - 1].on_rod());
            lemma_remaining_range(front, lo, hi - 1);
            assert(front.subrange(lo, hi - 1).push(l) =~= s.subrange(lo, hi));
        } else {
            let lo2 = if lo < s.len() {
                lo
            } else {
                lo - 1
            };
            let hi2 = if hi < s.len() {
                hi
            } else {
                hi - 1
            };
            assert(!s[s.len() - 1].on_rod());
            lemma_remaining_range(front, lo2, hi2);
            assert(front.subrange(lo2, hi2) =~= s.subrange(lo, hi));
        }
    }
}

/// An ant added at the end counts if it is Molly.
pub proof fn lemma_molly_push(s: Seq<Ant>, x: Ant)
    ensures
        molly_count(s.push(x)) == molly_count(s) + if x.typ == AntType::Molly {
            1nat
        } else {
            0nat
        },
{
    s.lemma_filter_push(x, is_molly());
}

/// The Mollys of two sequences, one after the other, are those of both.
pub proof fn lemma_molly_add(a: Seq<Ant>, b: Seq<Ant>)
    ensures
        molly_count(a + b) == molly_count(a) + molly_count(b),
{
    Seq::filter_distributes_over_add(a, b, is_molly());
}

/// The number of Mollys rests on the kinds alone.
pub proof fn lemma_molly_kinds(a: Seq<Ant>, b: Seq<Ant>)
    requires
        kinds_of(a) == kinds_of(b),
    ensures
        molly_count(a) == molly_count(b),
    decreases a.len(),
{
    assert(a.len() == kinds_of(a).len());
    assert(b.len() == kinds_of(b).len());
    if a.len() == 0 {
        assert(a.filter(is_molly()).len() <= a.len()) by {
            a.lemma_filter_len(is_molly());
        }
        assert(b.filter(is_molly()).len() <= b.len()) by {
            b.lemma_filter_len(is_molly());
        }
    } else {
        assert(a.drop_last().push(a.last()) =~= a);
        assert(b.drop_last().push(b.last()) =~= b);
        assert(kinds_of(a.drop_last()) =~= kinds_of(a).drop_last());
        assert(kinds_of(b.drop_last()) =~= kinds_of(b).drop_last());
        assert(a.last().typ == kinds_of(a)[a.len() - 1]);
        assert(b.last().typ == kinds_of(b)[b.len() - 1]);
        lemma_molly_kinds(a.drop_last(), b.drop_last());
        lemma_molly_push(a.drop_last(), a.last());
        lemma_molly_push(b.drop_last(), b.last());
    }
}

/// No Molly comes of leaving ants out.
pub proof fn lemma_molly_remaining(s: Seq<Ant>)
    ensures
        molly_count(remaining(s)) <= molly_count(s),
    decreases s.len(),
{
    if s.len() == 0 {
        lemma_remaining_members(s);
        assert(remaining(s) =~= s);
    } else {
        let front = s.drop_last();
        let l = s.last();
        assert(front.push(l) =~= s);
        lemma_molly_remaining(front);
        lemma_remaining_push(front, l);
        lemma_molly_push(front, l);
        lemma_molly_push(remaining(front), l);
    }
}

/// A sequence counts no Molly exactly when none of its ants is Molly.
pub proof fn lemma_molly_none(s: Seq<Ant>)
    ensures
        molly_count(s) == 0 <==> forall|i: int|
            0 <= i < s.len() ==> (#[trigger] s[i]).typ != AntType::Molly,
    decreases s.len(),
{
    if s.len() == 0 {
        s.lemma_filter_len(is_molly());
    } else {
        let front = s.drop_last();
        let l = s.last();
        assert(front.push(l) =~= s);
        lemma_molly_none(front);
        lemma_molly_push(front, l);
        if molly_count(s) == 0 {
            assert forall|i: int| 0 <= i < s.len() implies (#[trigger] s[i]).typ
                != AntType::Molly by {
                if i < front.len() {
                    assert(front[i] == s[i]);
                }
            }
        } else if l.typ != AntType::Molly {
            let i = choose|i: int| 0 <= i < front.len() && (#[trigger] front[i]).typ == AntType::Molly;
            assert(s[i].typ == AntType::Molly);
        } else {
            assert(s[s.len() - 1].typ == AntType::Molly);
        }
    }
}

/// Where one ant is Molly and one Molly is counted, no other ant is Molly.
pub proof fn lemma_molly_alone(s: Seq<Ant>, m: int)
    requires
        0 <= m < s.len(),
        s[m].typ == AntType::Molly,
        molly_count(s) == 1,
    ensures
        forall|i: int| 0 <= i < s.len() && i != m ==> (#[trigger] s[i]).typ != AntType::Molly,
{
    let a = s.take(m);
    let b = s.skip(m + 1);
    let mid = Seq::<Ant>::empty().push(s[m]);
    assert(s =~= a + mid + b);
    lemma_molly_add(a + mid, b);
    lemma_molly_add(a, mid);
    lemma_molly_push(Seq::<Ant>::empty(), s[m]);
    lemma_molly_none(a);
    lemma_molly_none(b);
    assert forall|i: int| 0 <= i < s.len() && i != m implies (#[trigger] s[i]).typ
        != AntType::Molly by {
        if i < m {
            assert(a[i] == s[i]);
        } else {
            assert(b[i - m - 1] == s[i]);
        }
    }
}

/// A tick never adds an ant.
pub proof fn lemma_next_shrinks(ants: Seq<Ant>, step: int)
    ensures
        next_ants(ants, step).len() <= ants.len(),
{
    lemma_stable_sort_exists(advanced_all(ants, step));
    lemma_remaining_members(
        relabelled(stable_sorted(advanced_all(ants, step)), kinds_of(ants)),
    );
}

/// A tick never adds a Molly.
pub proof fn lemma_next_molly(ants: Seq<Ant>, step: int)
    ensures
        molly_count(next_ants(ants, step)) <= molly_count(ants),
{
    lemma_stable_sort_exists(advanced_all(ants, step));
    let turned = relabelled(stable_sorted(advanced_all(ants, step)), kinds_of(ants));
    assert(kinds_of(turned) =~= kinds_of(ants));
    lemma_molly_kinds(turned, ants);
    lemma_molly_remaining(turned);
}

/// After a tick the ants are in the order of their positions, in whatever
/// order they were before it.
pub proof fn lemma_next_sorted(ants: Seq<Ant>, step: int)
    ensures
        sorted(next_ants(ants, step)),
{
    lemma_stable_sort_exists(advanced_all(ants, step));
    let walked = stable_sorted(advanced_all(ants, step));
    let turned = relabelled(walked, kinds_of(ants));
    assert forall|i: int, j: int| 0 <= i <= j < turned.len() implies turned[i].position
        <= turned[j].position by {
        assert(walked[i].position <= walked[j].position);
    }
    lemma_remaining_sorted(turned);
}

/// After a tick every ant has the kind that an ant had before it: where
/// each was plain or Molly, each is.
pub proof fn lemma_next_kinds(ants: Seq<Ant>, step: int)
    ensures
        forall|k: int|
            0 <= k < next_ants(ants, step).len() ==> exists|i: int|
                0 <= i < ants.len() && (#[trigger] ants[i]).typ == (#[trigger] next_ants(
                    ants,
                    step,
                )[k]).typ,
        (forall|i: int| 0 <= i < ants.len() ==> (#[trigger] ants[i]).typ != AntType::Empty)
            ==> forall|k: int|
            0 <= k < next_ants(ants, step).len() ==> (#[trigger] next_ants(ants, step)[k]).typ
                != AntType::Empty,
{
    lemma_stable_sort_exists(advanced_all(ants, step));
    let turned = relabelled(stable_sorted(advanced_all(ants, step)), kinds_of(ants));
    let out = next_ants(ants, step);
    lemma_remaining_members(turned);
    assert forall|k: int| 0 <= k < out.len() implies exists|i: int|
        0 <= i < ants.len() && (#[trigger] ants[i]).typ == (#[trigger] out[k]).typ by {
        assert(turned.contains(out[k]));
        let j = choose|j: int| 0 <= j < turned.len() && turned[j] == out[k];
        assert(ants[j].typ == out[k].typ);
    }
}

/// Molly is on the rod after a tick exactly when the ant that then stands
/// in her place among the ants is on the rod: she keeps her rank, whatever
/// ants she met.
pub proof fn lemma_molly_after_tick(ants: Seq<Ant>, step: int, m: int)
    requires
        0 <= m < ants.len(),
        ants[m].typ == AntType::Molly,
        molly_count(ants) == 1,
    ensures
        stable_sorted(advanced_all(ants, step)).len() == ants.len(),
        molly_count(next_ants(ants, step)) == if stable_sorted(advanced_all(ants, step))[m].on_rod() {
            1nat
        } else {
            0nat
        },
{
    lemma_stable_sort_exists(advanced_all(ants, step));
    let walked = stable_sorted(advanced_all(ants, step));
    let turned = relabelled(walked, kinds_of(ants));
    let none = Seq::<Ant>::empty();
    let a = turned.take(m);
    let b = turned.skip(m + 1);
    let mid = none.push(turned[m]);
    assert(turned =~= a + mid + b);
    Seq::filter_distributes_over_add(a + mid, b, stays());
    Seq::filter_distributes_over_add(a, mid, stays());
    lemma_molly_add(remaining(a) + remaining(mid), remaining(b));
    lemma_molly_add(remaining(a), remaining(mid));
    lemma_molly_alone(ants, m);
    assert forall|i: int| 0 <= i < a.len() implies (#[trigger] a[i]).typ != AntType::Molly by {
        assert(a[i].typ == ants[i].typ);
    }
    assert forall|i: int| 0 <= i < b.len() implies (#[trigger] b[i]).typ != AntType::Molly by {
        assert(b[i].typ == ants[i + m + 1].typ);
    }
    lemma_molly_none(a);
    lemma_molly_none(b);
    lemma_molly_remaining(a);
    lemma_molly_remaining(b);
    lemma_remaining_members(none);
    assert(remaining(none) =~= none);
    lemma_remaining_push(none, turned[m]);
    lemma_molly_push(none, turned[m]);
    assert(none.filter(is_molly()).len() <= none.len()) by {
        none.lemma_filter_len(is_molly());
    }
}

/// Whatever stable sort of the ants that walked is taken, the tick gives
/// the same ants: a rod has one next rod.
pub proof fn lemma_next_determined(ants: Seq<Ant>, step: int, walked: Seq<Ant>)
    requires
        is_stable_sort(walked, advanced_all(ants, step)),
    ensures
        remaining(relabelled(walked, kinds_of(ants))) == next_ants(ants, step),
{
    lemma_stable_sort_unique(walked, advanced_all(ants, step));
}

/// An ant on the rod leaves it after at least one tick and at most as many
/// as the rod has units; a tick that leaves it on the rod brings it one
/// tick nearer to leaving.
pub proof fn lemma_ticks_left(a: Ant, step: int)
    requires
        a.on_rod(),
        1 <= step <= u32::MAX,
    ensures
        1 <= a.ticks_left(step) <= ROD_LENGTH,
        a.advanced(step).position == a.next_position(step),
        a.advanced(step).on_rod() <==> a.ticks_left(step) >= 2,
        a.advanced(step).on_rod() ==> a.advanced(step).ticks_left(step) == a.ticks_left(step) - 1,
{
    let p = a.position as int;
    match a.direction {
        Direction::Forward => {
            let x = ROD_LENGTH - p - 1;
            lemma_div_plus_one(x, step);
            lemma_div_pos_is_pos(x, step);
            lemma_div_nonincreasing(x, step);
            assert(a.ticks_left(step) == (step + x) / step);
            if x >= step {
                lemma_div_is_ordered(step, x, step);
                assert(step / step == 1) by (nonlinear_arith)
                    requires
                        step >= 1,
                ;
                let y = ROD_LENGTH - (p + step) - 1;
                lemma_div_plus_one(y, step);
                assert(a.advanced(step).ticks_left(step) == (step + y) / step);
                assert(step + y == x);
            } else {
                lemma_basic_div(x, step);
            }
        },
        Direction::Backward => {
            lemma_div_pos_is_pos(p, step);
            lemma_div_nonincreasing(p, step);
            if p >= step {
                lemma_div_is_ordered(step, p, step);
                assert(step / step == 1) by (nonlinear_arith)
                    requires
                        step >= 1,
                ;
                lemma_div_minus_one(p, step);
                assert(-step + p == p - step);
            } else {
                lemma_basic_div(p, step);
            }
        },
    }
}

/// The horizon is the greatest number of ticks that any ant has left.
pub proof fn lemma_horizon(ants: Seq<Ant>, step: int)
    ensures
        horizon(ants, step) >= 0,
        forall|i: int| 0 <= i < ants.len() ==> (#[trigger] ants[i]).ticks_left(step) <= horizon(ants, step),
        horizon(ants, step) > 0 ==> exists|i: int|
            0 <= i < ants.len() && (#[trigger] ants[i]).ticks_left(step) == horizon(ants, step),
    decreases ants.len(),
{
    if ants.len() > 0 {
        let front = ants.drop_last();
        lemma_horizon(front, step);
        assert forall|i: int| 0 <= i < ants.len() implies (#[trigger] ants[i]).ticks_left(step)
            <= horizon(ants, step) by {
            if i < front.len() {
                assert(front[i] == ants[i]);
            }
        }
        if horizon(ants, step) > 0 {
            if horizon(front, step) >= ants.last().ticks_left(step) {
                let i = choose|i: int|
                    0 <= i < front.len() && (#[trigger] front[i]).ticks_left(step) == horizon(
                        front,
                        step,
                    );
                assert(ants[i].ticks_left(step) == horizon(ants, step));
            } else {
                assert(ants[ants.len() - 1].ticks_left(step) == horizon(ants, step));
            }
        }
    }
}

impl Rod {
    /// A tick of a valid rod gives a valid rod: the ants are in the order of
    /// their positions again, on the rod, and at most one is Molly.
    pub proof fn lemma_next_valid(self)
        requires
            self.valid(),
        ensures
            self.next().valid(),
            sorted(self.next().ants),
            self.next().ants.len() <= self.ants.len(),
            molly_count(self.next().ants) <= molly_count(self.ants),
    {
        lemma_next_shrinks(self.ants, self.step);
        let moved = advanced_all(self.ants, self.step);
        lemma_stable_sort_exists(moved);
        let turned = relabelled(stable_sorted(moved), kinds_of(self.ants));
        lemma_next_sorted(self.ants, self.step);
        lemma_remaining_members(turned);
        lemma_next_molly(self.ants, self.step);
        lemma_next_kinds(self.ants, self.step);
    }

    /// Rods with the same ants, the same step and the same time have the
    /// same next rod: a tick reads nothing else.
    pub proof fn lemma_next_same(self, other: Rod)
        requires
            self.ants == other.ants,
            self.step == other.step,
            self.time == other.time,
        ensures
            self.next() == other.next(),
    {
    }

    /// While ants are left, a tick brings a valid rod one tick nearer to
    /// its end; an empty rod has no tick left and stays empty.
    pub proof fn lemma_next_ticks_left(self)
        requires
            self.valid(),
        ensures
            self.finished() <==> self.ticks_left() == 0,
            0 <= self.ticks_left() <= ROD_LENGTH,
            !self.finished() ==> self.next().ticks_left() == self.ticks_left() - 1,
            self.finished() ==> self.next().finished(),
    {
        let step = self.step;
        let ants = self.ants;
        let moved = advanced_all(ants, step);
        lemma_stable_sort_exists(moved);
        lemma_stable_sort_same_ants(moved);
        let walked = stable_sorted(moved);
        let turned = relabelled(walked, kinds_of(ants));
        let out = next_ants(ants, step);
        let h = horizon(ants, step);
        lemma_horizon(ants, step);
        lemma_horizon(out, step);
        lemma_remaining_members(turned);
        assert forall|i: int| 0 <= i < ants.len() implies 1 <= (#[trigger] ants[i]).ticks_left(
            step,
        ) <= ROD_LENGTH by {
            lemma_ticks_left(ants[i], step);
        }
        if ants.len() > 0 {
            assert(1 <= ants[0].ticks_left(step) <= h);
            let top = choose|i: int|
                0 <= i < ants.len() && (#[trigger] ants[i]).ticks_left(step) == h;
            assert(h <= ROD_LENGTH);
            // no ant that is left has more than h - 1 ticks
            assert forall|k: int| 0 <= k < out.len() implies (#[trigger] out[k]).ticks_left(step)
                <= h - 1 by {
                assert(turned.contains(out[k]));
                let j = choose|j: int| 0 <= j < turned.len() && turned[j] == out[k];
                assert(moved.contains(walked[j]));
                let i = choose|i: int| 0 <= i < moved.len() && moved[i] == walked[j];
                lemma_ticks_left(ants[i], step);
                assert(out[k].position == ants[i].advanced(step).position);
                assert(out[k].direction == ants[i].advanced(step).direction);
                assert(ants[i].advanced(step).on_rod());
                assert(out[k].ticks_left(step) == ants[i].advanced(step).ticks_left(step));
            }
            if h >= 2 {
                lemma_ticks_left(ants[top], step);
                assert(moved[top] == ants[top].advanced(step));
                assert(walked.contains(moved[top]));
                let j = choose|j: int| 0 <= j < walked.len() && walked[j] == moved[top];
                assert(turned[j].on_rod());
                assert(out.contains(turned[j]));
                let k = choose|k: int| 0 <= k < out.len() && out[k] == turned[j];
                assert(out[k].ticks_left(step) == moved[top].ticks_left(step));
                assert(out[k].ticks_left(step) == h - 1);
            } else {
                if out.len() > 0 {
                    assert(turned.contains(out[0]));
                    assert(out[0].on_rod());
                    lemma_ticks_left(out[0], step);
                    assert(out[0].ticks_left(step) <= h - 1);
                }
            }
        } else {
            assert(out.len() <= turned.len());
        }
    }

    /// A valid rod is empty after as many ticks as it has left, and not
    /// before.
    pub proof fn lemma_finishes(self, n: nat)
        requires
            self.valid(),
        ensures
            self.after(n).valid(),
            self.after(n).finished() <==> n >= self.ticks_left(),
            n <= self.ticks_left() ==> self.after(n).ticks_left() == self.ticks_left() - n,
        decreases n,
    {
        self.lemma_next_ticks_left();
        if n > 0 {
            let before = self.after((n - 1) as nat);
            self.lemma_finishes((n - 1) as nat);
            before.lemma_next_valid();
            before.lemma_next_ticks_left();
            before.next().lemma_next_ticks_left();
        }
    }
}

} // verus!
