//! Where the ants stand at the start: evenly spaced with Molly in the
//! middle, or wherever chance put them.

use vstd::prelude::*;
use rand::rngs::StdRng;
use crate::ant::{Ant, AntType, Direction, ROD_LENGTH};
use crate::order::{lemma_stable_sort_exists, sort_by_position, sorted, stable_sorted};
use crate::rod::{
    lemma_molly_add, lemma_molly_none, lemma_molly_push, molly_count,
};
use vstd::arithmetic::div_mod::{lemma_div_is_ordered, lemma_div_pos_is_pos};

verus! {

/// The unit on which the ant in place `i` of `n` evenly spaced ants stands:
/// the one at or just before the point `i + 1` parts of `n + 1` along the
/// rod, and never the near end. Where the ants are so many that the first
/// of them would come to stand on the near end, they stand on unit 1.
pub open spec fn regular_unit(n: int, i: int) -> int {
    let unit = (i + 1) * ROD_LENGTH / (n + 1);
    if unit < 1 {
        1
    } else {
        unit
    }
}

/// The ant in place `i` of `n` evenly spaced ants. The ant in place `n / 2`
/// is Molly. She and the ants before her walk forward, the ants behind her
/// walk backward.
pub open spec fn regular_ant(n: int, i: int) -> Ant {
    Ant {
        position: regular_unit(n, i) as i64,
        direction: if i <= n / 2 {
            Direction::Forward
        } else {
            Direction::Backward
        },
        typ: if i == n / 2 {
            AntType::Molly
        } else {
            AntType::Plain
        },
    }
}

/// `n` evenly spaced ants.
pub open spec fn regular_ants(n: nat) -> Seq<Ant> {
    Seq::new(n, |i: int| regular_ant(n as int, i))
}

/// The ants of `ants` with Molly in place `molly` and plain ants in all
/// other places.
pub open spec fn with_molly(ants: Seq<Ant>, molly: int) -> Seq<Ant> {
    Seq::new(
        ants.len(),
        |i: int|
            ants[i].with_typ(
                if i == molly {
                    AntType::Molly
                } else {
                    AntType::Plain
                },
            ),
    )
}

/// The ants that were drawn, in the order of their positions, the one of
/// rank `molly` being Molly.
pub open spec fn placed(drawn: Seq<Ant>, molly: int) -> Seq<Ant> {
    with_molly(stable_sorted(drawn), molly)
}

/// Where the ant in place `m` is Molly and no other is, one Molly is
/// counted.
pub proof fn lemma_molly_single(s: Seq<Ant>, m: int)
    requires
        0 <= m < s.len(),
        forall|i: int| 0 <= i < s.len() ==> ((#[trigger] s[i]).typ == AntType::Molly <==> i == m),
    ensures
        molly_count(s) == 1,
{
    let a = s.take(m);
    let b = s.skip(m + 1);
    let none = Seq::<Ant>::empty();
    let mid = none.push(s[m]);
    assert(s =~= a + mid + b);
    lemma_molly_add(a + mid, b);
    lemma_molly_add(a, mid);
    lemma_molly_push(none, s[m]);
    lemma_molly_none(none);
    lemma_molly_none(a);
    lemma_molly_none(b);
    assert forall|i: int| 0 <= i < a.len() implies (#[trigger] a[i]).typ != AntType::Molly by {
        assert(a[i] == s[i]);
    }
    assert forall|i: int| 0 <= i < b.len() implies (#[trigger] b[i]).typ != AntType::Molly by {
        assert(b[i] == s[i + m + 1]);
    }
}

/// Evenly spaced ants stand inside the rod, none before an earlier one.
/// Fewer ants than the rod has units stand exactly at or just before their
/// points.
pub proof fn lemma_regular_position(n: int, i: int, j: int)
    requires
        0 <= i <= j < n,
    ensures
        0 <= (i + 1) * ROD_LENGTH / (n + 1) <= (j + 1) * ROD_LENGTH / (n + 1) < ROD_LENGTH,
        0 < regular_unit(n, i) <= regular_unit(n, j) < ROD_LENGTH,
        n < ROD_LENGTH ==> regular_unit(n, i) == (i + 1) * ROD_LENGTH / (n + 1),
{
    let d = n + 1;
    if n < ROD_LENGTH {
        assert(d <= (i + 1) * ROD_LENGTH) by (nonlinear_arith)
            requires
                0 <= i,
                d <= ROD_LENGTH,
        ;
        lemma_div_is_ordered(d, (i + 1) * ROD_LENGTH, d);
        assert(d / d == 1) by (nonlinear_arith)
            requires
                d >= 1,
        ;
    }
    assert(0 <= (i + 1) * ROD_LENGTH <= (j + 1) * ROD_LENGTH) by (nonlinear_arith)
        requires
            0 <= i <= j,
    ;
    lemma_div_pos_is_pos((i + 1) * ROD_LENGTH, d);
    lemma_div_is_ordered((i + 1) * ROD_LENGTH, (j + 1) * ROD_LENGTH, d);
    assert((j + 1) * ROD_LENGTH / d < ROD_LENGTH) by (nonlinear_arith)
        requires
            0 <= j + 1 < d,
    ;
}

/// Evenly spaced ants are in the order of their positions, inside the rod,
/// each plain or Molly, and Molly is one of them unless there is none.
pub proof fn lemma_regular_ants(n: nat)
    ensures
        sorted(regular_ants(n)),
        forall|i: int| 0 <= i < n ==> (#[trigger] regular_ants(n)[i]).inside(),
        forall|i: int| 0 <= i < n ==> (#[trigger] regular_ants(n)[i]).typ != AntType::Empty,
        molly_count(regular_ants(n)) == if n == 0 {
            0nat
        } else {
            1nat
        },
{
    let s = regular_ants(n);
    assert forall|i: int, j: int| 0 <= i <= j < s.len() implies s[i].position
        <= s[j].position by {
        lemma_regular_position(n as int, i, j);
    }
    assert forall|i: int| 0 <= i < n implies (#[trigger] s[i]).inside() by {
        lemma_regular_position(n as int, i, i);
    }
    if n == 0 {
        lemma_molly_none(s);
    } else {
        lemma_molly_single(s, (n / 2) as int);
    }
}

/// Ants that were drawn inside the rod are, once placed, in the order of
/// their positions and inside the rod, and Molly is the one of rank `molly`.
pub proof fn lemma_placed(drawn: Seq<Ant>, molly: int)
    requires
        forall|i: int| 0 <= i < drawn.len() ==> (#[trigger] drawn[i]).inside(),
    ensures
        placed(drawn, molly).len() == drawn.len(),
        sorted(placed(drawn, molly)),
        forall|i: int| 0 <= i < drawn.len() ==> (#[trigger] placed(drawn, molly)[i]).inside(),
        molly_count(placed(drawn, molly)) == if 0 <= molly < drawn.len() {
            1nat
        } else {
            0nat
        },
{
    lemma_stable_sort_exists(drawn);
    crate::order::lemma_stable_sort_same_ants(drawn);
    let s = stable_sorted(drawn);
    let out = placed(drawn, molly);
    assert forall|i: int, j: int| 0 <= i <= j < out.len() implies out[i].position
        <= out[j].position by {
        assert(s[i].position <= s[j].position);
    }
    assert forall|i: int| 0 <= i < drawn.len() implies (#[trigger] out[i]).inside() by {
        assert(drawn.contains(s[i]));
        let k = choose|k: int| 0 <= k < drawn.len() && drawn[k] == s[i];
        assert(drawn[k].inside());
    }
    if 0 <= molly < drawn.len() {
        lemma_molly_single(out, molly);
    } else {
        lemma_molly_none(out);
    }
}

/// The unit on which the ant in place `i` of `ant_count` evenly spaced ants
/// stands.
pub fn regular_position(ant_count: usize, i: usize) -> (position: i64)
    requires
        i < ant_count,
    ensures
        position == regular_unit(ant_count as int, i as int),
        0 < position < ROD_LENGTH,
{
    proof {
        lemma_regular_position(ant_count as int, i as int, i as int);
        assert((i + 1) * ROD_LENGTH <= 0x1_0000_0000_0000_0000 * ROD_LENGTH) by (nonlinear_arith)
            requires
                0 <= i + 1 <= 0x1_0000_0000_0000_0000,
        ;
    }
    let parts: u128 = (i as u128 + 1) * (ROD_LENGTH as u128);
    let unit: u128 = parts / (ant_count as u128 + 1);
    if unit < 1 {
        1
    } else {
        unit as i64
    }
}

/// `ant_count` ants, evenly spaced along the rod.
pub fn regular(ant_count: usize) -> (ants: Vec<Ant>)
    ensures
        ants@ == regular_ants(ant_count as nat),
{
    let middle = ant_count / 2;
    let mut ants: Vec<Ant> = Vec::new();
    let mut i: usize = 0;
    while i < ant_count
        invariant
            i <= ant_count,
            middle == ant_count / 2,
            ants@.len() == i,
            forall|k: int| 0 <= k < i ==> ants@[k] == regular_ant(ant_count as int, k),
        decreases ant_count - i,
    {
        let position = regular_position(ant_count, i);
        ants.push(
            Ant {
                position,
                direction: if i <= middle {
                    Direction::Forward
                } else {
                    Direction::Backward
                },
                typ: if i == middle {
                    AntType::Molly
                } else {
                    AntType::Plain
                },
            },
        );
        i = i + 1;
    }
    assert(ants@ =~= regular_ants(ant_count as nat));
    ants
}

/// `ant_count` plain ants, each drawn from `rng` and inside the rod.
pub fn draw(ant_count: usize, rng: &mut StdRng) -> (ants: Vec<Ant>)
    ensures
        ants@.len() == ant_count,
        forall|i: int| 0 <= i < ant_count ==> (#[trigger] ants@[i]).inside(),
        forall|i: int| 0 <= i < ant_count ==> (#[trigger] ants@[i]).typ == AntType::Plain,
{
    let mut ants: Vec<Ant> = Vec::new();
    let mut i: usize = 0;
    while i < ant_count
        invariant
            i <= ant_count,
            ants@.len() == i,
            forall|k: int| 0 <= k < i ==> (#[trigger] ants@[k]).inside(),
            forall|k: int| 0 <= k < i ==> (#[trigger] ants@[k]).typ == AntType::Plain,
        decreases ant_count - i,
    {
        let a = Ant::random(rng);
        ants.push(a);
        i = i + 1;
    }
    ants
}

/// Puts the ants that were drawn in the order of their positions and makes
/// the one of rank `molly` Molly, all others plain. Ants at one position
/// keep the order in which they were drawn.
pub fn place(drawn: Vec<Ant>, molly: usize) -> (ants: Vec<Ant>)
    ensures
        ants@ == placed(drawn@, molly as int),
{
    let mut ants = drawn;
    sort_by_position(&mut ants);
    let ghost walked = ants@;
    let n = ants.len();
    let mut i: usize = 0;
    while i < n
        invariant
            ants@.len() == n,
            walked.len() == n,
            i <= n,
            forall|k: int|
                0 <= k < i ==> ants@[k] == (#[trigger] walked[k]).with_typ(
                    if k == molly {
                        AntType::Molly
                    } else {
                        AntType::Plain
                    },
                ),
            forall|k: int| i <= k < n ==> ants@[k] == #[trigger] walked[k],
        decreases n - i,
    {
        let mut a = ants[i];
        a.typ = if i == molly {
            AntType::Molly
        } else {
            AntType::Plain
        };
        ants.set(i, a);
        i = i + 1;
    }
    assert(ants@ =~= placed(drawn@, molly as int));
    ants
}

} // verus!
