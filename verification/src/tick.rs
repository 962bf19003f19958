//! The four phases of a tick, each on the ants alone: walk, note the kinds,
//! sort and give the kinds back by place, drop the ants that fell off.

use vstd::prelude::*;
use crate::ant::{Ant, AntType, ROD_LENGTH};
use crate::order::sorted;
use crate::rod::{advanced_all, kinds_of, lemma_remaining_range, relabelled, remaining};

verus! {

/// Lets every ant walk `step` units in its direction. The positions that
/// they come to must be such that the machine can hold them, as they are
/// for ants on the rod.
pub fn advance_all(ants: &mut Vec<Ant>, step: u32)
    requires
        forall|i: int|
            0 <= i < old(ants)@.len() ==> i64::MIN <= (#[trigger] old(ants)@[i]).next_position(
                step as int,
            ) <= i64::MAX,
    ensures
        final(ants)@ == advanced_all(old(ants)@, step as int),
{
    let ghost start = ants@;
    let n = ants.len();
    let mut i: usize = 0;
    while i < n
        invariant
            ants@.len() == n,
            start.len() == n,
            i <= n,
            forall|k: int| 0 <= k < i ==> ants@[k] == (#[trigger] start[k]).advanced(step as int),
            forall|k: int| i <= k < n ==> ants@[k] == #[trigger] start[k],
            forall|k: int|
                0 <= k < n ==> i64::MIN <= (#[trigger] start[k]).next_position(step as int)
                    <= i64::MAX,
        decreases n - i,
    {
        let mut a = ants[i];
        assert(a == start[i as int]);
        a.advance(step);
        ants.set(i, a);
        i = i + 1;
    }
    assert(ants@ =~= advanced_all(start, step as int));
}

/// The kinds of the ants, place by place.
pub fn kinds(ants: &Vec<Ant>) -> (typ: Vec<AntType>)
    ensures
        typ@ == kinds_of(ants@),
{
    let n = ants.len();
    let mut typ: Vec<AntType> = Vec::new();
    let mut i: usize = 0;
    while i < n
        invariant
            ants@.len() == n,
            i <= n,
            typ@.len() == i,
            forall|k: int| 0 <= k < i ==> typ@[k] == ants@[k].typ,
        decreases n - i,
    {
        typ.push(ants[i].typ);
        i = i + 1;
    }
    assert(typ@ =~= kinds_of(ants@));
    typ
}

/// Gives the ant in each place the kind that `typ` holds for that place.
pub fn relabel(ants: &mut Vec<Ant>, typ: &Vec<AntType>)
    requires
        typ@.len() == old(ants)@.len(),
    ensures
        final(ants)@ == relabelled(old(ants)@, typ@),
{
    let ghost start = ants@;
    let n = ants.len();
    let mut i: usize = 0;
    while i < n
        invariant
            ants@.len() == n,
            start.len() == n,
            typ@.len() == n,
            i <= n,
            forall|k: int| 0 <= k < i ==> ants@[k] == (#[trigger] start[k]).with_typ(typ@[k]),
            forall|k: int| i <= k < n ==> ants@[k] == #[trigger] start[k],
        decreases n - i,
    {
        let mut a = ants[i];
        a.typ = typ[i];
        ants.set(i, a);
        i = i + 1;
    }
    assert(ants@ =~= relabelled(start, typ@));
}

/// Drops the ants that have left the rod: those beyond the far end from the
/// back of the sorted sequence, those before the near end from its front.
pub fn evict(ants: &mut Vec<Ant>)
    requires
        sorted(old(ants)@),
    ensures
        final(ants)@ == remaining(old(ants)@),
{
    let ghost start = ants@;
    let mut hi: usize = ants.len();
    while hi > 0 && ants[hi - 1].position >= ROD_LENGTH
        invariant
            ants@ == start,
            hi <= start.len(),
            forall|k: int| hi <= k < start.len() ==> (#[trigger] start[k]).position >= ROD_LENGTH,
        decreases hi,
    {
        hi = hi - 1;
    }
    let mut lo: usize = 0;
    while lo < hi && ants[lo].position < 0
        invariant
            ants@ == start,
            lo <= hi <= start.len(),
            forall|k: int| 0 <= k < lo ==> (#[trigger] start[k]).position < 0,
        decreases hi - lo,
    {
        lo = lo + 1;
    }
    proof {
        assert forall|k: int| lo <= k < hi implies (#[trigger] start[k]).on_rod() by {
            assert(start[lo as int].position <= start[k].position);
            assert(start[k].position <= start[hi - 1].position);
        }
        lemma_remaining_range(start, lo as int, hi as int);
    }
    ants.truncate(hi);
    let kept = ants.split_off(lo);
    *ants = kept;
    assert(ants@ =~= start.subrange(lo as int, hi as int));
}

} // verus!
