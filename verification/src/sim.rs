//! The simulation: a rod that is set up from its parameters and then moved
//! on tick by tick until no ant is left.

use vstd::prelude::*;
use rand::rngs::StdRng;
use crate::ant::{Ant, AntType};
use crate::order::{sort_by_position, sorted};
use crate::placement::{
    draw, lemma_placed, lemma_regular_ants, place, placed, regular, regular_ants,
};
use crate::rod::{kinds_of, lemma_next_molly, lemma_next_shrinks, molly_count, Rod};
use crate::tick::{advance_all, evict, kinds, relabel};

verus! {

/// The parameters of a simulation.
pub struct Args {
    /// The number of ants.
    pub ant_count: usize,
    /// The rank of Molly among the ants, counted from the near end and from
    /// zero; the middle where none is given.
    pub molly_index: Option<usize>,
    /// The number of units that an ant walks in a tick.
    pub ant_step: u32,
    /// Evenly spaced ants with Molly in the middle, in place of ants drawn
    /// at random.
    pub regular: bool,
}

/// What is wrong with the parameters of a simulation.
#[derive(Clone, Copy, PartialEq, Eq, Structural, Debug)]
pub enum InvalidConfiguration {
    /// The rank given for Molly is not below the number of ants.
    MollyIndex,
    /// The step is zero.
    AntStep,
}

impl Args {
    /// The rank of Molly: the one given, or the middle.
    pub open spec fn molly(self) -> int {
        match self.molly_index {
            Some(m) => m as int,
            None => self.ant_count as int / 2,
        }
    }

    /// What is wrong with the parameters, if anything: first a rank for
    /// Molly that no ant has, then a step of zero.
    pub open spec fn fault(self) -> Option<InvalidConfiguration> {
        if self.molly_index.is_some() && self.molly_index.unwrap() >= self.ant_count {
            Some(InvalidConfiguration::MollyIndex)
        } else if self.ant_step == 0 {
            Some(InvalidConfiguration::AntStep)
        } else {
            None
        }
    }

    /// The parameters that were given, if nothing is wrong with them: a
    /// rank that is given for Molly is below the number of ants, and the
    /// step is not zero.
    pub fn new(
        ant_count: usize,
        molly_index: Option<usize>,
        ant_step: u32,
        regular: bool,
    ) -> (r: Result<Args, InvalidConfiguration>)
        ensures
            match r {
                Ok(a) => {
                    &&& a == (Args { ant_count, molly_index, ant_step, regular })
                    &&& a.fault().is_none()
                    &&& a.ant_step >= 1
                    &&& a.molly_index.is_some() ==> a.molly_index.unwrap() < a.ant_count
                    &&& a.ant_count >= 1 ==> 0 <= a.molly() < a.ant_count
                },
                Err(e) => (Args { ant_count, molly_index, ant_step, regular }).fault() == Some(e),
            },
            molly_index.is_some() && molly_index.unwrap() >= ant_count ==> r == Err::<
                Args,
                InvalidConfiguration,
            >(InvalidConfiguration::MollyIndex),
    {
        let args = Args { ant_count, molly_index, ant_step, regular };
        match args.check() {
            Ok(()) => Ok(args),
            Err(e) => Err(e),
        }
    }

    /// Tests the parameters.
    pub fn check(&self) -> (r: Result<(), InvalidConfiguration>)
        ensures
            r == match self.fault() {
                Some(e) => Err::<(), InvalidConfiguration>(e),
                None => Ok(()),
            },
    {
        match self.molly_index {
            Some(m) => {
                if m >= self.ant_count {
                    return Err(InvalidConfiguration::MollyIndex);
                }
            },
            None => {},
        }
        if self.ant_step == 0 {
            return Err(InvalidConfiguration::AntStep);
        }
        Ok(())
    }

    /// The rank of Molly: the one given, or the middle.
    pub fn molly_rank(&self) -> (m: usize)
        ensures
            m == self.molly(),
    {
        match self.molly_index {
            Some(m) => m,
            None => self.ant_count / 2,
        }
    }
}

/// A rod with its ants.
pub struct AntRod {
    // always in the order of the positions
    ants: Vec<Ant>,
    ant_step: u32,
    time: u64,
}

impl View for AntRod {
    type V = Rod;

    closed spec fn view(&self) -> Rod {
        Rod { ants: self.ants@, step: self.ant_step as int, time: self.time as nat }
    }
}

impl AntRod {
    /// The rod is valid, and the count of its ticks has room for every tick
    /// that is to come while ants are left, and for one more.
    pub open spec fn wf(&self) -> bool {
        &&& self@.valid()
        &&& self@.time + self@.ticks_left() < u64::MAX
    }

    /// Sets up a rod. With `regular` the ants are evenly spaced and Molly
    /// is the middle one; without it they are drawn from `rng` and Molly is
    /// the one of the rank that the parameters give. Nothing is drawn from
    /// `rng` for evenly spaced ants, nor where the parameters are refused.
    ///
    /// Every ant starts inside the rod, none on its near end.
    pub fn from_args(args: &Args, rng: &mut StdRng) -> (r: Result<AntRod, InvalidConfiguration>)
        ensures
            args.regular || r.is_err() ==> *final(rng) == *old(rng),
            match r {
                Err(e) => args.fault() == Some(e),
                Ok(rod) => {
                    &&& args.fault().is_none()
                    &&& rod.wf()
                    &&& rod@.time == 0
                    &&& rod@.step == args.ant_step
                    &&& rod@.ants.len() == args.ant_count
                    &&& molly_count(rod@.ants) == if args.ant_count == 0 {
                        0nat
                    } else {
                        1nat
                    }
                    &&& forall|i: int|
                        0 <= i < args.ant_count ==> (#[trigger] rod@.ants[i]).inside()
                    &&& args.regular ==> rod@.ants == regular_ants(args.ant_count as nat)
                    &&& !args.regular ==> forall|i: int|
                        0 <= i < args.ant_count ==> (#[trigger] rod@.ants[i]).typ == if i
                            == args.molly() {
                            AntType::Molly
                        } else {
                            AntType::Plain
                        }
                },
            },
    {
        match args.check() {
            Err(e) => {
                return Err(e);
            },
            Ok(()) => {},
        }
        let ants = if args.regular {
            proof {
                lemma_regular_ants(args.ant_count as nat);
            }
            regular(args.ant_count)
        } else {
            let drawn = draw(args.ant_count, rng);
            proof {
                lemma_placed(drawn@, args.molly());
            }
            place(drawn, args.molly_rank())
        };
        let rod = AntRod { ants, ant_step: args.ant_step, time: 0 };
        proof {
            rod@.lemma_next_ticks_left();
        }
        Ok(rod)
    }

    /// Moves the rod on by one tick: every ant walks a step, the ants are
    /// put in the order of their positions while the kinds stay in their
    /// places, and the ants that left the rod are dropped. Ants that come
    /// to stand at one position keep their order.
    ///
    /// A rod with ants on it is well formed after the tick as before. A tick
    /// of an empty rod only counts: it leaves the rod well formed unless
    /// the count has then come to the last number that it can hold.
    pub fn step(&mut self)
        requires
            old(self).wf(),
        ensures
            final(self)@ == old(self)@.next(),
            final(self)@.valid(),
            !old(self)@.finished() || old(self)@.time + 1 < u64::MAX ==> final(self).wf(),
            sorted(final(self)@.ants),
            final(self)@.ants.len() <= old(self)@.ants.len(),
            molly_count(final(self)@.ants) <= molly_count(old(self)@.ants),
            !old(self)@.finished() ==> final(self)@.ticks_left() == old(self)@.ticks_left() - 1,
    {
        proof {
            self@.lemma_next_valid();
            self@.lemma_next_ticks_left();
            self@.next().lemma_next_ticks_left();
            lemma_next_shrinks(self@.ants, self@.step);
            lemma_next_molly(self@.ants, self@.step);
        }
        let ghost start = self.ants@;
        assert forall|i: int| 0 <= i < start.len() implies i64::MIN <= (#[trigger] start[i]).next_position(
            self.ant_step as int,
        ) <= i64::MAX by {
            assert(start[i].on_rod());
        }
        advance_all(&mut self.ants, self.ant_step);
        let typ = kinds(&self.ants);
        assert(typ@ =~= kinds_of(start));
        sort_by_position(&mut self.ants);
        let ghost walked = self.ants@;
        relabel(&mut self.ants, &typ);
        assert(sorted(self.ants@)) by {
            assert forall|i: int, j: int| 0 <= i <= j < walked.len() implies self.ants@[i].position
                <= self.ants@[j].position by {
                assert(walked[i].position <= walked[j].position);
            }
        }
        evict(&mut self.ants);
        self.time = self.time + 1;
    }

    /// Whether any ant is left on the rod.
    pub fn has_ants(&self) -> (b: bool)
        ensures
            b == !self@.finished(),
    {
        !self.ants.is_empty()
    }

    /// The ants on the rod, from the near end to the far end.
    pub fn ants(&self) -> (ants: &Vec<Ant>)
        ensures
            ants@ == self@.ants,
    {
        &self.ants
    }

    /// The number of units that an ant walks in a tick.
    pub fn ant_step(&self) -> (step: u32)
        ensures
            step == self@.step,
    {
        self.ant_step
    }

    /// The number of ticks so far.
    pub fn time(&self) -> (time: u64)
        ensures
            time == self@.time,
    {
        self.time
    }

    /// The number of units that an ant has walked since the start, had it
    /// never left: the ticks so far times the step.
    pub fn elapsed(&self) -> (units: u128)
        ensures
            units == self@.time * self@.step,
    {
        assert(self.time * self.ant_step <= 0xffff_ffff_ffff_ffff * 0xffff_ffff) by (nonlinear_arith)
            requires
                0 <= self.time <= 0xffff_ffff_ffff_ffff,
                0 <= self.ant_step <= 0xffff_ffff,
        ;
        (self.time as u128) * (self.ant_step as u128)
    }
}

} // verus!
