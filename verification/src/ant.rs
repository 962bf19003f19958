//! The ants: where one stands, which way it walks and what it is.

use vstd::prelude::*;
use vstd::string::StringExecFns;
use rand::rngs::StdRng;
use crate::random::{gen_range, gen_ratio};

verus! {

/// The number of units from one end of the rod to the other. The rod holds
/// the positions `0`, `1`, .., `ROD_LENGTH - 1`.
pub const ROD_LENGTH: i64 = 1_000_000_000;

/// What stands in a place: nothing, an ant like any other, or Molly.
///
/// An ant on the rod is `Plain` or `Molly`; `Empty` is for the cells of a
/// drawing in which no ant stands.
#[derive(Clone, Copy, PartialEq, Eq, Structural, Debug)]
pub enum AntType {
    Empty,
    Plain,
    Molly,
}

impl AntType {
    /// What a place shows when `other` is put where `self` was: Molly is not
    /// covered by a plain ant, anything else gives way.
    pub open spec fn merged(self, other: AntType) -> AntType {
        if self == AntType::Molly && other == AntType::Plain {
            AntType::Molly
        } else {
            other
        }
    }

    /// The characters that draw this kind: a white cell, with a black dot
    /// for a plain ant and a magenta one for Molly, and the reset sequence.
    pub open spec fn glyph(self) -> Seq<char> {
        match self {
            AntType::Empty => "\x1b[47m "@ + "\x1b[0m"@,
            AntType::Plain => "\x1b[30m\x1b[47m●"@ + "\x1b[0m"@,
            AntType::Molly => "\x1b[35m\x1b[47m●"@ + "\x1b[0m"@,
        }
    }

    /// Puts `other` in this place, unless that would cover Molly with a
    /// plain ant.
    pub fn set(&mut self, other: AntType)
        ensures
            *final(self) == old(self).merged(other),
    {
        match (*self, other) {
            (AntType::Molly, AntType::Plain) => {},
            (_, a) => {
                *self = a;
            },
        }
    }

    /// The escape sequences and the character that draw this kind on a
    /// terminal.
    pub fn to_string(&self) -> (s: String)
        ensures
            s@ == self.glyph(),
    {
        let ant = match self {
            AntType::Empty => "\x1b[47m ",
            AntType::Plain => "\x1b[30m\x1b[47m●",
            AntType::Molly => "\x1b[35m\x1b[47m●",
        };
        let mut s = String::from_str(ant);
        s.append("\x1b[0m");
        s
    }
}

impl Default for AntType {
    fn default() -> (t: AntType)
        ensures
            t == AntType::Empty,
    {
        AntType::Empty
    }
}

/// The way an ant walks: `Forward` towards the far end of the rod, where the
/// positions grow, `Backward` towards position `0`.
#[derive(Clone, Copy, PartialEq, Eq, Structural, Debug)]
pub enum Direction {
    Forward,
    Backward,
}

/// One ant. Its direction never changes: two ants that meet swap what they
/// are, not the way they walk.
#[derive(Clone, Copy, PartialEq, Eq, Structural, Debug)]
pub struct Ant {
    pub position: i64,
    pub direction: Direction,
    pub typ: AntType,
}

impl Ant {
    /// The ant stands on the rod.
    pub open spec fn on_rod(self) -> bool {
        0 <= self.position < ROD_LENGTH
    }

    /// The ant stands inside the rod: on it and not on its near end, where
    /// no ant stands at the start.
    pub open spec fn inside(self) -> bool {
        0 < self.position < ROD_LENGTH
    }

    /// Where the ant stands after one tick of `step` units.
    pub open spec fn next_position(self, step: int) -> int {
        match self.direction {
            Direction::Forward => self.position + step,
            Direction::Backward => self.position - step,
        }
    }

    /// The ant after one tick of `step` units.
    pub open spec fn advanced(self, step: int) -> Ant {
        Ant { position: self.next_position(step) as i64, ..self }
    }

    /// The same ant under another kind.
    pub open spec fn with_typ(self, typ: AntType) -> Ant {
        Ant { typ, ..self }
    }

    /// The number of ticks of `step` units after which the ant has left the
    /// rod, for an ant on the rod and a positive step.
    pub open spec fn ticks_left(self, step: int) -> int {
        match self.direction {
            Direction::Forward => (ROD_LENGTH - self.position + step - 1) / step,
            Direction::Backward => (self.position as int) / step + 1,
        }
    }

    /// The plain ant that two draws give: it stands at the position that
    /// was drawn from inside the rod and walks forward if `forward` came up,
    /// backward if not.
    pub fn drawn(position: i64, forward: bool) -> (a: Ant)
        requires
            0 < position < ROD_LENGTH,
        ensures
            a == (Ant {
                position,
                direction: if forward {
                    Direction::Forward
                } else {
                    Direction::Backward
                },
                typ: AntType::Plain,
            }),
    {
        Ant {
            position,
            direction: if forward {
                Direction::Forward
            } else {
                Direction::Backward
            },
            typ: AntType::Plain,
        }
    }

    /// A plain ant at a position drawn from inside the rod, walking either
    /// way with an even chance.
    pub fn random(rng: &mut StdRng) -> (a: Ant)
        ensures
            a.inside(),
            a.typ == AntType::Plain,
    {
        let position = gen_range(rng, 1, ROD_LENGTH);
        let forward = gen_ratio(rng, 1, 2);
        Ant::drawn(position, forward)
    }

    /// Walks `step` units in the ant's direction. The position that it
    /// comes to must be one that the machine can hold, as it is for every
    /// ant on the rod.
    pub fn advance(&mut self, step: u32)
        requires
            i64::MIN <= old(self).next_position(step as int) <= i64::MAX,
        ensures
            *final(self) == old(self).advanced(step as int),
            final(self).position == old(self).next_position(step as int),
    {
        match self.direction {
            Direction::Forward => {
                self.position = self.position + step as i64;
            },
            Direction::Backward => {
                self.position = self.position - step as i64;
            },
        }
    }
}

} // verus!
