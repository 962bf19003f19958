//! A row of cells that shows the rod on a terminal.

use vstd::prelude::*;
use vstd::string::StringExecFns;
use crate::ant::{Ant, AntType, ROD_LENGTH};

verus! {

/// The cell of a row of `resolution` cells in which the ant is shown.
pub open spec fn cell_of(a: Ant, resolution: int) -> int {
    a.position * resolution / (ROD_LENGTH as int)
}

/// The ant is shown in cell `c` of a row of `resolution` cells.
pub open spec fn shown_in(a: Ant, resolution: int, c: int) -> bool {
    cell_of(a, resolution) == c
}

/// What cell `c` of a row of `resolution` cells shows of the ants: Molly
/// where she is among the ants of the cell, else a plain ant where the cell
/// has any ant, else nothing.
pub open spec fn shown(ants: Seq<Ant>, resolution: int, c: int) -> AntType {
    if exists|i: int|
        0 <= i < ants.len() && shown_in(#[trigger] ants[i], resolution, c) && ants[i].typ
            == AntType::Molly {
        AntType::Molly
    } else if exists|i: int| 0 <= i < ants.len() && shown_in(#[trigger] ants[i], resolution, c) {
        AntType::Plain
    } else {
        AntType::Empty
    }
}

/// The characters that draw a row of cells, cell after cell.
pub open spec fn glyphs(cells: Seq<AntType>) -> Seq<char> {
    cells.map_values(|t: AntType| t.glyph()).flatten()
}

/// The characters of a picture of the cells: the sequences that move the
/// cursor two lines up and clear what follows it, and then the cells.
pub open spec fn picture_of(cells: Seq<AntType>) -> Seq<char> {
    "\x1b[2F\x1b[0J"@ + glyphs(cells)
}

/// An ant on the rod is shown in one of the cells of a row that has any.
pub proof fn lemma_cell_of(a: Ant, resolution: int)
    requires
        a.on_rod(),
        0 < resolution,
    ensures
        0 <= cell_of(a, resolution) < resolution,
{
    let p = a.position as int;
    assert(0 <= p * resolution / (ROD_LENGTH as int) < resolution) by (nonlinear_arith)
        requires
            0 <= p < ROD_LENGTH,
            0 < resolution,
            ROD_LENGTH == 1_000_000_000,
    ;
}

/// An ant that is put on a row after others shows in its own cell over what
/// was there, unless it is a plain ant and Molly was there.
pub proof fn lemma_shown_push(ants: Seq<Ant>, x: Ant, resolution: int, c: int)
    requires
        x.typ != AntType::Empty,
    ensures
        shown(ants.push(x), resolution, c) == if shown_in(x, resolution, c) {
            shown(ants, resolution, c).merged(x.typ)
        } else {
            shown(ants, resolution, c)
        },
{
    let more = ants.push(x);
    let n = ants.len() as int;
    assert(more[n] == x);
    assert forall|i: int| 0 <= i < n implies more[i] == ants[i] by {}
    if exists|i: int|
        0 <= i < ants.len() && shown_in(#[trigger] ants[i], resolution, c) && ants[i].typ
            == AntType::Molly {
        let i = choose|i: int|
            0 <= i < ants.len() && shown_in(#[trigger] ants[i], resolution, c) && ants[i].typ
                == AntType::Molly;
        assert(shown_in(more[i], resolution, c) && more[i].typ == AntType::Molly);
    } else if exists|i: int| 0 <= i < ants.len() && shown_in(#[trigger] ants[i], resolution, c) {
        let i = choose|i: int| 0 <= i < ants.len() && shown_in(#[trigger] ants[i], resolution, c);
        assert(shown_in(more[i], resolution, c));
        if shown_in(x, resolution, c) && x.typ == AntType::Molly {
            assert(shown_in(more[n], resolution, c) && more[n].typ == AntType::Molly);
        } else {
            assert forall|j: int|
                0 <= j < more.len() && shown_in(#[trigger] more[j], resolution, c) implies more[j].typ
                != AntType::Molly by {
                if j < n {
                    assert(more[j] == ants[j]);
                }
            }
        }
    } else {
        if shown_in(x, resolution, c) {
            assert(shown_in(more[n], resolution, c));
            if x.typ != AntType::Molly {
                assert forall|j: int|
                    0 <= j < more.len() && shown_in(
                        #[trigger] more[j],
                        resolution,
                        c,
                    ) implies more[j].typ != AntType::Molly by {
                    if j < n {
                        assert(more[j] == ants[j]);
                    }
                }
            }
        } else {
            assert forall|j: int| 0 <= j < more.len() implies !shown_in(
                #[trigger] more[j],
                resolution,
                c,
            ) by {
                if j < n {
                    assert(more[j] == ants[j]);
                }
            }
        }
    }
}

/// A row of cells and the characters of its last picture.
pub struct Drawer {
    ant_vec: Vec<AntType>,
    buffer: String,
}

impl Drawer {
    /// What the cells show.
    pub closed spec fn cells(&self) -> Seq<AntType> {
        self.ant_vec@
    }

    /// The characters of the last picture.
    pub closed spec fn picture(&self) -> Seq<char> {
        self.buffer@
    }

    /// A row of `resolution` empty cells, with no picture yet.
    pub fn new(resolution: usize) -> (d: Drawer)
        ensures
            d.cells() == Seq::new(resolution as nat, |i: int| AntType::Empty),
            d.picture() == Seq::<char>::empty(),
    {
        let ant_vec = vec![AntType::Empty; resolution];
        assert(ant_vec@ =~= Seq::new(resolution as nat, |i: int| AntType::Empty));
        Drawer { ant_vec, buffer: String::new() }
    }

    /// Shows the ants in the cells and makes a picture of the cells.
    pub fn draw(&mut self, ants: &Vec<Ant>)
        requires
            forall|i: int| 0 <= i < ants@.len() ==> (#[trigger] ants@[i]).on_rod(),
            forall|i: int| 0 <= i < ants@.len() ==> (#[trigger] ants@[i]).typ != AntType::Empty,
        ensures
            final(self).cells().len() == old(self).cells().len(),
            forall|c: int|
                0 <= c < final(self).cells().len() ==> #[trigger] final(self).cells()[c] == shown(
                    ants@,
                    final(self).cells().len() as int,
                    c,
                ),
            final(self).picture() == picture_of(final(self).cells()),
    {
        let n = self.ant_vec.len();
        let mut c: usize = 0;
        while c < n
            invariant
                self.ant_vec@.len() == n,
                c <= n,
                forall|k: int| 0 <= k < c ==> self.ant_vec@[k] == AntType::Empty,
            decreases n - c,
        {
            self.ant_vec.set(c, AntType::Empty);
            c = c + 1;
        }
        let mut i: usize = 0;
        while i < ants.len()
            invariant
                self.ant_vec@.len() == n,
                i <= ants@.len(),
                forall|k: int| 0 <= k < ants@.len() ==> (#[trigger] ants@[k]).on_rod(),
                forall|k: int| 0 <= k < ants@.len() ==> (#[trigger] ants@[k]).typ != AntType::Empty,
                forall|k: int|
                    0 <= k < n ==> #[trigger] self.ant_vec@[k] == shown(
                        ants@.take(i as int),
                        n as int,
                        k,
                    ),
            decreases ants@.len() - i,
        {
            let a = ants[i];
            proof {
                assert(ants@[i as int].on_rod());
                assert(a.position * n <= ROD_LENGTH * n) by (nonlinear_arith)
                    requires
                        0 <= a.position < ROD_LENGTH,
                        0 <= n,
                ;
                assert(ROD_LENGTH * n <= 1_000_000_000 * 0xffff_ffff_ffff_ffff) by (nonlinear_arith)
                    requires
                        ROD_LENGTH == 1_000_000_000,
                        0 <= n <= 0xffff_ffff_ffff_ffff,
                ;
                if n > 0 {
                    lemma_cell_of(a, n as int);
                }
                assert(ants@.take(i as int).push(a) =~= ants@.take(i + 1));
                assert forall|k: int| 0 <= k < n implies shown(ants@.take(i + 1), n as int, k)
                    == if shown_in(a, n as int, k) {
                    shown(ants@.take(i as int), n as int, k).merged(a.typ)
                } else {
                    shown(ants@.take(i as int), n as int, k)
                } by {
                    lemma_shown_push(ants@.take(i as int), a, n as int, k);
                }
            }
            let ghost before = self.ant_vec@;
            let pos = ((a.position as u128) * (n as u128) / (ROD_LENGTH as u128)) as usize;
            if pos < n {
                let mut t = self.ant_vec[pos];
                t.set(a.typ);
                self.ant_vec.set(pos, t);
            }
            proof {
                if n > 0 {
                    assert(pos as int == cell_of(a, n as int));
                }
                assert forall|k: int| 0 <= k < n implies #[trigger] self.ant_vec@[k] == shown(
                    ants@.take(i + 1),
                    n as int,
                    k,
                ) by {
                    assert(before[k] == shown(ants@.take(i as int), n as int, k));
                    assert(shown_in(a, n as int, k) <==> k == pos);
                }
            }
            i = i + 1;
        }
        assert(ants@.take(ants@.len() as int) =~= ants@);
        let ghost cells = self.ant_vec@;
        self.buffer = String::from_str("\x1b[2F\x1b[0J");
        let mut c: usize = 0;
        assert(self.ant_vec@.take(0).map_values(|t: AntType| t.glyph()) =~= Seq::<
            Seq<char>,
        >::empty());
        assert(glyphs(self.ant_vec@.take(0)) =~= Seq::<char>::empty());
        while c < n
            invariant
                self.ant_vec@.len() == n,
                c <= n,
                self.ant_vec@ == cells,
                self.buffer@ == picture_of(self.ant_vec@.take(c as int)),
            decreases n - c,
        {
            let glyph = self.ant_vec[c].to_string();
            proof {
                let done = self.ant_vec@.take(c as int);
                let f = |t: AntType| t.glyph();
                assert(self.ant_vec@.take(c + 1).map_values(f) =~= done.map_values(f).push(
                    self.ant_vec@[c as int].glyph(),
                ));
                done.map_values(f).lemma_flatten_push(self.ant_vec@[c as int].glyph());
            }
            self.buffer.append(glyph.as_str());
            c = c + 1;
        }
        assert(self.ant_vec@.take(n as int) =~= self.ant_vec@);
    }

    /// The characters of the last picture.
    pub fn buffer(&self) -> (s: &str)
        ensures
            s@ == self.picture(),
    {
        self.buffer.as_str()
    }

    /// The number of cells.
    pub fn resolution(&self) -> (n: usize)
        ensures
            n == self.cells().len(),
    {
        self.ant_vec.len()
    }
}

} // verus!
