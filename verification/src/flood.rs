//! The mathematical model of a flood fill: a grid of labels, a frontier of
//! cells waiting to be numbered, and the rules by which the fill proceeds.

use vstd::prelude::*;

verus! {

/// The state of a flood fill over a square region of a grid.
pub struct Flood {
    /// The labels, row by row.
    pub cells: Seq<Seq<usize>>,
    /// The cells waiting to be numbered, oldest first.
    pub frontier: Seq<(usize, usize)>,
    /// The side of the square region that the fill stays in.
    pub side: nat,
    /// The label of a cell that the fill may still enter.
    pub blank: usize,
    /// How many cells have been numbered so far.
    pub count: nat,
}

impl Flood {
    /// The state before anything was queued or numbered. The side of the
    /// region is the length of the first row.
    pub open spec fn fresh(cells: Seq<Seq<usize>>, blank: usize) -> Flood {
        Flood { cells, frontier: Seq::empty(), side: cells[0].len(), blank, count: 0 }
    }

    /// `(x, y)` lies in the square region.
    pub open spec fn inside(self, x: int, y: int) -> bool {
        0 <= x < self.side && 0 <= y < self.side
    }

    /// The grid covers the square region, whose side fits an index.
    pub open spec fn covered(self) -> bool {
        &&& self.side <= usize::MAX
        &&& self.side <= self.cells.len()
        &&& forall|i: int| 0 <= i < self.side ==> self.side <= (#[trigger] self.cells[i]).len()
    }

    /// The grid covers the region, and the frontier holds cells of the
    /// region, none of them twice.
    pub open spec fn shaped(self) -> bool {
        &&& self.covered()
        &&& forall|k: int|
            0 <= k < self.frontier.len() ==> self.inside(
                (#[trigger] self.frontier[k]).0 as int,
                self.frontier[k].1 as int,
            )
        &&& self.frontier.no_duplicates()
    }

    /// `(x, y)` is a cell of the region that still carries the blank label and
    /// is not waiting in the frontier.
    pub open spec fn open_at(self, x: int, y: int) -> bool {
        &&& self.inside(x, y)
        &&& self.cells[x][y] == self.blank
        &&& !self.frontier.contains((x as usize, y as usize))
    }

    /// `(x, y)` is a cell of the region that carries the blank label.
    pub open spec fn blank_at(self, x: int, y: int) -> bool {
        self.inside(x, y) && self.cells[x][y] == self.blank
    }

    /// `(x, y)` is a place in the grid, in the region or beside it.
    pub open spec fn on_grid(self, x: int, y: int) -> bool {
        0 <= x < self.cells.len() && 0 <= y < self.cells[x].len()
    }

    /// The grid of `other` has the rows and row lengths of this one, and the
    /// two states agree on the region and on the blank label.
    pub open spec fn same_frame(self, other: Flood) -> bool {
        &&& self.side == other.side
        &&& self.blank == other.blank
        &&& self.cells.len() == other.cells.len()
        &&& forall|i: int|
            0 <= i < self.cells.len() ==> (#[trigger] self.cells[i]).len() == other.cells[i].len()
    }

    /// The state with `(x, y)` at the back of the frontier.
    pub open spec fn seeded(self, x: usize, y: usize) -> Flood {
        Flood { frontier: self.frontier.push((x, y)), ..self }
    }

    /// The state after `(x, y)` was offered to the frontier: it joins at the
    /// back if it is open, and nothing changes if it is not.
    pub open spec fn offer(self, x: int, y: int) -> Flood {
        if self.open_at(x, y) {
            self.seeded(x as usize, y as usize)
        } else {
            self
        }
    }

    /// The state after the oldest cell of the frontier left it and received
    /// the next number.
    pub open spec fn numbered(self) -> Flood {
        let (x, y) = self.frontier[0];
        let label = (self.count + 1) as usize;
        Flood {
            cells: self.cells.update(x as int, self.cells[x as int].update(y as int, label)),
            frontier: self.frontier.drop_first(),
            count: self.count + 1,
            ..self
        }
    }

    /// One round of the fill: the oldest cell of the frontier is numbered,
    /// then its four neighbours are offered to the frontier, in the order
    /// below, above, right, left of it in the grid as it is written down.
    pub open spec fn visit(self) -> Flood {
        let (x, y) = self.frontier[0];
        self.numbered().offer(x + 1, y as int).offer(x - 1, y as int).offer(x as int, y + 1).offer(
            x as int,
            y - 1,
        )
    }

    /// The cells that could still join the frontier.
    pub open spec fn waiting(self) -> Set<(usize, usize)> {
        Set::new(|c: (usize, usize)| self.open_at(c.0 as int, c.1 as int))
    }

    /// A bound on the rounds that the fill still takes.
    pub open spec fn pending(self) -> nat {
        self.waiting().len() + self.frontier.len() + if self.count < self.blank {
            1nat
        } else {
            0nat
        }
    }

    /// Every number that the fill may still hand out fits a label.
    pub open spec fn fits(self) -> bool {
        self.count + self.pending() <= usize::MAX
    }

    /// The state is shaped and fits.
    pub open spec fn ready(self) -> bool {
        self.shaped() && self.fits()
    }

    /// A fill can start at `(x, y)`: the grid covers the region, nothing is
    /// queued, the cell lies in the region, and the numbers fit.
    pub open spec fn starts_at(self, x: usize, y: usize) -> bool {
        &&& self.covered()
        &&& self.frontier.len() == 0
        &&& self.inside(x as int, y as int)
        &&& self.seeded(x, y).fits()
    }

    /// The state in which the fill comes to rest: rounds are taken until the
    /// frontier is empty.
    pub open spec fn run(self) -> Flood
        decreases self.pending(),
        when self.ready()
        via Self::run_terminates
    {
        if self.frontier.len() == 0 {
            self
        } else {
            self.visit().run()
        }
    }

    #[via_fn]
    proof fn run_terminates(self) {
        if self.frontier.len() != 0 {
            self.lemma_visit();
        }
    }

    /// The cells that could still join the frontier are finitely many: no
    /// more than the region has cells.
    pub proof fn lemma_waiting_finite(self)
        ensures
            self.waiting().finite(),
            self.waiting().len() <= self.side * self.side,
    {
        lemma_block_finite(self.side, self.side);
        assert(self.waiting().subset_of(block(self.side, self.side)));
        vstd::set_lib::lemma_set_subset_finite(block(self.side, self.side), self.waiting());
        vstd::set_lib::lemma_len_subset(self.waiting(), block(self.side, self.side));
    }

    /// The numbers fit if there is room for one per cell of the region and
    /// per queued cell, and one more.
    pub proof fn lemma_fits(self)
        requires
            self.count + self.side * self.side + self.frontier.len() + 1 <= usize::MAX,
        ensures
            self.fits(),
    {
        self.lemma_waiting_finite();
    }

    /// What the frontier holds after a cell was offered.
    pub proof fn lemma_offer_frontier(self, x: int, y: int)
        ensures
            self.offer(x, y).cells == self.cells,
            self.offer(x, y).side == self.side,
            self.offer(x, y).blank == self.blank,
            self.offer(x, y).count == self.count,
            forall|c: (usize, usize)| #[trigger]
                self.offer(x, y).frontier.contains(c) <==> self.frontier.contains(c) || (
                self.open_at(x, y) && c == (x as usize, y as usize)),
    {
        if self.open_at(x, y) {
            let after = self.offer(x, y);
            let n = (x as usize, y as usize);
            assert forall|c: (usize, usize)| #[trigger]
                after.frontier.contains(c) <==> self.frontier.contains(c) || c == n by {
                if after.frontier.contains(c) {
                    let k = choose|k: int| 0 <= k < after.frontier.len() && after.frontier[k] == c;
                    if k < self.frontier.len() {
                        assert(self.frontier[k] == c);
                    }
                }
                if self.frontier.contains(c) {
                    let k = choose|k: int| 0 <= k < self.frontier.len() && self.frontier[k] == c;
                    assert(after.frontier[k] == c);
                }
                if c == n {
                    assert(after.frontier[self.frontier.len() as int] == c);
                }
            }
        }
    }

    /// Offering a cell keeps the state shaped and leaves `pending` as it is.
    pub proof fn lemma_offer(self, x: int, y: int)
        requires
            self.shaped(),
        ensures
            self.offer(x, y).shaped(),
            self.offer(x, y).pending() == self.pending(),
    {
        if self.open_at(x, y) {
            let c = (x as usize, y as usize);
            let after = self.offer(x, y);
            self.lemma_offer_frontier(x, y);
            assert(after.frontier.drop_last() == self.frontier);
            assert(after.frontier.last() == c);
            assert(after.waiting() =~= self.waiting().remove(c));
            self.lemma_waiting_finite();
        }
    }

    /// Numbering the oldest cell of the frontier keeps the state shaped and
    /// uses up one unit of `pending`.
    pub proof fn lemma_numbered(self)
        requires
            self.ready(),
            self.frontier.len() > 0,
        ensures
            self.numbered().shaped(),
            self.numbered().pending() + 1 == self.pending(),
    {
        let h = self.frontier[0];
        let after = self.numbered();
        let label = (self.count + 1) as usize;
        assert(self.frontier.contains(h));
        assert forall|d: (usize, usize)|
            after.frontier.contains(d) <==> (self.frontier.contains(d) && d != h) by {
            if after.frontier.contains(d) {
                let k = choose|k: int| 0 <= k < after.frontier.len() && after.frontier[k] == d;
                assert(self.frontier[k + 1] == d);
            }
            if self.frontier.contains(d) && d != h {
                let k = choose|k: int| 0 <= k < self.frontier.len() && self.frontier[k] == d;
                assert(after.frontier[k - 1] == d);
            }
        }
        assert forall|k: int| 0 <= k < after.frontier.len() implies after.inside(
            (#[trigger] after.frontier[k]).0 as int,
            after.frontier[k].1 as int,
        ) by {
            assert(after.frontier[k] == self.frontier[k + 1]);
        }
        assert(after.frontier.no_duplicates()) by {
            assert forall|i: int, j: int|
                0 <= i < after.frontier.len() && 0 <= j < after.frontier.len() && i != j implies after.frontier[i]
                != after.frontier[j] by {
                assert(after.frontier[i] == self.frontier[i + 1]);
                assert(after.frontier[j] == self.frontier[j + 1]);
            }
        }
        self.lemma_waiting_finite();
        if label == self.blank {
            assert(after.waiting() =~= self.waiting().insert(h));
        } else {
            assert(after.waiting() =~= self.waiting());
        }
    }

    /// A round keeps the state ready and uses up one unit of `pending`.
    pub proof fn lemma_visit(self)
        requires
            self.ready(),
            self.frontier.len() > 0,
        ensures
            self.visit().ready(),
            self.visit().pending() + 1 == self.pending(),
            self.visit().count == self.count + 1,
    {
        let (x, y) = self.frontier[0];
        let a = self.numbered();
        let b = a.offer(x + 1, y as int);
        let c = b.offer(x - 1, y as int);
        let d = c.offer(x as int, y + 1);
        self.lemma_numbered();
        a.lemma_offer(x + 1, y as int);
        b.lemma_offer(x - 1, y as int);
        c.lemma_offer(x as int, y + 1);
        d.lemma_offer(x as int, y - 1);
    }
}

/// The cells in the first `rows` rows and the first `columns` columns.
pub open spec fn block(rows: nat, columns: nat) -> Set<(usize, usize)> {
    Set::new(|c: (usize, usize)| c.0 < rows && c.1 < columns)
}

/// A block holds finitely many cells, at most `rows * columns`.
pub proof fn lemma_block_finite(rows: nat, columns: nat)
    ensures
        block(rows, columns).finite(),
        block(rows, columns).len() <= rows * columns,
    decreases rows, columns,
{
    if rows == 0 || columns == 0 {
        assert(block(rows, columns) =~= Set::empty());
        assert(rows * columns >= 0) by (nonlinear_arith);
    } else if rows == 1 {
        lemma_block_finite(1, (columns - 1) as nat);
        if columns - 1 <= usize::MAX {
            assert(block(1, columns) =~= block(1, (columns - 1) as nat).insert(
                (0usize, (columns - 1) as usize),
            ));
        } else {
            assert(block(1, columns) =~= block(1, (columns - 1) as nat));
        }
    } else {
        let above = block((rows - 1) as nat, columns);
        let shift = |c: (usize, usize)| ((c.0 + rows - 1) as usize, c.1);
        let last = block(1, columns).map(shift);
        lemma_block_finite((rows - 1) as nat, columns);
        lemma_block_finite(1, columns);
        vstd::set_lib::lemma_map_size_bound(block(1, columns), last, shift);
        assert((rows - 1) * columns + columns == rows * columns) by (nonlinear_arith);
        if rows - 1 <= usize::MAX {
            assert(block(rows, columns) =~= above.union(last)) by {
                assert forall|c: (usize, usize)| c.0 == rows - 1 && c.1 < columns implies last.contains(
                    c,
                ) by {
                    assert(block(1, columns).contains((0usize, c.1)));
                    assert(shift((0usize, c.1)) == c);
                }
            }
            vstd::set_lib::lemma_len_union(above, last);
        } else {
            assert(block(rows, columns) =~= above);
        }
    }
}

} // verus!
