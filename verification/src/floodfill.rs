//! Flood fill over a square grid: numbers every cell that can be reached from
//! a start cell in the order in which a breadth-first walk enters them.

use vstd::prelude::*;
use crate::flood::Flood;

verus! {

/// A flood fill in progress on its own copy of a grid of labels.
pub struct FloodFill {
    q: Vec<(usize, usize)>,
    mat: Vec<Vec<usize>>,
    grid_size: usize,
    wall: usize,
    no_wall: usize,
    weight: usize,
}

impl View for FloodFill {
    type V = Flood;

    closed spec fn view(&self) -> Flood {
        Flood {
            cells: self.mat.deep_view(),
            frontier: self.q@,
            side: self.grid_size as nat,
            blank: self.no_wall,
            count: self.weight as nat,
        }
    }
}

/// A copy of `row`.
fn copy_row(row: &Vec<usize>) -> (copy: Vec<usize>)
    ensures
        copy@ == row@,
{
    let mut copy: Vec<usize> = Vec::new();
    let mut j: usize = 0;
    while j < row.len()
        invariant
            j <= row.len(),
            copy@ == row@.take(j as int),
        decreases row.len() - j,
    {
        copy.push(row[j]);
        j += 1;
    }
    copy
}

/// A copy of `mat`, row by row.
fn copy_grid(mat: &Vec<Vec<usize>>) -> (copy: Vec<Vec<usize>>)
    ensures
        copy.deep_view() == mat.deep_view(),
{
    let mut copy: Vec<Vec<usize>> = Vec::new();
    let mut i: usize = 0;
    while i < mat.len()
        invariant
            i <= mat.len(),
            copy.len() == i,
            forall|k: int| 0 <= k < i ==> (#[trigger] copy[k])@ == mat[k]@,
        decreases mat.len() - i,
    {
        copy.push(copy_row(&mat[i]));
        i += 1;
    }
    assert(copy.deep_view() =~= mat.deep_view());
    copy
}

impl FloodFill {
    /// A fill on a copy of `mat` in which nothing is queued or numbered yet.
    /// `no_wall` is the label of the cells that the fill may enter; `wall` is
    /// kept for the record and plays no part in the fill.
    pub fn new(mat: &Vec<Vec<usize>>, wall: usize, no_wall: usize) -> (fill: Self)
        requires
            mat.len() > 0,
        ensures
            fill@ == Flood::fresh(mat.deep_view(), no_wall),
    {
        FloodFill {
            q: Vec::new(),
            mat: copy_grid(mat),
            grid_size: mat[0].len(),
            wall,
            no_wall,
            weight: 0,
        }
    }

    /// Whether `(x, y)` waits in the queue.
    fn queued(&self, x: usize, y: usize) -> (found: bool)
        ensures
            found == self@.frontier.contains((x, y)),
    {
        let mut k: usize = 0;
        while k < self.q.len()
            invariant
                k <= self.q.len(),
                forall|j: int| 0 <= j < k ==> self.q@[j] != (x, y),
            decreases self.q.len() - k,
        {
            let c = self.q[k];
            if c.0 == x && c.1 == y {
                return true;
            }
            k += 1;
        }
        false
    }

    /// Offers `(x, y)` to the queue.
    fn update_q(&mut self, x: usize, y: usize)
        requires
            old(self)@.covered(),
        ensures
            final(self)@ == old(self)@.offer(x as int, y as int),
    {
        if x >= self.grid_size || y >= self.grid_size {
            return ;
        }
        assert(self@.cells[x as int] == self.mat[x as int]@);
        if self.mat[x][y] != self.no_wall || self.queued(x, y) {
            return ;
        }
        self.q.push((x, y))
    }

    /// Takes rounds until the queue is empty.
    fn process(&mut self)
        requires
            old(self)@.ready(),
        ensures
            final(self)@ == old(self)@.run(),
    {
        loop
            invariant
                self@.ready(),
                self@.run() == old(self)@.run(),
            ensures
                self@.frontier.len() == 0,
            decreases self@.pending(),
        {
            if self.q.is_empty() {
                break ;
            }
            let ghost before = self@;
            proof {
                before.lemma_visit();
            }
            let (x, y) = self.q.remove(0);
            self.weight += 1;
            assert(before.cells[x as int] == self.mat[x as int]@);
            let ghost rows = self.mat@;
            self.mat[x][y] = self.weight;
            assert(self.mat@.len() == rows.len());
            assert(self.mat@[x as int]@ == rows[x as int]@.update(y as int, self.weight));
            assert(forall|i: int| 0 <= i < rows.len() && i != x ==> self.mat@[i] == rows[i]);
            assert(self@.cells =~~= before.numbered().cells);
            assert(self@ == before.numbered());
            self.update_q(x + 1, y);
            if x > 0 {
                self.update_q(x - 1, y);
            }
            self.update_q(x, y + 1);
            if y > 0 {
                self.update_q(x, y - 1);
            }
            assert(self@ == before.visit());
        }
    }

    /// Floods the grid from `start` and returns a copy of the labels in which
    /// the fill came to rest.
    pub fn solve(&mut self, start: (usize, usize)) -> (labels: Vec<Vec<usize>>)
        requires
            old(self)@.starts_at(start.0, start.1),
        ensures
            final(self)@ == old(self)@.seeded(start.0, start.1).run(),
            labels.deep_view() == final(self)@.cells,
            old(self)@.same_frame(final(self)@),
            final(self)@.covered(),
            final(self)@.frontier.len() == 0,
    {
        self.q.push((start.0, start.1));
        proof {
            self@.lemma_run_rests();
        }
        self.process();
        copy_grid(&self.mat)
    }
}

} // verus!
