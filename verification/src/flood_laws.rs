//! What holds of every flood fill.

use vstd::prelude::*;
use crate::flood::Flood;

verus! {

impl Flood {
    /// A fill that is seeded with one cell is ready to run.
    pub proof fn lemma_seeded_ready(self, x: usize, y: usize)
        requires
            self.starts_at(x, y),
        ensures
            self.seeded(x, y).ready(),
            self.seeded(x, y).frontier == seq![(x, y)],
    {
        assert(self.seeded(x, y).frontier =~= seq![(x, y)]);
    }

    /// A round changes the label of the oldest cell of the frontier and no
    /// other, and queues nothing but blank cells of the region that touch it.
    pub proof fn lemma_visit_frame(self)
        requires
            self.ready(),
            self.frontier.len() > 0,
        ensures
            self.same_frame(self.visit()),
            self.visit().cells == self.numbered().cells,
            forall|a: int, b: int|
                self.on_grid(a, b) && (a, b) != (
                    self.frontier[0].0 as int,
                    self.frontier[0].1 as int,
                ) ==> #[trigger] self.visit().cells[a][b] == self.cells[a][b],
            self.visit().cells[self.frontier[0].0 as int][self.frontier[0].1 as int] == (self.count
                + 1) as usize,
            forall|c: (usize, usize)| #[trigger]
                self.visit().frontier.contains(c) ==> (self.frontier.contains(c) && c
                    != self.frontier[0]) || (self.numbered().blank_at(c.0 as int, c.1 as int)
                    && touching(self.frontier[0], c)),
    {
        let (x, y) = self.frontier[0];
        let a = self.numbered();
        let b = a.offer(x + 1, y as int);
        let c = b.offer(x - 1, y as int);
        let d = c.offer(x as int, y + 1);
        let e = d.offer(x as int, y - 1);
        self.lemma_numbered();
        a.lemma_offer_frontier(x + 1, y as int);
        b.lemma_offer_frontier(x - 1, y as int);
        c.lemma_offer_frontier(x as int, y + 1);
        d.lemma_offer_frontier(x as int, y - 1);
        assert forall|k: (usize, usize)| #[trigger] a.frontier.contains(k) implies self.frontier.contains(k)
            && k != self.frontier[0] by {
            let i = choose|i: int| 0 <= i < a.frontier.len() && a.frontier[i] == k;
            assert(self.frontier[i + 1] == k);
        }
    }

    /// A fill comes to rest with an empty frontier, in the frame that it
    /// started in. It never counts down, and every round that it takes is
    /// one round less to come.
    pub proof fn lemma_run_rests(self)
        requires
            self.ready(),
        ensures
            self.run().ready(),
            self.run().frontier.len() == 0,
            self.same_frame(self.run()),
            self.run().count >= self.count,
            self.run().count + self.run().pending() == self.count + self.pending(),
        decreases self.pending(),
    {
        if self.frontier.len() > 0 {
            self.lemma_visit();
            self.lemma_visit_frame();
            self.visit().lemma_run_rests();
        }
    }

    /// A cell that is neither blank nor queued keeps its label to the end.
    pub proof fn lemma_settled(self, a: usize, b: usize)
        requires
            self.ready(),
            self.on_grid(a as int, b as int),
            !self.blank_at(a as int, b as int),
            !self.frontier.contains((a, b)),
        ensures
            self.run().cells[a as int][b as int] == self.cells[a as int][b as int],
        decreases self.pending(),
    {
        if self.frontier.len() > 0 {
            self.lemma_visit();
            self.lemma_visit_frame();
            let h = self.frontier[0];
            assert(self.frontier.contains(h));
            assert(self.visit().cells[a as int][b as int] == self.cells[a as int][b as int]);
            assert(!self.numbered().blank_at(a as int, b as int));
            self.visit().lemma_settled(a, b);
        }
    }

    /// The cell that a fill starts at receives the next number, unless that
    /// number is the blank label itself.
    pub proof fn lemma_start_is_numbered_first(self, x: usize, y: usize)
        requires
            self.starts_at(x, y),
            self.blank != self.count + 1,
        ensures
            self.seeded(x, y).run().cells[x as int][y as int] == self.count + 1,
    {
        let seeded = self.seeded(x, y);
        self.lemma_seeded_ready(x, y);
        seeded.lemma_visit();
        seeded.lemma_visit_frame();
        let first = seeded.visit();
        assert(seeded.frontier[0] == (x, y));
        if first.frontier.contains((x, y)) {
            assert(!touching((x, y), (x, y)));
            assert(seeded.frontier.contains((x, y)));
        }
        first.lemma_settled(x, y);
    }

    /// The neighbour of `(x, y)` that a round offers first among those that
    /// are blank cells of the region: the one below, else the one above,
    /// else the one to the right, else the one to the left.
    pub open spec fn first_blank_neighbour(self, x: usize, y: usize) -> Option<(usize, usize)> {
        if self.blank_at(x + 1, y as int) {
            Some(((x + 1) as usize, y))
        } else if self.blank_at(x - 1, y as int) {
            Some(((x - 1) as usize, y))
        } else if self.blank_at(x as int, y + 1) {
            Some((x, (y + 1) as usize))
        } else if self.blank_at(x as int, y - 1) {
            Some((x, (y - 1) as usize))
        } else {
            None
        }
    }

    /// The first blank neighbour of the start cell receives the number after
    /// the start cell's, unless one of the two numbers is the blank label.
    pub proof fn lemma_first_neighbour_is_numbered_second(self, x: usize, y: usize, a: usize, b: usize)
        requires
            self.starts_at(x, y),
            self.blank != self.count + 1,
            self.blank != self.count + 2,
            self.first_blank_neighbour(x, y) == Some((a, b)),
        ensures
            self.seeded(x, y).run().cells[a as int][b as int] == self.count + 2,
    {
        let seeded = self.seeded(x, y);
        self.lemma_seeded_ready(x, y);
        seeded.lemma_visit();
        seeded.lemma_visit_frame();
        let marked = seeded.numbered();
        assert(marked.frontier =~= Seq::empty());
        assert(marked.cells[a as int][b as int] == self.cells[a as int][b as int]);
        let first = seeded.visit();
        assert(first.frontier.len() > 0 && first.frontier[0] == (a, b)) by {
            let m1 = marked.offer(x + 1, y as int);
            let m2 = m1.offer(x - 1, y as int);
            let m3 = m2.offer(x as int, y + 1);
            if marked.open_at(x + 1, y as int) {
            } else if m1.open_at(x - 1, y as int) {
            } else if m2.open_at(x as int, y + 1) {
            } else {
                assert(m3.open_at(x as int, y - 1));
            }
        }
        assert(seeded.run() == first.run());
        first.lemma_visit();
        first.lemma_visit_frame();
        let second = first.visit();
        assert(first.run() == second.run());
        assert(first.frontier.contains((a, b)));
        if second.frontier.contains((a, b)) {
            assert(!touching((a, b), (a, b)));
        }
        second.lemma_settled(a, b);
    }

    /// A fill whose start cell has no blank neighbour in the region numbers
    /// the start cell and changes nothing else.
    pub proof fn lemma_enclosed_start(self, x: usize, y: usize)
        requires
            self.starts_at(x, y),
            !self.blank_at(x + 1, y as int),
            !self.blank_at(x - 1, y as int),
            !self.blank_at(x as int, y + 1),
            !self.blank_at(x as int, y - 1),
        ensures
            self.seeded(x, y).run() == (Flood {
                cells: self.cells.update(
                    x as int,
                    self.cells[x as int].update(y as int, (self.count + 1) as usize),
                ),
                count: self.count + 1,
                ..self
            }),
    {
        let seeded = self.seeded(x, y);
        self.lemma_seeded_ready(x, y);
        seeded.lemma_visit();
        let marked = seeded.numbered();
        assert(marked.frontier =~= self.frontier);
        assert(!marked.open_at(x + 1, y as int));
        assert(!marked.open_at(x - 1, y as int));
        assert(!marked.open_at(x as int, y + 1));
        assert(!marked.open_at(x as int, y - 1));
        assert(seeded.visit() == marked);
        assert(seeded.run() == marked.run());
        assert(marked.run() == marked);
    }

    /// `walk` goes from cell to touching cell, and every cell after its first
    /// is a blank cell of the region.
    pub open spec fn walks(self, walk: Seq<(usize, usize)>) -> bool {
        &&& walk.len() > 0
        &&& forall|i: int|
            0 < i < walk.len() ==> touching(walk[i - 1], #[trigger] walk[i]) && self.blank_at(
                walk[i].0 as int,
                walk[i].1 as int,
            )
    }

    /// A walk leads from `from` to `to`.
    pub open spec fn reaches(self, from: (usize, usize), to: (usize, usize)) -> bool {
        exists|walk: Seq<(usize, usize)>| #[trigger]
            self.walks(walk) && walk[0] == from && walk.last() == to
    }

    /// Every cell is reached from itself.
    pub proof fn lemma_reaches_itself(self, c: (usize, usize))
        ensures
            self.reaches(c, c),
    {
        assert(self.walks(seq![c]) && seq![c][0] == c && seq![c].last() == c);
    }

    /// A walk can be taken one blank cell further.
    pub proof fn lemma_reaches_next(self, from: (usize, usize), to: (usize, usize), next: (usize, usize))
        requires
            self.reaches(from, to),
            touching(to, next),
            self.blank_at(next.0 as int, next.1 as int),
        ensures
            self.reaches(from, next),
    {
        let walk = choose|walk: Seq<(usize, usize)>| #[trigger]
            self.walks(walk) && walk[0] == from && walk.last() == to;
        let longer = walk.push(next);
        assert forall|i: int| 0 < i < longer.len() implies touching(
            longer[i - 1],
            #[trigger] longer[i],
        ) && self.blank_at(longer[i].0 as int, longer[i].1 as int) by {
            if i < walk.len() {
                assert(longer[i] == walk[i]);
                assert(longer[i - 1] == walk[i - 1]);
            }
        }
        assert(self.walks(longer) && longer[0] == from && longer.last() == next);
    }

    /// In `now`, a fill of this grid from `start` has queued and changed only
    /// cells that a walk from `start` leads to.
    pub open spec fn within_reach(self, start: (usize, usize), now: Flood) -> bool {
        &&& self.same_frame(now)
        &&& forall|c: (usize, usize)| #[trigger] now.frontier.contains(c) ==> self.reaches(start, c)
        &&& forall|a: usize, b: usize|
            self.on_grid(a as int, b as int) && #[trigger] now.cells[a as int][b as int]
                != self.cells[a as int][b as int] ==> self.reaches(start, (a, b))
    }

    /// A fill that has stayed within reach of `start` stays there to the end.
    pub proof fn lemma_run_within_reach(self, start: (usize, usize), now: Flood)
        requires
            now.ready(),
            self.within_reach(start, now),
        ensures
            self.within_reach(start, now.run()),
        decreases now.pending(),
    {
        if now.frontier.len() > 0 {
            now.lemma_visit();
            now.lemma_visit_frame();
            let h = now.frontier[0];
            let next = now.visit();
            assert(now.frontier.contains(h));
            assert forall|c: (usize, usize)| #[trigger] next.frontier.contains(c) implies self.reaches(
                start,
                c,
            ) by {
                if !now.frontier.contains(c) {
                    assert(next.cells[c.0 as int][c.1 as int] == now.cells[c.0 as int][c.1 as int]);
                    if self.cells[c.0 as int][c.1 as int] == self.blank {
                        self.lemma_reaches_next(start, h, c);
                    }
                }
            }
            assert forall|a: usize, b: usize|
                self.on_grid(a as int, b as int) && #[trigger] next.cells[a as int][b as int]
                    != self.cells[a as int][b as int] implies self.reaches(start, (a, b)) by {
                if (a, b) != h {
                    assert(next.cells[a as int][b as int] == now.cells[a as int][b as int]);
                }
            }
            self.lemma_run_within_reach(start, next);
        }
    }

    /// A cell that no walk from the start cell leads to keeps its label.
    pub proof fn lemma_unreached_keeps_label(self, x: usize, y: usize, a: usize, b: usize)
        requires
            self.starts_at(x, y),
            self.on_grid(a as int, b as int),
            !self.reaches((x, y), (a, b)),
        ensures
            self.seeded(x, y).run().cells[a as int][b as int] == self.cells[a as int][b as int],
    {
        let seeded = self.seeded(x, y);
        self.lemma_seeded_ready(x, y);
        self.lemma_reaches_itself((x, y));
        assert forall|c: (usize, usize)| #[trigger] seeded.frontier.contains(c) implies self.reaches(
            (x, y),
            c,
        ) by {
            let k = choose|k: int| 0 <= k < seeded.frontier.len() && seeded.frontier[k] == c;
            assert(c == (x, y));
        }
        self.lemma_run_within_reach((x, y), seeded);
    }

    /// A round leaves every blank cell of the region that touches the cell
    /// it numbers in the frontier.
    pub proof fn lemma_visit_offers(self, v: (usize, usize))
        requires
            self.ready(),
            self.frontier.len() > 0,
            touching(self.frontier[0], v),
            self.numbered().blank_at(v.0 as int, v.1 as int),
        ensures
            self.visit().frontier.contains(v),
    {
        let (x, y) = self.frontier[0];
        let a = self.numbered();
        let b = a.offer(x + 1, y as int);
        let c = b.offer(x - 1, y as int);
        let d = c.offer(x as int, y + 1);
        a.lemma_offer_frontier(x + 1, y as int);
        b.lemma_offer_frontier(x - 1, y as int);
        c.lemma_offer_frontier(x as int, y + 1);
        d.lemma_offer_frontier(x as int, y - 1);
    }

    /// In `now`, a fill of this grid from `start` has numbered the cells of
    /// `visited` and no others, no number was or will be the blank label,
    /// and every blank cell of the region beside a numbered one is queued.
    pub open spec fn swept(self, start: (usize, usize), now: Flood, visited: Set<(usize, usize)>) -> bool {
        &&& self.same_frame(now)
        &&& now.blank <= now.count
        &&& visited.contains(start) || now.frontier.contains(start)
        &&& forall|u: (usize, usize)| #[trigger]
            visited.contains(u) ==> now.inside(u.0 as int, u.1 as int) && !now.blank_at(
                u.0 as int,
                u.1 as int,
            ) && !now.frontier.contains(u)
        &&& forall|a: usize, b: usize|
            self.on_grid(a as int, b as int) && #[trigger] now.cells[a as int][b as int]
                != self.cells[a as int][b as int] ==> visited.contains((a, b))
        &&& forall|u: (usize, usize), v: (usize, usize)|
            visited.contains(u) && #[trigger] touching(u, v) && now.blank_at(
                v.0 as int,
                v.1 as int,
            ) ==> now.frontier.contains(v)
    }

    /// When a fill that has swept its grid is at rest, it has numbered the
    /// last cell of every walk from `start`.
    pub proof fn lemma_walk_is_swept(
        self,
        start: (usize, usize),
        now: Flood,
        visited: Set<(usize, usize)>,
        walk: Seq<(usize, usize)>,
    )
        requires
            now.ready(),
            now.frontier.len() == 0,
            self.swept(start, now, visited),
            self.walks(walk),
            walk[0] == start,
        ensures
            visited.contains(walk.last()),
        decreases walk.len(),
    {
        if walk.len() > 1 {
            let before = walk.drop_last();
            assert forall|i: int| 0 < i < before.len() implies touching(
                before[i - 1],
                #[trigger] before[i],
            ) && self.blank_at(before[i].0 as int, before[i].1 as int) by {
                assert(before[i] == walk[i]);
                assert(before[i - 1] == walk[i - 1]);
            }
            self.lemma_walk_is_swept(start, now, visited, before);
            let u = before.last();
            let v = walk.last();
            assert(u == walk[walk.len() - 2]);
            assert(touching(u, v) && self.blank_at(v.0 as int, v.1 as int));
            if !visited.contains(v) {
                assert(now.cells[v.0 as int][v.1 as int] == self.cells[v.0 as int][v.1 as int]);
                assert(now.blank_at(v.0 as int, v.1 as int));
                assert(now.frontier.contains(v));
            }
        } else {
            assert(!now.frontier.contains(start));
        }
    }

    /// A round of a fill that has swept its grid so far leaves it swept, with
    /// the cell that the round numbers among the numbered ones.
    pub proof fn lemma_swept_step(self, start: (usize, usize), now: Flood, visited: Set<(usize, usize)>)
        requires
            now.ready(),
            now.frontier.len() > 0,
            self.swept(start, now, visited),
        ensures
            self.swept(start, now.visit(), visited.insert(now.frontier[0])),
    {
        now.lemma_visit();
        now.lemma_visit_frame();
        let h = now.frontier[0];
        let next = now.visit();
        let seen = visited.insert(h);
        assert(now.frontier.contains(h));
        assert(next.cells[h.0 as int][h.1 as int] != next.blank);
        assert forall|u: (usize, usize)| #[trigger] seen.contains(u) implies next.inside(
            u.0 as int,
            u.1 as int,
        ) && !next.blank_at(u.0 as int, u.1 as int) && !next.frontier.contains(u) by {
            if u != h {
                assert(next.cells[u.0 as int][u.1 as int] == now.cells[u.0 as int][u.1 as int]);
                assert(!now.numbered().blank_at(u.0 as int, u.1 as int));
            } else {
                assert(!touching(h, h));
                assert(!now.numbered().blank_at(h.0 as int, h.1 as int));
            }
        }
        assert forall|c: usize, d: usize|
            self.on_grid(c as int, d as int) && #[trigger] next.cells[c as int][d as int]
                != self.cells[c as int][d as int] implies seen.contains((c, d)) by {
            if (c, d) != h {
                assert(next.cells[c as int][d as int] == now.cells[c as int][d as int]);
            }
        }
        assert forall|u: (usize, usize), v: (usize, usize)|
            seen.contains(u) && #[trigger] touching(u, v) && next.blank_at(
                v.0 as int,
                v.1 as int,
            ) implies next.frontier.contains(v) by {
            assert(v != h);
            assert(next.cells[v.0 as int][v.1 as int] == now.cells[v.0 as int][v.1 as int]);
            if u == h {
                now.lemma_visit_offers(v);
            } else {
                assert(now.frontier.contains(v));
                now.lemma_visit_keeps(v);
            }
        }
        if now.frontier.contains(start) && start != h {
            now.lemma_visit_keeps(start);
        }
    }

    /// A fill that has swept its grid so far numbers every cell that a walk
    /// from `start` leads to.
    pub proof fn lemma_run_sweeps(
        self,
        start: (usize, usize),
        now: Flood,
        visited: Set<(usize, usize)>,
        a: usize,
        b: usize,
    )
        requires
            now.ready(),
            self.swept(start, now, visited),
            self.reaches(start, (a, b)),
        ensures
            now.run().cells[a as int][b as int] != self.blank,
        decreases now.pending(),
    {
        if now.frontier.len() > 0 {
            now.lemma_visit();
            self.lemma_swept_step(start, now, visited);
            self.lemma_run_sweeps(start, now.visit(), visited.insert(now.frontier[0]), a, b);
        } else {
            let walk = choose|walk: Seq<(usize, usize)>| #[trigger]
                self.walks(walk) && walk[0] == start && walk.last() == (a, b);
            self.lemma_walk_is_swept(start, now, visited, walk);
        }
    }

    /// A round keeps in the frontier what was there behind the oldest cell.
    pub proof fn lemma_visit_keeps(self, c: (usize, usize))
        requires
            self.ready(),
            self.frontier.len() > 0,
            self.frontier.contains(c),
            c != self.frontier[0],
        ensures
            self.visit().frontier.contains(c),
    {
        let (x, y) = self.frontier[0];
        let a = self.numbered();
        let b = a.offer(x + 1, y as int);
        let d = b.offer(x - 1, y as int);
        let e = d.offer(x as int, y + 1);
        a.lemma_offer_frontier(x + 1, y as int);
        b.lemma_offer_frontier(x - 1, y as int);
        d.lemma_offer_frontier(x as int, y + 1);
        e.lemma_offer_frontier(x as int, y - 1);
        let k = choose|k: int| 0 <= k < self.frontier.len() && self.frontier[k] == c;
        assert(a.frontier[k - 1] == c);
    }

    /// A fill numbers every cell that a walk from the start cell leads to,
    /// if no number that it hands out can be the blank label.
    pub proof fn lemma_reached_is_numbered(self, x: usize, y: usize, a: usize, b: usize)
        requires
            self.starts_at(x, y),
            self.blank <= self.count,
            self.reaches((x, y), (a, b)),
        ensures
            self.seeded(x, y).run().cells[a as int][b as int] != self.blank,
    {
        let seeded = self.seeded(x, y);
        self.lemma_seeded_ready(x, y);
        assert(seeded.frontier[0] == (x, y));
        self.lemma_run_sweeps((x, y), seeded, Set::empty(), a, b);
    }
}

/// The cells `a` and `b` lie side by side in a row or in a column.
pub open spec fn touching(a: (usize, usize), b: (usize, usize)) -> bool {
    ||| (a.0 == b.0 && (a.1 + 1 == b.1 || b.1 + 1 == a.1))
    ||| (a.1 == b.1 && (a.0 + 1 == b.0 || b.0 + 1 == a.0))
}

} // verus!
