//! The order in which a flood fill numbers the cells: a cell that is fewer
//! hops from the start cell is numbered before one that is more hops away.

use vstd::prelude::*;
use crate::flood::Flood;
use crate::flood_laws::touching;

verus! {

/// What is known of a fill under way, beside its state.
pub struct Survey {
    /// The cells that were numbered.
    pub visited: Set<(usize, usize)>,
    /// For each cell that was numbered or is queued, its hops from the start.
    pub level: Map<(usize, usize), nat>,
    /// The hops from the start of the oldest cell in the frontier.
    pub layer: nat,
}

impl Survey {
    /// What is known when a fill has only been seeded.
    pub open spec fn first() -> Survey {
        Survey { visited: Set::empty(), level: Map::total(|c: (usize, usize)| 0nat), layer: 0 }
    }

    /// What is known after the round that `now` takes next: the cells that
    /// the round queues are one hop further than the cell that it numbers.
    pub open spec fn next(self, now: Flood) -> Survey {
        let level = Map::total(
            |c: (usize, usize)|
                if now.found(self, c) {
                    self.level[c]
                } else {
                    self.layer + 1
                },
        );
        let after = now.visit();
        Survey {
            visited: self.visited.insert(now.frontier[0]),
            level,
            layer: if after.frontier.len() > 0 {
                level[after.frontier[0]]
            } else {
                self.layer
            },
        }
    }
}

impl Flood {
    /// A walk of at most `hops` hops leads from `from` to `to`.
    pub open spec fn within(self, from: (usize, usize), to: (usize, usize), hops: nat) -> bool {
        exists|walk: Seq<(usize, usize)>| #[trigger]
            self.walks(walk) && walk[0] == from && walk.last() == to && walk.len() <= hops + 1
    }

    /// `c` was numbered or is queued.
    pub open spec fn found(self, survey: Survey, c: (usize, usize)) -> bool {
        survey.visited.contains(c) || self.frontier.contains(c)
    }

    /// The frontier is in the order of the levels, which span the present
    /// layer and the next, and the oldest cell is of the present layer.
    pub open spec fn queued_by_level(self, survey: Survey) -> bool {
        &&& forall|i: int, j: int|
            #![trigger self.frontier[i], self.frontier[j]]
            0 <= i <= j < self.frontier.len() ==> survey.level[self.frontier[i]]
                <= survey.level[self.frontier[j]]
        &&& forall|i: int|
            0 <= i < self.frontier.len() ==> survey.layer <= survey.level[#[trigger] self.frontier[i]]
                && survey.level[self.frontier[i]] <= survey.layer + 1
        &&& self.frontier.len() > 0 ==> survey.level[self.frontier[0]] == survey.layer
    }

    /// The numbered cells are of the present layer or an earlier one; their
    /// numbers are among those handed out since the count stood at `base`,
    /// no two of them the same; and of two of them the one of the lower
    /// level has the lower number.
    pub open spec fn numbered_by_level(self, survey: Survey, base: nat) -> bool {
        &&& base <= self.count
        &&& forall|u: (usize, usize)| #[trigger]
            survey.visited.contains(u) ==> survey.level[u] <= survey.layer && base
                < self.cells[u.0 as int][u.1 as int] && self.cells[u.0 as int][u.1 as int]
                <= self.count
        &&& forall|u: (usize, usize), w: (usize, usize)|
            #![trigger survey.visited.contains(u), survey.visited.contains(w)]
            survey.visited.contains(u) && survey.visited.contains(w) && survey.level[u]
                < survey.level[w] ==> self.cells[u.0 as int][u.1 as int]
                < self.cells[w.0 as int][w.1 as int]
        &&& forall|u: (usize, usize), w: (usize, usize)|
            #![trigger survey.visited.contains(u), survey.visited.contains(w)]
            survey.visited.contains(u) && survey.visited.contains(w) && u != w
                ==> self.cells[u.0 as int][u.1 as int] != self.cells[w.0 as int][w.1 as int]
    }

    /// Every walk from `start` of fewer hops than the present layer ends in a
    /// numbered cell.
    pub open spec fn inner_numbered(self, start: (usize, usize), survey: Survey) -> bool {
        forall|walk: Seq<(usize, usize)>| #[trigger]
            self.walks(walk) && walk[0] == start && walk.len() <= survey.layer
                ==> survey.visited.contains(walk.last())
    }

    /// No walk from `start` to a cell that was found has fewer hops than the
    /// cell's level.
    pub open spec fn level_is_least(self, start: (usize, usize), now: Flood, survey: Survey) -> bool {
        forall|walk: Seq<(usize, usize)>| #[trigger]
            self.walks(walk) && walk[0] == start && now.found(survey, walk.last())
                ==> survey.level[walk.last()] + 1 <= walk.len()
    }

    /// To every cell that was found a walk from `start` leads that has as
    /// many hops as the cell's level.
    pub open spec fn level_is_walked(self, start: (usize, usize), now: Flood, survey: Survey) -> bool {
        forall|c: (usize, usize)| #[trigger]
            now.found(survey, c) ==> exists|walk: Seq<(usize, usize)>| #[trigger]
                self.walks(walk) && walk[0] == start && walk.last() == c && walk.len()
                    == survey.level[c] + 1
    }

    /// In `now`, a fill of this grid from `start` has gone layer by layer:
    /// what `survey` says of it is true.
    pub open spec fn layered(self, start: (usize, usize), now: Flood, survey: Survey) -> bool {
        &&& self.swept(start, now, survey.visited)
        &&& now.queued_by_level(survey)
        &&& now.numbered_by_level(survey, self.count)
        &&& self.inner_numbered(start, survey)
        &&& self.level_is_least(start, now, survey)
        &&& self.level_is_walked(start, now, survey)
    }

    /// The frontier after a round: what was behind the oldest cell, in its
    /// order, and behind that cells that were not queued, each a blank cell
    /// beside the one that the round numbered.
    pub proof fn lemma_visit_order(self)
        requires
            self.ready(),
            self.frontier.len() > 0,
        ensures
            self.visit().frontier.len() >= self.frontier.len() - 1,
            forall|i: int|
                0 <= i < self.frontier.len() - 1 ==> #[trigger] self.visit().frontier[i]
                    == self.frontier[i + 1],
            forall|i: int|
                self.frontier.len() - 1 <= i < self.visit().frontier.len() ==> !self.frontier.contains(
                    #[trigger] self.visit().frontier[i],
                ) && touching(self.frontier[0], self.visit().frontier[i])
                    && self.numbered().blank_at(
                    self.visit().frontier[i].0 as int,
                    self.visit().frontier[i].1 as int,
                ),
    {
        let (x, y) = self.frontier[0];
        let a = self.numbered();
        let b = a.offer(x + 1, y as int);
        let c = b.offer(x - 1, y as int);
        let d = c.offer(x as int, y + 1);
        let e = d.offer(x as int, y - 1);
        a.lemma_offer_frontier(x + 1, y as int);
        b.lemma_offer_frontier(x - 1, y as int);
        c.lemma_offer_frontier(x as int, y + 1);
        d.lemma_offer_frontier(x as int, y - 1);
        let n = self.frontier.len() - 1;
        assert(a.frontier.len() == n);
        assert forall|i: int| n <= i < e.frontier.len() implies !self.frontier.contains(
            #[trigger] e.frontier[i],
        ) && touching(self.frontier[0], e.frontier[i]) && a.blank_at(
            e.frontier[i].0 as int,
            e.frontier[i].1 as int,
        ) by {
            let v = e.frontier[i];
            assert(e.frontier.contains(v));
            assert(!a.frontier.contains(v)) by {
                if a.frontier.contains(v) {
                    let k = choose|k: int| 0 <= k < a.frontier.len() && a.frontier[k] == v;
                    assert(e.frontier[k] == v);
                    self.visit().lemma_frontier_distinct(k, i);
                }
            }
            if self.frontier.contains(v) {
                let k = choose|k: int| 0 <= k < self.frontier.len() && self.frontier[k] == v;
                if k > 0 {
                    assert(a.frontier[k - 1] == v);
                }
            }
        }
    }

    /// A cell that a round queues was not found before, and is a blank cell
    /// of the grid as it was, beside the cell that the round numbers.
    pub proof fn lemma_newly_found(self, start: (usize, usize), now: Flood, survey: Survey, c: (usize, usize))
        requires
            now.ready(),
            now.frontier.len() > 0,
            self.swept(start, now, survey.visited),
            now.visit().found(survey.next(now), c),
            !now.found(survey, c),
        ensures
            now.visit().frontier.contains(c),
            touching(now.frontier[0], c),
            self.blank_at(c.0 as int, c.1 as int),
    {
        now.lemma_visit();
        now.lemma_visit_frame();
        let h = now.frontier[0];
        assert(now.frontier.contains(h));
        assert(c != h);
        assert(now.numbered().blank_at(c.0 as int, c.1 as int));
        assert(now.numbered().cells[c.0 as int][c.1 as int] == now.cells[c.0 as int][c.1 as int]);
        assert(self.on_grid(c.0 as int, c.1 as int));
    }

    /// A walk from `start` of no more hops than the present layer ends in a
    /// cell that was found.
    pub proof fn lemma_layer_found(
        self,
        start: (usize, usize),
        now: Flood,
        survey: Survey,
        walk: Seq<(usize, usize)>,
    )
        requires
            now.ready(),
            self.layered(start, now, survey),
            self.walks(walk),
            walk[0] == start,
            walk.len() <= survey.layer + 1,
        ensures
            now.found(survey, walk.last()),
    {
        if walk.len() > 1 {
            let before = walk.drop_last();
            assert forall|i: int| 0 < i < before.len() implies touching(
                before[i - 1],
                #[trigger] before[i],
            ) && self.blank_at(before[i].0 as int, before[i].1 as int) by {
                assert(before[i] == walk[i]);
                assert(before[i - 1] == walk[i - 1]);
            }
            assert(self.walks(before) && before[0] == start);
            let u = before.last();
            let v = walk.last();
            assert(survey.visited.contains(u));
            assert(u == walk[walk.len() - 2]);
            assert(touching(u, v) && self.blank_at(v.0 as int, v.1 as int));
            if !survey.visited.contains(v) {
                assert(now.cells[v.0 as int][v.1 as int] == self.cells[v.0 as int][v.1 as int]);
                assert(now.blank_at(v.0 as int, v.1 as int));
            }
        }
    }

    /// A round keeps the frontier in the order of the levels.
    pub proof fn lemma_queued_step(self, start: (usize, usize), now: Flood, survey: Survey)
        requires
            now.ready(),
            now.frontier.len() > 0,
            self.layered(start, now, survey),
        ensures
            now.visit().queued_by_level(survey.next(now)),
            survey.next(now).layer == survey.layer || (survey.next(now).layer == survey.layer + 1
                && now.visit().frontier.len() > 0),
    {
        now.lemma_visit();
        now.lemma_visit_order();
        now.lemma_visit_frame();
        let after = now.visit();
        let next = survey.next(now);
        let n = now.frontier.len() - 1;
        assert forall|i: int| 0 <= i < after.frontier.len() implies next.level[after.frontier[i]] == (
        if i < n {
            survey.level[now.frontier[i + 1]]
        } else {
            survey.layer + 1
        }) by {
            let c = after.frontier[i];
            if i < n {
                assert(c == now.frontier[i + 1]);
                assert(now.frontier.contains(c));
            } else {
                assert(!now.frontier.contains(c));
                assert(now.numbered().blank_at(c.0 as int, c.1 as int));
                assert(touching(now.frontier[0], c));
                assert(now.numbered().cells[c.0 as int][c.1 as int]
                    == now.cells[c.0 as int][c.1 as int]);
                assert(!survey.visited.contains(c));
            }
        }
        assert forall|i: int, j: int|
            #![trigger after.frontier[i], after.frontier[j]]
            0 <= i <= j < after.frontier.len() implies next.level[after.frontier[i]]
            <= next.level[after.frontier[j]] by {
            if j < n {
                assert(survey.level[now.frontier[i + 1]] <= survey.level[now.frontier[j + 1]]);
            } else if i < n {
                assert(survey.level[now.frontier[i + 1]] <= survey.layer + 1);
            }
        }
        if after.frontier.len() > 0 {
            if 0 < n {
                assert(survey.layer <= survey.level[now.frontier[1]]);
            }
            assert forall|i: int| 0 <= i < after.frontier.len() implies next.layer
                <= next.level[#[trigger] after.frontier[i]] && next.level[after.frontier[i]]
                <= next.layer + 1 by {
                assert(next.level[after.frontier[0]] <= next.level[after.frontier[i]]);
                if i < n {
                    assert(survey.level[now.frontier[i + 1]] <= survey.layer + 1);
                }
            }
        }
    }

    /// A round keeps the numbers in the order of the levels.
    pub proof fn lemma_numbered_step(self, start: (usize, usize), now: Flood, survey: Survey)
        requires
            now.ready(),
            now.frontier.len() > 0,
            self.layered(start, now, survey),
        ensures
            now.visit().numbered_by_level(survey.next(now), self.count),
    {
        now.lemma_visit();
        now.lemma_visit_frame();
        self.lemma_queued_step(start, now, survey);
        let after = now.visit();
        let next = survey.next(now);
        let h = now.frontier[0];
        assert(now.frontier.contains(h));
        assert(after.cells[h.0 as int][h.1 as int] == now.count + 1);
        assert(next.level[h] == survey.layer);
        assert forall|u: (usize, usize)| #[trigger] next.visited.contains(u) implies next.level[u]
            <= next.layer && self.count < after.cells[u.0 as int][u.1 as int]
            && after.cells[u.0 as int][u.1 as int] <= after.count by {
            if u != h {
                assert(survey.visited.contains(u));
                assert(after.cells[u.0 as int][u.1 as int] == now.cells[u.0 as int][u.1 as int]);
            }
        }
        assert forall|u: (usize, usize), w: (usize, usize)|
            #![trigger next.visited.contains(u), next.visited.contains(w)]
            next.visited.contains(u) && next.visited.contains(w) && u
                != w implies after.cells[u.0 as int][u.1 as int]
            != after.cells[w.0 as int][w.1 as int] by {
            if u != h {
                assert(survey.visited.contains(u));
                assert(after.cells[u.0 as int][u.1 as int] == now.cells[u.0 as int][u.1 as int]);
            }
            if w != h {
                assert(survey.visited.contains(w));
                assert(after.cells[w.0 as int][w.1 as int] == now.cells[w.0 as int][w.1 as int]);
            }
        }
        assert forall|u: (usize, usize), w: (usize, usize)|
            #![trigger next.visited.contains(u), next.visited.contains(w)]
            next.visited.contains(u) && next.visited.contains(w) && next.level[u]
                < next.level[w] implies after.cells[u.0 as int][u.1 as int]
            < after.cells[w.0 as int][w.1 as int] by {
            if u != h {
                assert(survey.visited.contains(u));
                assert(after.cells[u.0 as int][u.1 as int] == now.cells[u.0 as int][u.1 as int]);
            }
            if w != h {
                assert(survey.visited.contains(w));
                assert(after.cells[w.0 as int][w.1 as int] == now.cells[w.0 as int][w.1 as int]);
            }
        }
    }

    /// A round leaves numbered every cell that is fewer hops from `start`
    /// than the layer that it leaves the fill in.
    pub proof fn lemma_inner_step(self, start: (usize, usize), now: Flood, survey: Survey)
        requires
            now.ready(),
            now.frontier.len() > 0,
            self.layered(start, now, survey),
        ensures
            self.inner_numbered(start, survey.next(now)),
    {
        now.lemma_visit();
        self.lemma_queued_step(start, now, survey);
        let after = now.visit();
        let next = survey.next(now);
        let h = now.frontier[0];
        assert forall|walk: Seq<(usize, usize)>| #[trigger]
            self.walks(walk) && walk[0] == start && walk.len() <= next.layer implies next.visited.contains(
            walk.last(),
        ) by {
            let c = walk.last();
            if walk.len() > survey.layer {
                self.lemma_layer_found(start, now, survey, walk);
                assert(survey.level[c] + 1 <= walk.len());
                if !survey.visited.contains(c) && c != h {
                    now.lemma_visit_keeps(c);
                    let k = choose|k: int| 0 <= k < after.frontier.len() && after.frontier[k] == c;
                    assert(next.layer <= next.level[after.frontier[k]]);
                    assert(now.found(survey, c));
                    assert(next.level[c] == survey.level[c]);
                }
            }
        }
    }

    /// A round keeps every level the least number of hops.
    pub proof fn lemma_least_step(self, start: (usize, usize), now: Flood, survey: Survey)
        requires
            now.ready(),
            now.frontier.len() > 0,
            self.layered(start, now, survey),
        ensures
            self.level_is_least(start, now.visit(), survey.next(now)),
    {
        now.lemma_visit();
        let after = now.visit();
        let next = survey.next(now);
        assert forall|walk: Seq<(usize, usize)>| #[trigger]
            self.walks(walk) && walk[0] == start && after.found(next, walk.last()) implies next.level[walk.last()]
            + 1 <= walk.len() by {
            let c = walk.last();
            if !now.found(survey, c) {
                if walk.len() <= survey.layer + 1 {
                    self.lemma_layer_found(start, now, survey, walk);
                }
            }
        }
    }

    /// A round keeps a walk for every level.
    pub proof fn lemma_walked_step(self, start: (usize, usize), now: Flood, survey: Survey)
        requires
            now.ready(),
            now.frontier.len() > 0,
            self.layered(start, now, survey),
        ensures
            self.level_is_walked(start, now.visit(), survey.next(now)),
    {
        now.lemma_visit();
        let after = now.visit();
        let next = survey.next(now);
        let h = now.frontier[0];
        assert(now.frontier.contains(h));
        assert(now.found(survey, h));
        assert forall|c: (usize, usize)| #[trigger] after.found(next, c) implies exists|
            walk: Seq<(usize, usize)>,
        | #[trigger]
            self.walks(walk) && walk[0] == start && walk.last() == c && walk.len() == next.level[c]
                + 1 by {
            if now.found(survey, c) {
                let walk = choose|walk: Seq<(usize, usize)>| #[trigger]
                    self.walks(walk) && walk[0] == start && walk.last() == c && walk.len()
                        == survey.level[c] + 1;
                assert(self.walks(walk) && walk[0] == start && walk.last() == c && walk.len()
                    == next.level[c] + 1);
            } else {
                self.lemma_newly_found(start, now, survey, c);
                let walk = choose|walk: Seq<(usize, usize)>| #[trigger]
                    self.walks(walk) && walk[0] == start && walk.last() == h && walk.len()
                        == survey.level[h] + 1;
                let longer = walk.push(c);
                assert forall|i: int| 0 < i < longer.len() implies touching(
                    longer[i - 1],
                    #[trigger] longer[i],
                ) && self.blank_at(longer[i].0 as int, longer[i].1 as int) by {
                    if i < walk.len() {
                        assert(longer[i] == walk[i]);
                        assert(longer[i - 1] == walk[i - 1]);
                    }
                }
                assert(self.walks(longer) && longer[0] == start && longer.last() == c
                    && longer.len() == next.level[c] + 1);
            }
        }
    }

    /// A round of a fill that has gone layer by layer goes on so.
    pub proof fn lemma_layered_step(self, start: (usize, usize), now: Flood, survey: Survey)
        requires
            now.ready(),
            now.frontier.len() > 0,
            self.layered(start, now, survey),
        ensures
            self.layered(start, now.visit(), survey.next(now)),
    {
        self.lemma_swept_step(start, now, survey.visited);
        self.lemma_queued_step(start, now, survey);
        self.lemma_numbered_step(start, now, survey);
        self.lemma_inner_step(start, now, survey);
        self.lemma_least_step(start, now, survey);
        self.lemma_walked_step(start, now, survey);
    }

    /// A fill that has gone layer by layer comes to rest so: there is a
    /// survey that is true of it then.
    pub proof fn lemma_run_layered(self, start: (usize, usize), now: Flood, survey: Survey) -> (last:
        Survey)
        requires
            now.ready(),
            self.layered(start, now, survey),
        ensures
            now.run().ready(),
            now.run().frontier.len() == 0,
            self.layered(start, now.run(), last),
        decreases now.pending(),
    {
        if now.frontier.len() > 0 {
            now.lemma_visit();
            self.lemma_layered_step(start, now, survey);
            self.lemma_run_layered(start, now.visit(), survey.next(now))
        } else {
            survey
        }
    }

    /// A fill that was only seeded has gone layer by layer so far.
    pub proof fn lemma_seeded_layered(self, x: usize, y: usize)
        requires
            self.starts_at(x, y),
            self.blank <= self.count,
        ensures
            self.seeded(x, y).ready(),
            self.layered((x, y), self.seeded(x, y), Survey::first()),
    {
        let seeded = self.seeded(x, y);
        let start = (x, y);
        let survey = Survey::first();
        self.lemma_seeded_ready(x, y);
        assert(seeded.frontier[0] == start);
        assert(seeded.frontier.contains(start));
        assert forall|c: (usize, usize)| #[trigger] seeded.found(survey, c) implies c == start by {
            let k = choose|k: int| 0 <= k < seeded.frontier.len() && seeded.frontier[k] == c;
        }
        assert(self.level_is_walked(start, seeded, survey)) by {
            let walk = seq![start];
            assert(self.walks(walk) && walk[0] == start && walk.last() == start && walk.len() == 1);
        }
    }

    /// Of two cells that a fill numbers, the one that is fewer hops from the
    /// start cell receives the lower number: if a walk of `hops` hops or
    /// fewer leads to `a`, and walks lead to `b` but none so short, then the
    /// number of `a` is less than that of `b`. This holds if no number that
    /// the fill hands out can be the blank label.
    pub proof fn lemma_nearer_is_numbered_lower(
        self,
        x: usize,
        y: usize,
        a: (usize, usize),
        b: (usize, usize),
        hops: nat,
    )
        requires
            self.starts_at(x, y),
            self.blank <= self.count,
            self.within((x, y), a, hops),
            self.reaches((x, y), b),
            !self.within((x, y), b, hops),
        ensures
            self.seeded(x, y).run().cells[a.0 as int][a.1 as int] < self.seeded(
                x,
                y,
            ).run().cells[b.0 as int][b.1 as int],
    {
        let start = (x, y);
        self.lemma_seeded_layered(x, y);
        let last = self.lemma_run_layered(start, self.seeded(x, y), Survey::first());
        let rest = self.seeded(x, y).run();
        let to_a = choose|walk: Seq<(usize, usize)>| #[trigger]
            self.walks(walk) && walk[0] == start && walk.last() == a && walk.len() <= hops + 1;
        let to_b = choose|walk: Seq<(usize, usize)>| #[trigger]
            self.walks(walk) && walk[0] == start && walk.last() == b;
        self.lemma_walk_is_swept(start, rest, last.visited, to_a);
        self.lemma_walk_is_swept(start, rest, last.visited, to_b);
        assert(rest.found(last, a));
        assert(rest.found(last, b));
        assert(last.level[a] + 1 <= to_a.len());
        let short = choose|walk: Seq<(usize, usize)>| #[trigger]
            self.walks(walk) && walk[0] == start && walk.last() == b && walk.len() == last.level[b]
                + 1;
        assert(self.walks(short));
        assert(last.level[a] < last.level[b]);
    }

    /// The cells that a fill numbers receive the numbers that follow the
    /// count from which it started, no two of them the same. This holds if
    /// no number that the fill hands out can be the blank label.
    pub proof fn lemma_numbers_differ(self, x: usize, y: usize, a: (usize, usize), b: (usize, usize))
        requires
            self.starts_at(x, y),
            self.blank <= self.count,
            self.reaches((x, y), a),
            self.reaches((x, y), b),
        ensures
            self.count < self.seeded(x, y).run().cells[a.0 as int][a.1 as int],
            self.seeded(x, y).run().cells[a.0 as int][a.1 as int] <= self.seeded(x, y).run().count,
            a != b ==> self.seeded(x, y).run().cells[a.0 as int][a.1 as int] != self.seeded(
                x,
                y,
            ).run().cells[b.0 as int][b.1 as int],
    {
        let start = (x, y);
        self.lemma_seeded_layered(x, y);
        let last = self.lemma_run_layered(start, self.seeded(x, y), Survey::first());
        let rest = self.seeded(x, y).run();
        let to_a = choose|walk: Seq<(usize, usize)>| #[trigger]
            self.walks(walk) && walk[0] == start && walk.last() == a;
        let to_b = choose|walk: Seq<(usize, usize)>| #[trigger]
            self.walks(walk) && walk[0] == start && walk.last() == b;
        self.lemma_walk_is_swept(start, rest, last.visited, to_a);
        self.lemma_walk_is_swept(start, rest, last.visited, to_b);
    }

    /// No cell is at two places of a shaped frontier.
    pub proof fn lemma_frontier_distinct(self, i: int, j: int)
        requires
            self.shaped(),
            0 <= i < self.frontier.len(),
            0 <= j < self.frontier.len(),
            i != j,
        ensures
            self.frontier[i] != self.frontier[j],
    {
    }
}

} // verus!
