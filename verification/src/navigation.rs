//! Online navigation: only `observe` receives the walls of the current cell.
//!
//! The solver keeps the walls it has seen, mirrored on both sides of each
//! edge, and plans over an optimistic flood-fill field in which every edge it
//! has not seen is open.
use vstd::prelude::*;
use vstd::arithmetic::div_mod::lemma_fundamental_div_mod;
use crate::grid::{
    count_true, grid_neighbor, lemma_count_none, lemma_count_true_bound, lemma_count_true_set,
    lemma_count_true_set_same, lemma_grid_neighbor_inverse, nearest_flagged, nearest_listing, opposite,
};

verus! {

use crate::maze::CellWalls;

/// The online flood-fill solver's memory of a `width`×`height` maze.
pub struct Navigation {
    width: usize,
    height: usize,
    walls: Vec<[Option<bool>; 4]>,
    observed: Vec<bool>,
    visits: Vec<u32>,
    edges: Vec<[u32; 4]>,
    last_discovery: usize,
    observed_count: usize,
    decisions: usize,
}

impl Navigation {
    pub closed spec fn width_spec(&self) -> int {
        self.width as int
    }

    pub closed spec fn height_spec(&self) -> int {
        self.height as int
    }

    /// Number of cells.
    pub open spec fn cells(&self) -> int {
        self.width_spec() * self.height_spec()
    }

    /// What is known of the wall of cell `i` in direction `d`: `None` until seen.
    pub closed spec fn wall(&self, i: int, d: int) -> Option<bool> {
        self.walls@[i]@[d]
    }

    /// Whether cell `i` has been observed.
    pub closed spec fn is_observed(&self, i: int) -> bool {
        self.observed@[i]
    }

    pub closed spec fn observed_seq(&self) -> Seq<bool> {
        self.observed@
    }

    /// How often cell `i` was observed.
    pub closed spec fn visit_count(&self, i: int) -> u32 {
        self.visits@[i]
    }

    /// How often the walk left cell `i` in direction `d`.
    pub closed spec fn departures(&self, i: int, d: int) -> u32 {
        self.edges@[i]@[d]
    }

    /// How often the walk left cell `i` in each direction.
    pub closed spec fn departure_row(&self, i: int) -> [u32; 4] {
        self.edges@[i]
    }

    pub closed spec fn decision_count(&self) -> int {
        self.decisions as int
    }

    pub closed spec fn last_discovery_spec(&self) -> int {
        self.last_discovery as int
    }

    pub closed spec fn observed_count_spec(&self) -> int {
        self.observed_count as int
    }

    /// The neighbor of cell `i` in direction `d`.
    pub open spec fn nb(&self, i: int, d: int) -> Option<int> {
        grid_neighbor(self.width_spec(), self.height_spec(), i, d)
    }

    /// Walls are mirrored: both sides of every edge agree.
    pub open spec fn walls_mirrored(&self) -> bool {
        forall|a: int, e: int|
            0 <= a < self.cells() && 0 <= e < 4 && #[trigger] self.nb(a, e) is Some ==> self.wall(a, e)
                == self.wall(self.nb(a, e).unwrap(), opposite(e))
    }

    /// The solver's invariant.
    pub closed spec fn wf(&self) -> bool {
        &&& self.width * self.height <= usize::MAX
        &&& self.walls@.len() == self.width * self.height
        &&& self.observed@.len() == self.width * self.height
        &&& self.visits@.len() == self.width * self.height
        &&& self.edges@.len() == self.width * self.height
        &&& self.walls_mirrored()
        &&& forall|i: int, d: int|
            0 <= i < self.cells() && 0 <= d < 4 && #[trigger] self.observed@[i] ==> (
            #[trigger] self.walls@[i]@[d]) is Some
        &&& self.observed_count == count_true(self.observed@)
        &&& self.last_discovery <= self.decisions
    }

    /// A solver that has seen nothing.
    pub fn new(width: usize, height: usize) -> (r: Self)
        requires
            width * height <= usize::MAX,
        ensures
            r.wf(),
            r.width_spec() == width,
            r.height_spec() == height,
            forall|i: int, d: int|
                0 <= i < r.cells() && 0 <= d < 4 ==> #[trigger] r.wall(i, d) is None
                    && r.departures(i, d) == 0,
            forall|i: int| 0 <= i < r.cells() ==> !#[trigger] r.is_observed(i) && r.visit_count(i) == 0,
            r.observed_count_spec() == 0,
            r.decision_count() == 0,
            r.last_discovery_spec() == 0,
    {
        let n = width * height;
        let mut walls: Vec<[Option<bool>; 4]> = Vec::new();
        let mut observed: Vec<bool> = Vec::new();
        let mut visits: Vec<u32> = Vec::new();
        let mut edges: Vec<[u32; 4]> = Vec::new();
        let mut k: usize = 0;
        while k < n
            invariant
                k <= n,
                walls@.len() == k,
                observed@.len() == k,
                visits@.len() == k,
                edges@.len() == k,
                forall|i: int, d: int| 0 <= i < k && 0 <= d < 4 ==> #[trigger] walls@[i]@[d] is None,
                forall|i: int, d: int| 0 <= i < k && 0 <= d < 4 ==> #[trigger] edges@[i]@[d] == 0,
                forall|i: int| 0 <= i < k ==> !#[trigger] observed@[i] && visits@[i] == 0,
            decreases n - k,
        {
            walls.push([None, None, None, None]);
            observed.push(false);
            visits.push(0);
            edges.push([0, 0, 0, 0]);
            k = k + 1;
        }
        proof {
            assert(count_true(observed@) == 0) by {
                lemma_count_none(observed@);
            }
        }
        let r = Navigation {
            width,
            height,
            walls,
            observed,
            visits,
            edges,
            last_discovery: 0,
            observed_count: 0,
            decisions: 0,
        };
        proof {
            assert forall|a: int, e: int|
                0 <= a < r.cells() && 0 <= e < 4 && #[trigger] r.nb(a, e) is Some implies r.wall(a, e)
                    == r.wall(r.nb(a, e).unwrap(), opposite(e)) by {
                lemma_grid_neighbor_inverse(width as int, height as int, a, e);
            }
        }
        r
    }

    fn neighbor(&self, i: usize, d: usize) -> (r: Option<usize>)
        requires
            self.width * self.height <= usize::MAX,
            i < self.cells(),
            d < 4,
        ensures
            match r {
                Some(j) => self.nb(i as int, d as int) == Some(j as int),
                None => self.nb(i as int, d as int) is None,
            },
    {
        proof {
            assert(self.width > 0) by (nonlinear_arith)
                requires
                    0 <= i < self.width * self.height,
            ;
            lemma_fundamental_div_mod(i as int, self.width as int);
        }
        let x = i % self.width;
        let y = i / self.width;
        proof {
            assert(i as int == self.width * y + x);
            if y > 0 {
                assert(self.width * y >= self.width) by (nonlinear_arith)
                    requires
                        y > 0,
                        self.width > 0,
                ;
            }
        }
        if d == 0 && y > 0 {
            Some(i - self.width)
        } else if d == 1 && x + 1 < self.width {
            Some(i + 1)
        } else if d == 2 && y + 1 < self.height {
            proof {
                assert(i + self.width <= usize::MAX) by (nonlinear_arith)
                    requires
                        i == self.width * y + x,
                        x < self.width,
                        y + 1 < self.height,
                        self.width * self.height <= usize::MAX,
                {
                    assert(self.width * (y + 1) <= self.width * (self.height - 1));
                }
            }
            Some(i + self.width)
        } else if d == 3 && x > 0 {
            Some(i - 1)
        } else {
            None
        }
    }

    /// Cells and counters other than the walls are untouched between `a` and `b`.
    pub open spec fn same_except_walls(a: &Self, b: &Self) -> bool {
        &&& a.width_spec() == b.width_spec()
        &&& a.height_spec() == b.height_spec()
        &&& a.observed_seq() == b.observed_seq()
        &&& forall|i: int| 0 <= i < a.cells() ==> #[trigger] a.visit_count(i) == b.visit_count(i)
        &&& forall|i: int, d: int| 0 <= i < a.cells() && 0 <= d < 4 ==> #[trigger] a.departures(i, d) == b.departures(i, d)
        &&& a.decision_count() == b.decision_count()
        &&& a.last_discovery_spec() == b.last_discovery_spec()
        &&& a.observed_count_spec() == b.observed_count_spec()
    }

    /// Record the wall of cell `i` in direction `d` on both sides of the edge.
    fn set_wall(&mut self, i: usize, d: usize, wall: bool)
        requires
            old(self).wf(),
            i < old(self).cells(),
            d < 4,
        ensures
            final(self).wf(),
            Self::same_except_walls(old(self), final(self)),
            final(self).wall(i as int, d as int) == Some(wall),
            old(self).nb(i as int, d as int) is Some ==> final(self).wall(
                old(self).nb(i as int, d as int).unwrap(),
                opposite(d as int),
            ) == Some(wall),
            forall|a: int, e: int|
                0 <= a < old(self).cells() && 0 <= e < 4 && !(a == i && e == d) && !(old(self).nb(
                    i as int,
                    d as int,
                ) == Some(a) && e == opposite(d as int)) ==> #[trigger] final(self).wall(a, e)
                    == old(self).wall(a, e),
    {
        let ghost pre = *self;
        let mut cell = self.walls[i];
        cell[d] = Some(wall);
        self.walls.set(i, cell);
        let j = self.neighbor(i, d);
        match j {
            Some(j) => {
                proof {
                    lemma_grid_neighbor_inverse(self.width as int, self.height as int, i as int, d as int);
                }
                let od = (d + 2) % 4;
                let mut other = self.walls[j];
                other[od] = Some(wall);
                self.walls.set(j, other);
            },
            None => {},
        }
        proof {
            let w = self.width as int;
            let h = self.height as int;
            assert forall|a: int, e: int|
                0 <= a < self.cells() && 0 <= e < 4 && #[trigger] self.nb(a, e) is Some implies self.wall(a, e)
                    == self.wall(self.nb(a, e).unwrap(), opposite(e)) by {
                lemma_grid_neighbor_inverse(w, h, a, e);
                assert(pre.nb(a, e) == self.nb(a, e));
                let b = self.nb(a, e).unwrap();
                if pre.nb(i as int, d as int) is Some {
                    lemma_grid_neighbor_inverse(w, h, i as int, d as int);
                }
                assert(pre.wall(a, e) == pre.wall(b, opposite(e)));
            }
            assert forall|a: int, e: int|
                0 <= a < self.cells() && 0 <= e < 4 && #[trigger] self.observed@[a] implies (
                #[trigger] self.walls@[a]@[e]) is Some by {
                assert(pre.observed@[a]);
                assert(pre.walls@[a]@[e] is Some);
            }
        }
    }

    /// Learn the walls of the current cell; they are mirrored onto the neighbors.
    #[verifier::rlimit(30)]
    pub fn observe(&mut self, x: usize, y: usize, walls: CellWalls)
        requires
            old(self).wf(),
            x < old(self).width_spec(),
            y < old(self).height_spec(),
        ensures
            final(self).wf(),
            ({
                let i = y * old(self).width_spec() + x;
                let pre = *old(self);
                let post = *final(self);
                &&& post.width_spec() == pre.width_spec()
                &&& post.height_spec() == pre.height_spec()
                &&& post.is_observed(i)
                &&& forall|d: int| 0 <= d < 4 ==> #[trigger] post.wall(i, d) == Some(walls.side(d))
                &&& forall|d: int| 0 <= d < 4 && pre.nb(i, d) is Some ==> post.wall(#[trigger] pre.nb(i, d).unwrap(), opposite(d)) == Some(walls.side(d))
                &&& forall|a: int, e: int|
                    0 <= a < pre.cells() && 0 <= e < 4 && a != i && !(exists|d: int| 0 <= d < 4 && pre.nb(i, d) == Some(a) && e == opposite(d))
                    ==> #[trigger] post.wall(a, e) == pre.wall(a, e)
                &&& forall|a: int| 0 <= a < pre.cells() && a != i ==> #[trigger] post.is_observed(a) == pre.is_observed(a)
                &&& post.visit_count(i) == (if pre.visit_count(i) == u32::MAX { u32::MAX } else { (pre.visit_count(i) + 1) as u32 })
                &&& forall|a: int| 0 <= a < pre.cells() && a != i ==> #[trigger] post.visit_count(a) == pre.visit_count(a)
                &&& forall|a: int, e: int| 0 <= a < pre.cells() && 0 <= e < 4 ==> #[trigger] post.departures(a, e) == pre.departures(a, e)
                &&& post.decision_count() == pre.decision_count()
                &&& post.observed_count_spec() == pre.observed_count_spec() + (if pre.is_observed(i) { 0int } else { 1int })
                &&& post.last_discovery_spec() == (if pre.is_observed(i) { pre.last_discovery_spec() } else { pre.decision_count() })
            }),
    {
        let ghost pre = *self;
        proof {
            assert(y * self.width + x < self.width * self.height) by (nonlinear_arith)
                requires
                    x < self.width,
                    y < self.height,
            {
                assert(y * self.width + x < y * self.width + self.width);
                assert((y + 1) * self.width <= self.height * self.width);
            }
        }
        let i = y * self.width + x;
        let sides = [walls.n, walls.e, walls.s, walls.w];
        let mut d: usize = 0;
        while d < 4
            invariant
                self.wf(),
                Self::same_except_walls(&pre, self),
                i == y * pre.width_spec() + x,
                i < pre.cells(),
                d <= 4,
                sides@ == seq![walls.n, walls.e, walls.s, walls.w],
                forall|e: int| 0 <= e < d ==> #[trigger] self.wall(i as int, e) == Some(walls.side(e)),
                forall|e: int| 0 <= e < d && pre.nb(i as int, e) is Some ==> self.wall(#[trigger] pre.nb(i as int, e).unwrap(), opposite(e)) == Some(walls.side(e)),
                forall|a: int, e: int|
                    0 <= a < pre.cells() && 0 <= e < 4 && a != i && !(exists|dd: int| 0 <= dd < d && pre.nb(i as int, dd) == Some(a) && e == opposite(dd))
                    ==> #[trigger] self.wall(a, e) == pre.wall(a, e),
            decreases 4 - d,
        {
            let ghost before = *self;
            let side = sides[d];
            proof {
                assert(side == walls.side(d as int));
            }
            self.set_wall(i, d, side);
            proof {
                assert(self.wall(i as int, d as int) == Some(walls.side(d as int)));
                let w = pre.width_spec();
                let h = pre.height_spec();
                assert(w > 0) by (nonlinear_arith)
                    requires
                        0 <= i < w * h,
                        h >= 0,
                ;
                assert(before.nb(i as int, d as int) != Some(i as int));
                assert forall|e: int| 0 <= e < d + 1 implies #[trigger] self.wall(i as int, e) == Some(walls.side(e)) by {
                    if e < d {
                        assert(before.wall(i as int, e) == Some(walls.side(e)));
                    }
                }
                assert forall|e: int| 0 <= e < d + 1 && pre.nb(i as int, e) is Some implies self.wall(#[trigger] pre.nb(i as int, e).unwrap(), opposite(e)) == Some(walls.side(e)) by {
                    lemma_grid_neighbor_inverse(w, h, i as int, e);
                    if e < d && pre.nb(i as int, d as int) is Some {
                        lemma_grid_neighbor_inverse(w, h, i as int, d as int);
                    }
                }
                assert forall|a: int, e: int|
                    0 <= a < pre.cells() && 0 <= e < 4 && a != i && !(exists|dd: int| 0 <= dd < d + 1 && pre.nb(i as int, dd) == Some(a) && e == opposite(dd))
                    implies #[trigger] self.wall(a, e) == pre.wall(a, e) by {
                    assert(!(exists|dd: int| 0 <= dd < d && pre.nb(i as int, dd) == Some(a) && e == opposite(dd)));
                    assert(before.wall(a, e) == pre.wall(a, e));
                    assert(!(pre.nb(i as int, d as int) == Some(a) && e == opposite(d as int)));
                }
            }
            d = d + 1;
        }
        let ghost mid = *self;
        let fresh = !self.observed[i];
        if fresh {
            self.last_discovery = self.decisions;
            proof {
                lemma_count_true_set(self.observed@, i as int);
                lemma_count_true_bound(self.observed@.update(i as int, true));
            }
            self.observed_count = self.observed_count + 1;
        }
        proof {
            if !fresh {
                lemma_count_true_set_same(self.observed@, i as int);
            }
        }
        self.observed.set(i, true);
        let v = self.visits[i];
        let v2 = v.saturating_add(1);
        self.visits.set(i, v2);
        proof {
            assert forall|a: int, e: int|
                0 <= a < self.cells() && 0 <= e < 4 && #[trigger] self.observed@[a] implies (
                #[trigger] self.walls@[a]@[e]) is Some by {
                if a != i {
                    assert(pre.observed@[a] == self.observed@[a]);
                } else {
                    assert(mid.wall(i as int, e) == Some(walls.side(e)));
                    assert(self.walls@ == mid.walls@);
                }
            }
            assert(self.walls@ == mid.walls@);
            assert forall|e: int| 0 <= e < 4 implies #[trigger] self.wall(i as int, e) == Some(walls.side(e)) by {
                assert(mid.wall(i as int, e) == Some(walls.side(e)));
            }
            assert forall|a: int, e: int|
                0 <= a < pre.cells() && 0 <= e < 4 && a != i && !(exists|dd: int| 0 <= dd < 4 && pre.nb(i as int, dd) == Some(a) && e == opposite(dd))
                implies #[trigger] self.wall(a, e) == pre.wall(a, e) by {
                assert(mid.wall(a, e) == pre.wall(a, e));
            }
            assert(self.walls_mirrored()) by {
                assert forall|a: int, e: int|
                    0 <= a < self.cells() && 0 <= e < 4 && #[trigger] self.nb(a, e) is Some implies self.wall(a, e)
                        == self.wall(self.nb(a, e).unwrap(), opposite(e)) by {
                    assert(mid.nb(a, e) == self.nb(a, e));
                }
            }
        }
    }

    /// An edge the optimistic planner may cross: it exists and is not a known wall.
    pub open spec fn open_edge(&self, i: int, d: int) -> bool {
        self.nb(i, d) is Some && self.wall(i, d) != Some(true)
    }

    /// `dist` is the optimistic flood-fill field toward `goal`: the length of a
    /// shortest path over edges not known to be walls, `usize::MAX` where none exists.
    pub open spec fn is_field(&self, goal: int, dist: Seq<usize>) -> bool {
        &&& dist.len() == self.cells()
        &&& 0 <= goal < self.cells()
        &&& dist[goal] == 0
        &&& forall|j: int| 0 <= j < self.cells() && dist[j] != usize::MAX ==> #[trigger] dist[j] < self.cells()
        &&& forall|i: int, d: int|
            0 <= i < self.cells() && 0 <= d < 4 && dist[i] != usize::MAX && #[trigger] self.open_edge(i, d) ==> dist[self.nb(i, d).unwrap()] != usize::MAX
                && dist[self.nb(i, d).unwrap()] <= dist[i] + 1
        &&& forall|j: int|
            0 <= j < self.cells() && j != goal && #[trigger] dist[j] != usize::MAX ==> exists|p: int, d: int|
                0 <= p < self.cells() && 0 <= d < 4 && #[trigger] self.open_edge(p, d) && self.nb(p, d) == Some(j)
                    && dist[p] != usize::MAX && dist[j] == dist[p] + 1
    }

    /// The flood-fill field toward `goal` (unique, see `lemma_field_unique`).
    pub open spec fn field(&self, goal: int) -> Seq<usize> {
        choose|dist: Seq<usize>| self.is_field(goal, dist)
    }

    proof fn lemma_field_below(&self, goal: int, a: Seq<usize>, b: Seq<usize>, j: int)
        requires
            self.wf(),
            self.is_field(goal, a),
            self.is_field(goal, b),
            0 <= j < self.cells(),
            b[j] != usize::MAX,
        ensures
            a[j] != usize::MAX,
            a[j] <= b[j],
        decreases b[j],
    {
        if j != goal {
            assert(b[j] != usize::MAX);
            let (p, d) = choose|p: int, d: int|
                0 <= p < self.cells() && 0 <= d < 4 && #[trigger] self.open_edge(p, d) && self.nb(p, d) == Some(j)
                    && b[p] != usize::MAX && b[j] == b[p] + 1;
            self.lemma_field_below(goal, a, b, p);
            assert(self.open_edge(p, d));
        }
    }

    /// There is only one flood-fill field toward a goal.
    pub proof fn lemma_field_unique(&self, goal: int, a: Seq<usize>, b: Seq<usize>)
        requires
            self.wf(),
            self.is_field(goal, a),
            self.is_field(goal, b),
        ensures
            a == b,
    {
        assert forall|j: int| 0 <= j < a.len() implies a[j] == b[j] by {
            if b[j] != usize::MAX {
                self.lemma_field_below(goal, a, b, j);
                self.lemma_field_below(goal, b, a, j);
            } else if a[j] != usize::MAX {
                self.lemma_field_below(goal, b, a, j);
            }
        }
        assert(a =~= b);
    }

    /// Whether the planner may cross the edge from cell `i` in direction `d`.
    fn wall_not_known(&self, i: usize, d: usize) -> (r: bool)
        requires
            self.wf(),
            i < self.cells(),
            d < 4,
        ensures
            r == (self.wall(i as int, d as int) != Some(true)),
    {
        match self.walls[i][d] {
            Some(true) => false,
            _ => true,
        }
    }

    /// Queue entries are cells with a distance no larger than their position.
    #[verifier::opaque]
    spec fn bfs_entries(&self, dist: Seq<usize>, queue: Seq<usize>) -> bool {
        forall|q: int| 0 <= q < queue.len() ==> #[trigger] queue[q] < self.cells() && dist[queue[q] as int] != usize::MAX && dist[queue[q] as int] <= q
    }

    /// Every cell with a distance is queued.
    #[verifier::opaque]
    spec fn bfs_members(&self, dist: Seq<usize>, queue: Seq<usize>) -> bool {
        forall|j: int| 0 <= j < self.cells() && #[trigger] dist[j] != usize::MAX ==> exists|q: int| 0 <= q < queue.len() && #[trigger] queue[q] == j
    }

    /// Queued distances never decrease.
    #[verifier::opaque]
    spec fn bfs_sorted(dist: Seq<usize>, queue: Seq<usize>) -> bool {
        forall|a: int, b: int| 0 <= a <= b < queue.len() ==> dist[#[trigger] queue[a] as int] <= dist[#[trigger] queue[b] as int]
    }

    /// Every reached cell other than the goal is one step past a reached cell.
    #[verifier::opaque]
    spec fn bfs_witness(&self, goal: int, dist: Seq<usize>) -> bool {
        forall|j: int|
            0 <= j < self.cells() && j != goal && #[trigger] dist[j] != usize::MAX ==> exists|p: int, d: int|
                0 <= p < self.cells() && 0 <= d < 4 && #[trigger] self.open_edge(p, d) && self.nb(p, d) == Some(j)
                    && dist[p] != usize::MAX && dist[j] == dist[p] + 1
    }

    /// The breadth-first queue is consistent with the partial field `dist`.
    spec fn bfs_queue_ok(&self, goal: int, dist: Seq<usize>, queue: Seq<usize>) -> bool {
        &&& dist.len() == self.cells()
        &&& 0 <= goal < self.cells()
        &&& dist[goal] == 0
        &&& queue.len() == count_finite(dist)
        &&& count_finite(dist) <= self.cells()
        &&& self.bfs_entries(dist, queue)
        &&& self.bfs_members(dist, queue)
        &&& Self::bfs_sorted(dist, queue)
        &&& self.bfs_witness(goal, dist)
    }

    /// The first `head` queue entries have all their open edges relaxed.
    #[verifier::opaque]
    spec fn bfs_processed(&self, dist: Seq<usize>, queue: Seq<usize>, head: int) -> bool {
        forall|q: int, d: int|
            0 <= q < head && 0 <= d < 4 && #[trigger] self.open_edge(queue[q] as int, d) ==> dist[self.nb(queue[q] as int, d).unwrap()] != usize::MAX
                && dist[self.nb(queue[q] as int, d).unwrap()] <= dist[queue[q] as int] + 1
    }

    /// No queued distance exceeds `cap`.
    spec fn bfs_capped(dist: Seq<usize>, queue: Seq<usize>, cap: int) -> bool {
        forall|q: int| 0 <= q < queue.len() ==> dist[#[trigger] queue[q] as int] <= cap
    }

    /// The edges of `i` in directions below `d` are relaxed.
    spec fn bfs_edges_done(&self, dist: Seq<usize>, i: int, di: int, d: int) -> bool {
        forall|e: int|
            0 <= e < d && #[trigger] self.open_edge(i, e) ==> dist[self.nb(i, e).unwrap()] != usize::MAX
                && dist[self.nb(i, e).unwrap()] <= di + 1
    }

    /// Relax the edge of queue entry `i` in direction `d`.
    fn relax_edge(
        &self,
        dist: &mut Vec<usize>,
        queue: &mut Vec<usize>,
        Ghost(goal): Ghost<int>,
        Ghost(head): Ghost<int>,
        i: usize,
        di: usize,
        d: usize,
    )
        requires
            self.wf(),
            self.bfs_queue_ok(goal, old(dist)@, old(queue)@),
            self.bfs_processed(old(dist)@, old(queue)@, head),
            0 <= head < old(queue)@.len(),
            old(queue)@[head] == i,
            i < self.cells(),
            old(dist)@[i as int] == di,
            di <= head,
            Self::bfs_capped(old(dist)@, old(queue)@, di + 1),
            self.bfs_edges_done(old(dist)@, i as int, di as int, d as int),
            d < 4,
        ensures
            self.bfs_queue_ok(goal, final(dist)@, final(queue)@),
            self.bfs_processed(final(dist)@, final(queue)@, head),
            final(queue)@.len() >= old(queue)@.len(),
            final(queue)@[head] == i,
            final(dist)@[i as int] == di,
            Self::bfs_capped(final(dist)@, final(queue)@, di + 1),
            self.bfs_edges_done(final(dist)@, i as int, di as int, d + 1),
    {
        if !self.wall_not_known(i, d) {
            return;
        }
        let jo = self.neighbor(i, d);
        match jo {
            None => {
                return;
            },
            Some(j) => {
                proof {
                    lemma_grid_neighbor_inverse(self.width as int, self.height as int, i as int, d as int);
                }
                if dist[j] != usize::MAX {
                    proof {
                        reveal(Navigation::bfs_members);
                        let q = choose|q: int| 0 <= q < queue@.len() && #[trigger] queue@[q] == j;
                        assert(dist@[queue@[q] as int] <= di + 1);
                    }
                    return;
                }
                let ghost before = dist@;
                let ghost qbefore = queue@;
                proof {
                    self.lemma_bfs_push(goal, before, qbefore, head, i as int, di as int, d as int, j);
                }
                dist.set(j, di + 1);
                queue.push(j);
                proof {
                    assert(dist@ == before.update(j as int, (di + 1) as usize));
                    assert(queue@ == qbefore.push(j));
                    assert(queue@[head] == qbefore[head]);
                }
            },
        }
    }

    /// Discovering cell `j` from the head entry `i` keeps the queue consistent.
    proof fn lemma_bfs_push(
        &self,
        goal: int,
        before: Seq<usize>,
        qbefore: Seq<usize>,
        head: int,
        i: int,
        di: int,
        d: int,
        j: usize,
    )
        requires
            self.wf(),
            self.bfs_queue_ok(goal, before, qbefore),
            self.bfs_processed(before, qbefore, head),
            0 <= head < qbefore.len(),
            qbefore[head] == i,
            0 <= i < self.cells(),
            before[i] == di,
            di <= head,
            Self::bfs_capped(before, qbefore, di + 1),
            self.bfs_edges_done(before, i, di, d),
            0 <= d < 4,
            self.open_edge(i, d),
            self.nb(i, d) == Some(j as int),
            j < self.cells(),
            before[j as int] == usize::MAX,
        ensures
            di + 1 < usize::MAX,
            self.bfs_queue_ok(goal, before.update(j as int, (di + 1) as usize), qbefore.push(j)),
            self.bfs_processed(before.update(j as int, (di + 1) as usize), qbefore.push(j), head),
            Self::bfs_capped(before.update(j as int, (di + 1) as usize), qbefore.push(j), di + 1),
            self.bfs_edges_done(before.update(j as int, (di + 1) as usize), i, di, d + 1),
    {
        let v = (di + 1) as usize;
        reveal(Navigation::bfs_entries);
        assert(self.cells() <= usize::MAX) by {
            reveal(Navigation::wf);
        }
        self.lemma_bfs_fresh(before, qbefore, j);
        assert(di < usize::MAX - 1);
        let dist = before.update(j as int, v);
        let queue = qbefore.push(j);
        lemma_count_finite_set(before, j as int, v);
        lemma_count_finite_bound(dist);
        assert(dist[goal] == 0);
        self.lemma_bfs_push_entries(before, qbefore, head, di, j);
        self.lemma_bfs_push_members(before, qbefore, j, v);
        self.lemma_bfs_push_sorted(before, qbefore, di, j);
        self.lemma_bfs_push_witness(goal, before, i, di, d, j);
        self.lemma_bfs_push_processed(before, qbefore, head, j, v);
        self.lemma_bfs_push_edges(before, i, di, d, j);
        assert forall|q: int| 0 <= q < queue.len() implies dist[#[trigger] queue[q] as int] <= di + 1 by {
            if q < queue.len() - 1 {
                assert(queue[q] == qbefore[q]);
            }
        }
    }

    /// A cell without a distance is not queued, and there is room for it.
    proof fn lemma_bfs_fresh(&self, before: Seq<usize>, qbefore: Seq<usize>, j: usize)
        requires
            self.bfs_entries(before, qbefore),
            qbefore.len() == count_finite(before),
            before.len() == self.cells(),
            j < self.cells(),
            before[j as int] == usize::MAX,
        ensures
            forall|q: int| 0 <= q < qbefore.len() ==> #[trigger] qbefore[q] != j,
            qbefore.len() < self.cells(),
    {
        reveal(Navigation::bfs_entries);
        assert forall|q: int| 0 <= q < qbefore.len() implies #[trigger] qbefore[q] != j by {
            assert(before[qbefore[q] as int] != usize::MAX);
        }
        lemma_count_finite_set(before, j as int, 0);
        lemma_count_finite_bound(before.update(j as int, 0));
    }

    proof fn lemma_bfs_push_entries(&self, before: Seq<usize>, qbefore: Seq<usize>, head: int, di: int, j: usize)
        requires
            self.bfs_entries(before, qbefore),
            before.len() == self.cells(),
            self.cells() <= usize::MAX,
            0 <= head < qbefore.len(),
            qbefore[head] < self.cells(),
            before[qbefore[head] as int] == di,
            j < self.cells(),
            forall|q: int| 0 <= q < qbefore.len() ==> #[trigger] qbefore[q] != j,
            qbefore.len() < self.cells(),
        ensures
            di <= head,
            di + 1 < usize::MAX,
            self.bfs_entries(before.update(j as int, (di + 1) as usize), qbefore.push(j)),
    {
        reveal(Navigation::bfs_entries);
        assert(qbefore[head] < self.cells() && before[qbefore[head] as int] <= head);
        let dist = before.update(j as int, (di + 1) as usize);
        let queue = qbefore.push(j);
        let qn = queue.len() - 1;
        assert forall|q: int| 0 <= q < queue.len() implies #[trigger] queue[q] < self.cells() && dist[queue[q] as int] != usize::MAX && dist[queue[q] as int] <= q by {
            if q < qn {
                assert(queue[q] == qbefore[q]);
            } else {
                assert(queue[q] == j);
            }
        }
    }

    proof fn lemma_bfs_push_members(&self, before: Seq<usize>, qbefore: Seq<usize>, j: usize, v: usize)
        requires
            self.bfs_members(before, qbefore),
            before.len() == self.cells(),
            j < self.cells(),
        ensures
            self.bfs_members(before.update(j as int, v), qbefore.push(j)),
    {
        reveal(Navigation::bfs_members);
        let dist = before.update(j as int, v);
        let queue = qbefore.push(j);
        let qn = queue.len() - 1;
        assert forall|jj: int| 0 <= jj < self.cells() && #[trigger] dist[jj] != usize::MAX implies exists|q: int| 0 <= q < queue.len() && #[trigger] queue[q] == jj by {
            if jj != j {
                assert(before[jj] != usize::MAX);
                let q = choose|q: int| 0 <= q < qbefore.len() && #[trigger] qbefore[q] == jj;
                assert(queue[q] == jj);
            } else {
                assert(queue[qn] == jj);
            }
        }
    }

    proof fn lemma_bfs_push_sorted(&self, before: Seq<usize>, qbefore: Seq<usize>, di: int, j: usize)
        requires
            Self::bfs_sorted(before, qbefore),
            self.bfs_entries(before, qbefore),
            Self::bfs_capped(before, qbefore, di + 1),
            before.len() == self.cells(),
            j < self.cells(),
            0 <= di + 1 < usize::MAX,
            forall|q: int| 0 <= q < qbefore.len() ==> #[trigger] qbefore[q] != j,
        ensures
            Self::bfs_sorted(before.update(j as int, (di + 1) as usize), qbefore.push(j)),
    {
        reveal(Navigation::bfs_sorted);
        reveal(Navigation::bfs_entries);
        let dist = before.update(j as int, (di + 1) as usize);
        let queue = qbefore.push(j);
        let qn = queue.len() - 1;
        assert forall|a: int, b: int| 0 <= a <= b < queue.len() implies dist[#[trigger] queue[a] as int] <= dist[#[trigger] queue[b] as int] by {
            if b < qn {
                assert(queue[a] == qbefore[a] && queue[b] == qbefore[b]);
            } else if a < qn {
                assert(queue[a] == qbefore[a]);
                assert(before[qbefore[a] as int] <= di + 1);
            }
        }
    }

    #[verifier::spinoff_prover]
    #[verifier::rlimit(50)]
    proof fn lemma_bfs_push_witness(&self, goal: int, before: Seq<usize>, i: int, di: int, d: int, j: usize)
        requires
            self.bfs_witness(goal, before),
            before.len() == self.cells(),
            0 <= i < self.cells(),
            before[i] == di,
            di != usize::MAX,
            0 <= d < 4,
            self.open_edge(i, d),
            self.nb(i, d) == Some(j as int),
            j < self.cells(),
            before[j as int] == usize::MAX,
            0 <= di + 1 < usize::MAX,
        ensures
            self.bfs_witness(goal, before.update(j as int, (di + 1) as usize)),
    {
        reveal(Navigation::bfs_witness);
        let n = self.cells();
        let dist = before.update(j as int, (di + 1) as usize);
        assert forall|jj: int|
            0 <= jj < n && jj != goal && #[trigger] dist[jj] != usize::MAX implies exists|p: int, e: int|
                0 <= p < n && 0 <= e < 4 && #[trigger] self.open_edge(p, e) && self.nb(p, e) == Some(jj)
                    && dist[p] != usize::MAX && dist[jj] == dist[p] + 1 by {
            if jj == j {
                assert(self.open_edge(i, d));
            } else {
                assert(before[jj] != usize::MAX);
                let (p, e) = choose|p: int, e: int|
                    0 <= p < n && 0 <= e < 4 && #[trigger] self.open_edge(p, e) && self.nb(p, e) == Some(jj)
                        && before[p] != usize::MAX && before[jj] == before[p] + 1;
                assert(p != j);
                assert(self.open_edge(p, e));
            }
        }
    }

    proof fn lemma_bfs_push_processed(&self, before: Seq<usize>, qbefore: Seq<usize>, head: int, j: usize, v: usize)
        requires
            self.wf(),
            self.bfs_entries(before, qbefore),
            self.bfs_processed(before, qbefore, head),
            before.len() == self.cells(),
            0 <= head < qbefore.len(),
            j < self.cells(),
            before[j as int] == usize::MAX,
            forall|q: int| 0 <= q < qbefore.len() ==> #[trigger] qbefore[q] != j,
        ensures
            self.bfs_processed(before.update(j as int, v), qbefore.push(j), head),
    {
        reveal(Navigation::bfs_processed);
        reveal(Navigation::bfs_entries);
        let dist = before.update(j as int, v);
        let queue = qbefore.push(j);
        assert forall|q: int, e: int|
            0 <= q < head && 0 <= e < 4 && #[trigger] self.open_edge(queue[q] as int, e) implies dist[self.nb(queue[q] as int, e).unwrap()] != usize::MAX
                && dist[self.nb(queue[q] as int, e).unwrap()] <= dist[queue[q] as int] + 1 by {
            assert(queue[q] == qbefore[q]);
            assert(qbefore[q] < self.cells());
            assert(self.open_edge(qbefore[q] as int, e));
            lemma_grid_neighbor_inverse(self.width_spec(), self.height_spec(), qbefore[q] as int, e);
            assert(before[self.nb(qbefore[q] as int, e).unwrap()] != usize::MAX);
            assert(qbefore[q] != j);
        }
    }

    proof fn lemma_bfs_push_edges(&self, before: Seq<usize>, i: int, di: int, d: int, j: usize)
        requires
            self.wf(),
            before.len() == self.cells(),
            0 <= i < self.cells(),
            self.bfs_edges_done(before, i, di, d),
            0 <= d < 4,
            self.open_edge(i, d),
            self.nb(i, d) == Some(j as int),
            j < self.cells(),
            before[j as int] == usize::MAX,
            0 <= di + 1 < usize::MAX,
        ensures
            self.bfs_edges_done(before.update(j as int, (di + 1) as usize), i, di, d + 1),
    {
        let dist = before.update(j as int, (di + 1) as usize);
        assert forall|e: int|
            0 <= e < d + 1 && #[trigger] self.open_edge(i, e) implies dist[self.nb(i, e).unwrap()] != usize::MAX
                && dist[self.nb(i, e).unwrap()] <= di + 1 by {
            lemma_grid_neighbor_inverse(self.width_spec(), self.height_spec(), i, e);
            if e < d {
                assert(before[self.nb(i, e).unwrap()] != usize::MAX);
            }
        }
    }

    /// Once every edge of the head entry is relaxed, the head moves on.
    proof fn lemma_bfs_advance(&self, goal: int, dist: Seq<usize>, queue: Seq<usize>, head: int, di: int)
        requires
            self.bfs_queue_ok(goal, dist, queue),
            self.bfs_processed(dist, queue, head),
            0 <= head < queue.len(),
            dist[queue[head] as int] == di,
            Self::bfs_capped(dist, queue, di + 1),
            self.bfs_edges_done(dist, queue[head] as int, di, 4),
        ensures
            self.bfs_processed(dist, queue, head + 1),
            head + 1 < queue.len() ==> Self::bfs_capped(dist, queue, dist[queue[head + 1] as int] + 1),
            head + 1 < queue.len() ==> dist[queue[head + 1] as int] <= head + 1,
    {
        reveal(Navigation::bfs_processed);
        reveal(Navigation::bfs_entries);
        reveal(Navigation::bfs_sorted);
        assert forall|q: int, e: int|
            0 <= q < head + 1 && 0 <= e < 4 && #[trigger] self.open_edge(queue[q] as int, e) implies dist[self.nb(queue[q] as int, e).unwrap()] != usize::MAX
                && dist[self.nb(queue[q] as int, e).unwrap()] <= dist[queue[q] as int] + 1 by {
            if q == head {
                assert(self.open_edge(queue[head] as int, e));
            }
        }
        if head + 1 < queue.len() {
            assert(dist[queue[head] as int] <= dist[queue[head + 1] as int]);
            assert(queue[head + 1] < self.cells());
        }
    }

    /// With the queue exhausted, the partial field is the flood-fill field.
    proof fn lemma_bfs_done(&self, goal: int, dist: Seq<usize>, queue: Seq<usize>)
        requires
            self.bfs_queue_ok(goal, dist, queue),
            self.bfs_processed(dist, queue, queue.len() as int),
        ensures
            self.is_field(goal, dist),
    {
        reveal(Navigation::bfs_entries);
        reveal(Navigation::bfs_members);
        reveal(Navigation::bfs_witness);
        reveal(Navigation::bfs_processed);
        assert forall|i: int, d: int|
            0 <= i < self.cells() && 0 <= d < 4 && dist[i] != usize::MAX && #[trigger] self.open_edge(i, d) implies dist[self.nb(i, d).unwrap()] != usize::MAX
                && dist[self.nb(i, d).unwrap()] <= dist[i] + 1 by {
            let q = choose|q: int| 0 <= q < queue.len() && #[trigger] queue[q] == i;
            assert(self.open_edge(queue[q] as int, d));
        }
        assert forall|j: int| 0 <= j < self.cells() && dist[j] != usize::MAX implies #[trigger] dist[j] < self.cells() by {
            let q = choose|q: int| 0 <= q < queue.len() && #[trigger] queue[q] == j;
            assert(queue[q] < self.cells());
            lemma_count_finite_bound(dist);
        }
    }

    /// Optimistic flood fill: unknown edges remain open until a sensor disproves them.
    /// Descending the field either reaches the goal or discovers a wall and replans.
    fn distances(&self, exit: [usize; 2]) -> (r: Vec<usize>)
        requires
            self.wf(),
            exit[0] < self.width_spec(),
            exit[1] < self.height_spec(),
        ensures
            self.is_field(exit[1] * self.width_spec() + exit[0], r@),
    {
        let n = self.walls.len();
        let mut dist: Vec<usize> = Vec::new();
        let mut k: usize = 0;
        while k < n
            invariant
                k <= n,
                dist@.len() == k,
                forall|j: int| 0 <= j < k ==> #[trigger] dist@[j] == usize::MAX,
            decreases n - k,
        {
            dist.push(usize::MAX);
            k = k + 1;
        }
        proof {
            lemma_count_finite_none(dist@);
            assert(exit[1] * self.width + exit[0] < self.width * self.height) by (nonlinear_arith)
                requires
                    exit[0] < self.width,
                    exit[1] < self.height,
            {
                assert(exit[1] * self.width + exit[0] < exit[1] * self.width + self.width);
                assert((exit[1] + 1) * self.width <= self.height * self.width);
            }
        }
        let goal = exit[1] * self.width + exit[0];
        let ghost blank = dist@;
        proof {
            lemma_count_finite_set(dist@, goal as int, 0);
            lemma_count_finite_bound(dist@.update(goal as int, 0));
        }
        dist.set(goal, 0);
        let mut queue: Vec<usize> = Vec::new();
        queue.push(goal);
        let mut head: usize = 0;
        proof {
            reveal(Navigation::bfs_entries);
            reveal(Navigation::bfs_members);
            reveal(Navigation::bfs_sorted);
            reveal(Navigation::bfs_witness);
            reveal(Navigation::bfs_processed);
            assert(queue@[0] == goal);
            assert forall|j: int| 0 <= j < n && #[trigger] dist@[j] != usize::MAX implies exists|q: int| 0 <= q < queue@.len() && #[trigger] queue@[q] == j by {
                assert(j == goal);
                assert(queue@[0] == j);
            }
            assert forall|j: int|
                0 <= j < n && j != goal && #[trigger] dist@[j] != usize::MAX implies exists|p: int, d: int|
                    0 <= p < n && 0 <= d < 4 && #[trigger] self.open_edge(p, d) && self.nb(p, d) == Some(j)
                        && dist@[p] != usize::MAX && dist@[j] == dist@[p] + 1 by {
                assert(blank[j] == usize::MAX);
            }
            assert(self.bfs_queue_ok(goal as int, dist@, queue@));
            assert(Self::bfs_capped(dist@, queue@, 1));
        }
        while head < queue.len()
            invariant
                self.wf(),
                self.bfs_queue_ok(goal as int, dist@, queue@),
                self.bfs_processed(dist@, queue@, head as int),
                head <= queue@.len(),
                head < queue@.len() ==> Self::bfs_capped(dist@, queue@, dist@[queue@[head as int] as int] + 1),
                head < queue@.len() ==> dist@[queue@[head as int] as int] <= head,
                n == self.cells(),
            decreases n - head,
        {
            let i = queue[head];
            proof {
                reveal(Navigation::bfs_entries);
            }
            let di = dist[i];
            let mut d: usize = 0;
            while d < 4
                invariant
                    self.wf(),
                    self.bfs_queue_ok(goal as int, dist@, queue@),
                    self.bfs_processed(dist@, queue@, head as int),
                    head < queue@.len(),
                    queue@[head as int] == i,
                    i < self.cells(),
                    dist@[i as int] == di,
                    di <= head,
                    d <= 4,
                    Self::bfs_capped(dist@, queue@, di + 1),
                    self.bfs_edges_done(dist@, i as int, di as int, d as int),
                    n == self.cells(),
                decreases 4 - d,
            {
                self.relax_edge(&mut dist, &mut queue, Ghost(goal as int), Ghost(head as int), i, di, d);
                d = d + 1;
            }
            proof {
                self.lemma_bfs_advance(goal as int, dist@, queue@, head as int, di as int);
                reveal(Navigation::bfs_entries);
            }
            head = head + 1;
        }
        proof {
            self.lemma_bfs_done(goal as int, dist@, queue@);
        }
        dist
    }

    /// Direction `d` from cell `i` is a move the solver may pick: the edge is
    /// known open and the neighbor has a finite distance.
    pub open spec fn is_candidate(&self, i: int, d: int, dist: Seq<usize>) -> bool {
        &&& 0 <= d < 4
        &&& self.nb(i, d) is Some
        &&& self.wall(i, d) == Some(false)
        &&& dist[self.nb(i, d).unwrap()] != usize::MAX
    }

    /// The ranking of a move: distance, then unexplored first, then fewer
    /// visits, then fewer departures along the edge, then direction order.
    pub open spec fn move_key(&self, i: int, d: int, dist: Seq<usize>) -> (int, int, int, int, int) {
        let j = self.nb(i, d).unwrap();
        (
            dist[j] as int,
            if self.is_observed(j) {
                1int
            } else {
                0int
            },
            self.visit_count(j) as int,
            self.departures(i, d) as int,
            d,
        )
    }

    /// Move `a` ranks strictly before move `b`.
    pub open spec fn ranks_before(&self, i: int, a: int, b: int, dist: Seq<usize>) -> bool {
        let ka = self.move_key(i, a, dist);
        let kb = self.move_key(i, b, dist);
        ka.0 < kb.0 || (ka.0 == kb.0 && (ka.1 < kb.1 || (ka.1 == kb.1 && (ka.2 < kb.2 || (ka.2 == kb.2 && (
        ka.3 < kb.3 || (ka.3 == kb.3 && ka.4 < kb.4)))))))
    }

    /// The solver's choice ranks first by distance, then prefers the
    /// unexplored, then the less visited, then the edge left less often, then
    /// the earlier direction: a move that ranks before every other candidate
    /// goes to a cell no further away than any candidate's; when another
    /// candidate at the same distance leads to an unobserved cell, so does the
    /// choice; and each later tie-break holds among moves that tie on all the
    /// earlier ones.
    pub proof fn lemma_choice_prefers_near_then_unexplored(&self, i: int, c: int, dist: Seq<usize>)
        requires
            self.is_candidate(i, c, dist),
            forall|d: int| #[trigger] self.is_candidate(i, d, dist) && d != c ==> self.ranks_before(i, c, d, dist),
        ensures
            forall|d: int| #[trigger] self.is_candidate(i, d, dist)
                ==> dist[self.nb(i, c).unwrap()] <= dist[self.nb(i, d).unwrap()],
            forall|d: int| #[trigger] self.is_candidate(i, d, dist)
                && dist[self.nb(i, d).unwrap()] == dist[self.nb(i, c).unwrap()]
                && !self.is_observed(self.nb(i, d).unwrap())
                ==> !self.is_observed(self.nb(i, c).unwrap()),
            forall|d: int| #[trigger] self.is_candidate(i, d, dist)
                && dist[self.nb(i, d).unwrap()] == dist[self.nb(i, c).unwrap()]
                && self.is_observed(self.nb(i, d).unwrap()) == self.is_observed(self.nb(i, c).unwrap())
                ==> self.visit_count(self.nb(i, c).unwrap()) <= self.visit_count(self.nb(i, d).unwrap()),
            forall|d: int| #[trigger] self.is_candidate(i, d, dist)
                && dist[self.nb(i, d).unwrap()] == dist[self.nb(i, c).unwrap()]
                && self.is_observed(self.nb(i, d).unwrap()) == self.is_observed(self.nb(i, c).unwrap())
                && self.visit_count(self.nb(i, d).unwrap()) == self.visit_count(self.nb(i, c).unwrap())
                ==> self.departures(i, c) <= self.departures(i, d),
            forall|d: int| #[trigger] self.is_candidate(i, d, dist)
                && dist[self.nb(i, d).unwrap()] == dist[self.nb(i, c).unwrap()]
                && self.is_observed(self.nb(i, d).unwrap()) == self.is_observed(self.nb(i, c).unwrap())
                && self.visit_count(self.nb(i, d).unwrap()) == self.visit_count(self.nb(i, c).unwrap())
                && self.departures(i, d) == self.departures(i, c)
                ==> c <= d,
    {
        assert forall|d: int| #[trigger] self.is_candidate(i, d, dist) implies
            dist[self.nb(i, c).unwrap()] <= dist[self.nb(i, d).unwrap()] by {
            if d != c {
                assert(self.ranks_before(i, c, d, dist));
            }
        }
        assert forall|d: int| #[trigger] self.is_candidate(i, d, dist)
            && dist[self.nb(i, d).unwrap()] == dist[self.nb(i, c).unwrap()]
            && !self.is_observed(self.nb(i, d).unwrap())
            implies !self.is_observed(self.nb(i, c).unwrap()) by {
            if d != c {
                assert(self.ranks_before(i, c, d, dist));
            }
        }
        assert forall|d: int| #[trigger] self.is_candidate(i, d, dist) && d != c implies self.ranks_before(i, c, d, dist) by {}
    }

    /// From an observed cell other than the goal with a finite distance, some
    /// known-open move descends the field by exactly one, and none descends more.
    pub proof fn lemma_field_descends(&self, goal: int, dist: Seq<usize>, i: int)
        requires
            self.wf(),
            self.is_field(goal, dist),
            0 <= i < self.cells(),
            i != goal,
            self.is_observed(i),
            dist[i] != usize::MAX,
        ensures
            exists|d: int| #[trigger] self.is_candidate(i, d, dist) && dist[self.nb(i, d).unwrap()] + 1 == dist[i],
            forall|d: int| #[trigger] self.is_candidate(i, d, dist) ==> dist[self.nb(i, d).unwrap()] + 1 >= dist[i],
    {
        let w = self.width_spec();
        let h = self.height_spec();
        let (p, d) = choose|p: int, d: int|
            0 <= p < self.cells() && 0 <= d < 4 && #[trigger] self.open_edge(p, d) && self.nb(p, d) == Some(i)
                && dist[p] != usize::MAX && dist[i] == dist[p] + 1;
        lemma_grid_neighbor_inverse(w, h, p, d);
        let c = opposite(d);
        assert(self.nb(i, c) == Some(p));
        assert(self.wall(p, d) == self.wall(i, c));
        assert(self.walls@[i]@[c] is Some);
        assert(self.wall(i, c) is Some);
        assert(self.open_edge(p, d));
        assert(self.wall(i, c) != Some(true));
        assert(self.wall(i, c) == Some(false));
        assert(dist[p] != usize::MAX);
        assert(self.is_candidate(i, c, dist));
        assert forall|e: int| #[trigger] self.is_candidate(i, e, dist) implies dist[self.nb(i, e).unwrap()] + 1 >= dist[i] by {
            lemma_grid_neighbor_inverse(w, h, i, e);
            let j = self.nb(i, e).unwrap();
            assert(self.nb(j, opposite(e)) == Some(i));
            assert(self.wall(i, e) == self.wall(j, opposite(e)));
            assert(self.open_edge(j, opposite(e)));
        }
    }

    fn is_candidate_exec(&self, i: usize, d: usize, dist: &Vec<usize>) -> (r: Option<usize>)
        requires
            self.wf(),
            i < self.cells(),
            d < 4,
            dist@.len() == self.cells(),
        ensures
            r is Some == self.is_candidate(i as int, d as int, dist@),
            r is Some ==> self.nb(i as int, d as int) == Some(r.unwrap() as int),
    {
        match self.neighbor(i, d) {
            None => None,
            Some(j) => {
                proof {
                    lemma_grid_neighbor_inverse(self.width as int, self.height as int, i as int, d as int);
                }
                let known_open = match self.walls[i][d] {
                    Some(false) => true,
                    _ => false,
                };
                if known_open && dist[j] != usize::MAX {
                    Some(j)
                } else {
                    None
                }
            },
        }
    }

    fn ranks_before_exec(&self, i: usize, a: usize, ja: usize, b: usize, jb: usize, dist: &Vec<usize>) -> (r: bool)
        requires
            self.wf(),
            i < self.cells(),
            a < 4,
            b < 4,
            dist@.len() == self.cells(),
            self.nb(i as int, a as int) == Some(ja as int),
            self.nb(i as int, b as int) == Some(jb as int),
        ensures
            r == self.ranks_before(i as int, a as int, b as int, dist@),
    {
        proof {
            lemma_grid_neighbor_inverse(self.width as int, self.height as int, i as int, a as int);
            lemma_grid_neighbor_inverse(self.width as int, self.height as int, i as int, b as int);
        }
        let da = dist[ja];
        let db = dist[jb];
        if da != db {
            return da < db;
        }
        let oa = self.observed[ja];
        let ob = self.observed[jb];
        if oa != ob {
            return !oa;
        }
        let va = self.visits[ja];
        let vb = self.visits[jb];
        if va != vb {
            return va < vb;
        }
        let ea = self.edges[i][a];
        let eb = self.edges[i][b];
        if ea != eb {
            return ea < eb;
        }
        a < b
    }

    /// The best ranked candidate move from cell `i` under `dist`.
    fn best_move(&self, i: usize, dist: &Vec<usize>) -> (best: Option<usize>)
        requires
            self.wf(),
            i < self.cells(),
            dist@.len() == self.cells(),
        ensures
            best is None <==> forall|e: int| 0 <= e < 4 ==> !#[trigger] self.is_candidate(i as int, e, dist@),
            best is Some ==> best.unwrap() < 4 && self.is_candidate(i as int, best.unwrap() as int, dist@)
                && forall|e: int| #[trigger] self.is_candidate(i as int, e, dist@) && e != best.unwrap() ==> self.ranks_before(i as int, best.unwrap() as int, e, dist@),
    {
        let mut best: Option<usize> = None;
        let mut best_j: usize = 0;
        let mut d: usize = 0;
        while d < 4
            invariant
                self.wf(),
                i < self.cells(),
                dist@.len() == self.cells(),
                d <= 4,
                best is None <==> forall|e: int| 0 <= e < d ==> !#[trigger] self.is_candidate(i as int, e, dist@),
                best is Some ==> best.unwrap() < d && self.is_candidate(i as int, best.unwrap() as int, dist@)
                    && self.nb(i as int, best.unwrap() as int) == Some(best_j as int)
                    && forall|e: int| 0 <= e < d && #[trigger] self.is_candidate(i as int, e, dist@) && e != best.unwrap() ==> self.ranks_before(i as int, best.unwrap() as int, e, dist@),
            decreases 4 - d,
        {
            match self.is_candidate_exec(i, d, dist) {
                None => {},
                Some(j) => {
                    match best {
                        None => {
                            best = Some(d);
                            best_j = j;
                        },
                        Some(b) => {
                            if self.ranks_before_exec(i, d, j, b, best_j, dist) {
                                best = Some(d);
                                best_j = j;
                            }
                        },
                    }
                },
            }
            d = d + 1;
        }
        best
    }

    /// The move the online flood-fill solver takes from (`x`, `y`): the best
    /// ranked known-open move toward a finite distance, `None` when there is none.
    /// From an observed cell that is not the exit and can reach it, the move
    /// always descends the field by one.
    #[verifier::spinoff_prover]
    #[verifier::rlimit(30)]
    pub fn choose_move(&self, x: usize, y: usize, exit: [usize; 2]) -> (r: Option<u8>)
        requires
            self.wf(),
            x < self.width_spec(),
            y < self.height_spec(),
            exit[0] < self.width_spec(),
            exit[1] < self.height_spec(),
        ensures
            ({
                let i = y * self.width_spec() + x;
                let goal = exit[1] * self.width_spec() + exit[0];
                let dist = self.field(goal);
                &&& self.is_field(goal, dist)
                &&& (r is None <==> forall|d: int| 0 <= d < 4 ==> !#[trigger] self.is_candidate(i, d, dist))
                &&& r is Some ==> {
                    let c = r.unwrap() as int;
                    &&& self.is_candidate(i, c, dist)
                    &&& forall|d: int| #[trigger] self.is_candidate(i, d, dist) && d != c ==> self.ranks_before(i, c, d, dist)
                    &&& forall|d: int| #[trigger] self.is_candidate(i, d, dist)
                        ==> dist[self.nb(i, c).unwrap()] <= dist[self.nb(i, d).unwrap()]
                    &&& forall|d: int| #[trigger] self.is_candidate(i, d, dist)
                        && dist[self.nb(i, d).unwrap()] == dist[self.nb(i, c).unwrap()]
                        && !self.is_observed(self.nb(i, d).unwrap())
                        ==> !self.is_observed(self.nb(i, c).unwrap())
                }
                &&& (self.is_observed(i) && i != goal && dist[i] != usize::MAX) ==> r is Some && dist[self.nb(i, r.unwrap() as int).unwrap()] + 1 == dist[i]
            }),
    {
        let dist = self.distances(exit);
        proof {
            assert(y * self.width + x < self.width * self.height) by (nonlinear_arith)
                requires
                    x < self.width,
                    y < self.height,
            {
                assert(y * self.width + x < y * self.width + self.width);
                assert((y + 1) * self.width <= self.height * self.width);
            }
        }
        let i = y * self.width + x;
        let ghost goal = exit[1] * self.width_spec() + exit[0];
        proof {
            self.lemma_field_unique(goal, dist@, self.field(goal));
        }
        let best = self.best_move(i, &dist);
        proof {
            if self.is_observed(i as int) && i != goal && dist@[i as int] != usize::MAX {
                self.lemma_field_descends(goal, dist@, i as int);
                let e = choose|e: int| #[trigger] self.is_candidate(i as int, e, dist@) && dist@[self.nb(i as int, e).unwrap()] + 1 == dist@[i as int];
                assert(self.is_candidate(i as int, e, dist@));
            }
        }
        proof {
            if best is Some {
                self.lemma_choice_prefers_near_then_unexplored(i as int, best.unwrap() as int, dist@);
            }
        }
        match best {
            None => None,
            Some(b) => Some(b as u8),
        }
    }

    /// Count one decision; a move in a real direction also counts a departure
    /// from `from` along that edge. Only counts are kept, never the trajectory.
    pub fn record(&mut self, from: [usize; 2], to: [usize; 2], action: u8, collision: bool)
        requires
            old(self).wf(),
            action < 4 ==> from[0] < old(self).width_spec() && from[1] < old(self).height_spec(),
            old(self).decision_count() < usize::MAX,
        ensures
            final(self).wf(),
            final(self).width_spec() == old(self).width_spec(),
            final(self).height_spec() == old(self).height_spec(),
            final(self).observed_seq() == old(self).observed_seq(),
            forall|a: int| 0 <= a < old(self).cells() ==> #[trigger] final(self).visit_count(a) == old(self).visit_count(a),
            forall|a: int, e: int| 0 <= a < old(self).cells() && 0 <= e < 4 ==> #[trigger] final(self).wall(a, e) == old(self).wall(a, e),
            forall|a: int, e: int|
                0 <= a < old(self).cells() && 0 <= e < 4 ==> #[trigger] final(self).departures(a, e) == if action < 4 && a == from[1] * old(self).width_spec() + from[0] && e == action {
                    if old(self).departures(a, e) == u32::MAX { u32::MAX } else { (old(self).departures(a, e) + 1) as u32 }
                } else {
                    old(self).departures(a, e)
                },
            final(self).decision_count() == old(self).decision_count() + 1,
            final(self).last_discovery_spec() == old(self).last_discovery_spec(),
            final(self).observed_count_spec() == old(self).observed_count_spec(),
    {
        let ghost pre = *self;
        if action < 4 {
            proof {
                assert(from[1] * self.width + from[0] < self.width * self.height) by (nonlinear_arith)
                    requires
                        from[0] < self.width,
                        from[1] < self.height,
                {
                    assert(from[1] * self.width + from[0] < from[1] * self.width + self.width);
                    assert((from[1] + 1) * self.width <= self.height * self.width);
                }
            }
            let i = from[1] * self.width + from[0];
            let a = action as usize;
            let mut cell = self.edges[i];
            cell[a] = cell[a].saturating_add(1);
            self.edges.set(i, cell);
        }
        self.decisions = self.decisions + 1;
        let _ = (to, collision);
        proof {
            assert(self.walls@ == pre.walls@);
            assert(self.walls_mirrored()) by {
                assert forall|a: int, e: int|
                    0 <= a < self.cells() && 0 <= e < 4 && #[trigger] self.nb(a, e) is Some implies self.wall(a, e)
                        == self.wall(self.nb(a, e).unwrap(), opposite(e)) by {
                    assert(pre.nb(a, e) == self.nb(a, e));
                }
            }
        }
    }

    /// Number of distinct observed cells.
    pub fn observed_count(&self) -> (r: usize)
        requires
            self.wf(),
        ensures
            r == count_true(self.observed_seq()),
            r == self.observed_count_spec(),
    {
        self.observed_count
    }

    /// Decisions since the last newly observed cell.
    pub fn stagnant_steps(&self) -> (r: usize)
        requires
            self.wf(),
        ensures
            r == self.decision_count() - self.last_discovery_spec(),
    {
        self.decisions - self.last_discovery
    }

    /// Known-open edges of cell `i` that lead to unobserved cells.
    pub open spec fn unexplored_exit_count(&self, i: int) -> nat {
        Self::count_dirs(|d: int| self.wall(i, d) == Some(false) && self.nb(i, d) is Some && !self.is_observed(self.nb(i, d).unwrap()), 4)
    }

    /// The number of directions below `k` satisfying `p`.
    pub open spec fn count_dirs(p: spec_fn(int) -> bool, k: int) -> nat
        decreases k,
    {
        if k <= 0 {
            0
        } else {
            Self::count_dirs(p, k - 1) + if p(k - 1) {
                1nat
            } else {
                0nat
            }
        }
    }

    fn unexplored_exits(&self, i: usize) -> (r: usize)
        requires
            self.wf(),
            i < self.cells(),
        ensures
            r == self.unexplored_exit_count(i as int),
    {
        let ghost p = |d: int| self.wall(i as int, d) == Some(false) && self.nb(i as int, d) is Some && !self.is_observed(self.nb(i as int, d).unwrap());
        let mut count: usize = 0;
        let mut d: usize = 0;
        while d < 4
            invariant
                self.wf(),
                i < self.cells(),
                d <= 4,
                count == Self::count_dirs(p, d as int),
                count <= d,
                p == (|e: int| self.wall(i as int, e) == Some(false) && self.nb(i as int, e) is Some && !self.is_observed(self.nb(i as int, e).unwrap())),
            decreases 4 - d,
        {
            let open = match self.walls[i][d] {
                Some(false) => true,
                _ => false,
            };
            if open {
                match self.neighbor(i, d) {
                    Some(j) => {
                        proof {
                            lemma_grid_neighbor_inverse(self.width as int, self.height as int, i as int, d as int);
                        }
                        if !self.observed[j] {
                            count = count + 1;
                        }
                    },
                    None => {},
                }
            }
            d = d + 1;
        }
        count
    }

    /// Traversals of the edge from cell `i` in direction `d`, counted from both ends.
    pub open spec fn traversal_count(&self, i: int, d: int) -> int {
        let back = match self.nb(i, d) {
            Some(j) => self.departures(j, opposite(d)) as int,
            None => 0,
        };
        let total = self.departures(i, d) as int + back;
        if total > u32::MAX {
            u32::MAX as int
        } else {
            total
        }
    }

    fn traversals(&self, i: usize, d: usize) -> (r: u32)
        requires
            self.wf(),
            i < self.cells(),
            d < 4,
        ensures
            r == self.traversal_count(i as int, d as int),
    {
        let back = match self.neighbor(i, d) {
            Some(j) => {
                proof {
                    lemma_grid_neighbor_inverse(self.width as int, self.height as int, i as int, d as int);
                }
                self.edges[j][(d + 2) % 4]
            },
            None => 0,
        };
        self.edges[i][d].saturating_add(back)
    }
}

/// One observed cell as the spatial memory lists it.
#[derive(Debug, Clone, Copy, PartialEq, Eq)]
pub struct CellSummary {
    pub x: usize,
    pub y: usize,
    /// Bit `d` is set when the wall in direction `d` is known to stand.
    pub wall_mask: u8,
    pub visits: u32,
    pub departures: [u32; 4],
}

/// One legal move as the spatial memory lists it.
#[derive(Debug, Clone, Copy, PartialEq, Eq)]
pub struct MoveSummary {
    pub direction: u8,
    pub x: usize,
    pub y: usize,
    pub explored: bool,
    pub visits: u32,
    pub edge_traversals: u32,
    pub departures: u32,
    /// Known-open exits of the cell there that lead to unobserved cells; only for an explored cell.
    pub unexplored_exits: Option<usize>,
    /// With the flood field: the distance there, if finite.
    pub distance_to_exit: Option<usize>,
    /// With the flood field: whether the move descends it.
    pub downhill: Option<bool>,
}

/// A bounded projection of the solver's memory for one decision.
#[derive(Debug, Clone)]
pub struct SpatialMemory {
    /// The observed cells nearest to the current one, at most `MEMORY_CELL_LIMIT`.
    pub cells: Vec<CellSummary>,
    pub moves: Vec<MoveSummary>,
    pub observed_cells: usize,
    pub steps_without_discovery: usize,
    pub stagnating: bool,
    pub map_truncated: bool,
    /// With the flood field: the distance of the current cell, if finite.
    pub distance_here: Option<usize>,
}

/// How many observed cells a spatial memory lists.
pub const MEMORY_CELL_LIMIT: usize = 24;

/// Decisions without discovery after which a walk counts as stagnating.
pub const STAGNATION_STEPS: usize = 8;

/// A distance if it is finite.
pub open spec fn finite(d: usize) -> Option<usize> {
    if d == usize::MAX {
        None
    } else {
        Some(d)
    }
}

impl Navigation {
    /// The bit mask of the walls of cell `j` known to stand.
    pub open spec fn wall_mask_of(&self, j: int) -> int {
        (if self.wall(j, 0) == Some(true) { 1int } else { 0int }) + (if self.wall(j, 1) == Some(true) { 2int } else { 0int })
            + (if self.wall(j, 2) == Some(true) { 4int } else { 0int }) + (if self.wall(j, 3) == Some(true) { 8int } else { 0int })
    }

    /// How cell `j` is listed.
    pub open spec fn cell_summary(&self, j: int) -> CellSummary {
        CellSummary {
            x: (j % self.width_spec()) as usize,
            y: (j / self.width_spec()) as usize,
            wall_mask: self.wall_mask_of(j) as u8,
            visits: self.visit_count(j),
            departures: self.departure_row(j),
        }
    }

    /// How the move from cell `i` in direction `d` to cell `j` is listed.
    pub open spec fn move_summary(&self, i: int, d: int, j: int, field: Option<Seq<usize>>) -> MoveSummary {
        MoveSummary {
            direction: d as u8,
            x: (j % self.width_spec()) as usize,
            y: (j / self.width_spec()) as usize,
            explored: self.is_observed(j),
            visits: self.visit_count(j),
            edge_traversals: self.traversal_count(i, d) as u32,
            departures: self.departures(i, d),
            unexplored_exits: if self.is_observed(j) { Some(self.unexplored_exit_count(j) as usize) } else { None },
            distance_to_exit: match field {
                Some(f) => finite(f[j]),
                None => None,
            },
            downhill: match field {
                Some(f) => Some(f[j] < f[i]),
                None => None,
            },
        }
    }

    /// The listed moves among the first `k` directions: those known to be open.
    pub open spec fn move_summaries(&self, i: int, field: Option<Seq<usize>>, k: int) -> Seq<MoveSummary>
        decreases k,
    {
        if k <= 0 {
            Seq::empty()
        } else {
            let rest = self.move_summaries(i, field, k - 1);
            if self.wall(i, k - 1) == Some(false) && self.nb(i, k - 1) is Some {
                rest.push(self.move_summary(i, k - 1, self.nb(i, k - 1).unwrap(), field))
            } else {
                rest
            }
        }
    }

    fn summarize_cell(&self, j: usize) -> (r: CellSummary)
        requires
            self.wf(),
            j < self.cells(),
        ensures
            r == self.cell_summary(j as int),
    {
        let w = self.walls[j];
        let mut mask: u8 = 0;
        if w[0] == Some(true) {
            mask = mask + 1;
        }
        if w[1] == Some(true) {
            mask = mask + 2;
        }
        if w[2] == Some(true) {
            mask = mask + 4;
        }
        if w[3] == Some(true) {
            mask = mask + 8;
        }
        CellSummary { x: j % self.width, y: j / self.width, wall_mask: mask, visits: self.visits[j], departures: self.edges[j] }
    }

    /// The spatial memory around `(x, y)` for one decision: the nearest
    /// observed cells, the moves known to be open, the discovery counters,
    /// and with `flood` the flood-fill distances toward `exit`.
    pub fn spatial_memory(&self, x: usize, y: usize, exit: [usize; 2], flood: bool) -> (r: SpatialMemory)
        requires
            self.wf(),
            x < self.width_spec(),
            y < self.height_spec(),
            exit[0] < self.width_spec(),
            exit[1] < self.height_spec(),
        ensures
            ({
                let i = y * self.width_spec() + x;
                let goal = exit[1] * self.width_spec() + exit[0];
                let field = if flood { Some(self.field(goal)) } else { None::<Seq<usize>> };
                &&& exists|listing: Seq<usize>| {
                    &&& nearest_listing(self.observed_seq(), self.width_spec(), x as int, y as int, MEMORY_CELL_LIMIT as int, listing)
                    &&& r.cells@.len() == listing.len()
                    &&& forall|k: int| 0 <= k < listing.len() ==> #[trigger] r.cells@[k] == self.cell_summary(listing[k] as int)
                }
                &&& r.moves@ == self.move_summaries(i, field, 4)
                &&& r.observed_cells == count_true(self.observed_seq())
                &&& r.steps_without_discovery == self.decision_count() - self.last_discovery_spec()
                &&& r.stagnating == (r.steps_without_discovery >= STAGNATION_STEPS)
                &&& r.map_truncated == (r.observed_cells > MEMORY_CELL_LIMIT)
                &&& r.distance_here == (if flood { finite(self.field(goal)[i]) } else { None::<usize> })
            }),
    {
        proof {
            assert(y * self.width + x < self.width * self.height) by (nonlinear_arith)
                requires
                    x < self.width,
                    y < self.height,
            {
                assert((y + 1) * self.width <= self.height * self.width);
            }
        }
        let i = y * self.width + x;
        let ghost goal = exit[1] * self.width_spec() + exit[0];
        let listing = nearest_flagged(&self.observed, self.width, self.height, x, y, MEMORY_CELL_LIMIT);
        let mut cells: Vec<CellSummary> = Vec::new();
        let mut k: usize = 0;
        while k < listing.len()
            invariant
                self.wf(),
                nearest_listing(self.observed@, self.width as int, x as int, y as int, MEMORY_CELL_LIMIT as int, listing@),
                k <= listing@.len(),
                cells@.len() == k,
                forall|m: int| 0 <= m < k ==> #[trigger] cells@[m] == self.cell_summary(listing@[m] as int),
            decreases listing@.len() - k,
        {
            let c = self.summarize_cell(listing[k]);
            cells.push(c);
            k = k + 1;
        }
        let field: Option<Vec<usize>> = if flood {
            let dist = self.distances(exit);
            proof {
                self.lemma_field_unique(goal, dist@, self.field(goal));
            }
            Some(dist)
        } else {
            None
        };
        let ghost field_view = if flood { Some(self.field(goal)) } else { None::<Seq<usize>> };
        let mut moves: Vec<MoveSummary> = Vec::new();
        let mut d: usize = 0;
        while d < 4
            invariant
                self.wf(),
                i < self.cells(),
                i == y * self.width_spec() + x,
                d <= 4,
                field_view == (if flood { Some(self.field(goal)) } else { None::<Seq<usize>> }),
                match field {
                    Some(f) => field_view == Some(f@) && f@.len() == self.cells(),
                    None => field_view is None,
                },
                moves@ == self.move_summaries(i as int, field_view, d as int),
            decreases 4 - d,
        {
            let open = match self.walls[i][d] {
                Some(false) => true,
                _ => false,
            };
            if open {
                match self.neighbor(i, d) {
                    Some(j) => {
                        proof {
                            lemma_grid_neighbor_inverse(self.width as int, self.height as int, i as int, d as int);
                        }
                        let unexplored = if self.observed[j] { Some(self.unexplored_exits(j)) } else { None };
                        let (distance_to_exit, downhill) = match &field {
                            Some(f) => {
                                let dj = f[j];
                                (if dj == usize::MAX { None } else { Some(dj) }, Some(dj < f[i]))
                            },
                            None => (None, None),
                        };
                        moves.push(MoveSummary {
                            direction: d as u8,
                            x: j % self.width,
                            y: j / self.width,
                            explored: self.observed[j],
                            visits: self.visits[j],
                            edge_traversals: self.traversals(i, d),
                            departures: self.edges[i][d],
                            unexplored_exits: unexplored,
                            distance_to_exit,
                            downhill,
                        });
                    },
                    None => {},
                }
            }
            d = d + 1;
        }
        let observed_cells = self.observed_count;
        let stagnant = self.decisions - self.last_discovery;
        proof {
            assert(nearest_listing(self.observed_seq(), self.width_spec(), x as int, y as int, MEMORY_CELL_LIMIT as int, listing@));
            assert(cells@.len() == listing@.len());
            assert(forall|m: int| 0 <= m < listing@.len() ==> #[trigger] cells@[m] == self.cell_summary(listing@[m] as int));
        }
        let distance_here = match &field {
            Some(f) => if f[i] == usize::MAX { None } else { Some(f[i]) },
            None => None,
        };
        SpatialMemory {
            cells,
            moves,
            observed_cells,
            steps_without_discovery: stagnant,
            stagnating: stagnant >= STAGNATION_STEPS,
            map_truncated: observed_cells > MEMORY_CELL_LIMIT,
            distance_here,
        }
    }
}

impl Navigation {
    /// The observed cells nearest to `(x, y)`, at most `limit`, in listing order.
    pub fn nearby_cells(&self, x: usize, y: usize, limit: usize) -> (r: Vec<usize>)
        requires
            self.wf(),
            x < self.width_spec(),
            y < self.height_spec(),
        ensures
            nearest_listing(self.observed_seq(), self.width_spec(), x as int, y as int, limit as int, r@),
    {
        nearest_flagged(&self.observed, self.width, self.height, x, y, limit)
    }

    /// What is known of the four walls of cell `j`.
    pub fn known_walls(&self, j: usize) -> (r: [Option<bool>; 4])
        requires
            self.wf(),
            j < self.cells(),
        ensures
            forall|d: int| 0 <= d < 4 ==> #[trigger] r@[d] == self.wall(j as int, d),
    {
        self.walls[j]
    }

    /// How often cell `j` was observed.
    pub fn visits_of(&self, j: usize) -> (r: u32)
        requires
            self.wf(),
            j < self.cells(),
        ensures
            r == self.visit_count(j as int),
    {
        self.visits[j]
    }

    /// How often the walk left cell `j` in each direction.
    pub fn departures_of(&self, j: usize) -> (r: [u32; 4])
        requires
            self.wf(),
            j < self.cells(),
        ensures
            r == self.departure_row(j as int),
    {
        self.edges[j]
    }

    /// The number of decisions recorded.
    pub fn decisions(&self) -> (r: usize)
        ensures
            r == self.decision_count(),
    {
        self.decisions
    }

    /// The grid's width.
    pub fn width(&self) -> (r: usize)
        ensures
            r == self.width_spec(),
    {
        self.width
    }

    /// The grid's height.
    pub fn height(&self) -> (r: usize)
        ensures
            r == self.height_spec(),
    {
        self.height
    }
}

/// The spatial memory offers at most four moves, each along an edge the
/// walk has seen open, so every listed move is legal.
pub proof fn lemma_listed_moves_are_open(nav: Navigation, i: int, field: Option<Seq<usize>>, k: int)
    requires
        0 <= k <= 4,
    ensures
        nav.move_summaries(i, field, k).len() <= k,
        forall|m: int| 0 <= m < nav.move_summaries(i, field, k).len() ==> {
            let d = #[trigger] nav.move_summaries(i, field, k)[m].direction as int;
            &&& 0 <= d < k
            &&& nav.wall(i, d) == Some(false)
            &&& nav.nb(i, d) is Some
        },
    decreases k,
{
    if k > 0 {
        lemma_listed_moves_are_open(nav, i, field, k - 1);
        let rest = nav.move_summaries(i, field, k - 1);
        assert forall|m: int| 0 <= m < nav.move_summaries(i, field, k).len() implies {
            let d = #[trigger] nav.move_summaries(i, field, k)[m].direction as int;
            &&& 0 <= d < k
            &&& nav.wall(i, d) == Some(false)
            &&& nav.nb(i, d) is Some
        } by {
            if m < rest.len() {
                assert(nav.move_summaries(i, field, k)[m] == rest[m]);
            }
        }
    }
}

/// The observation flags cover every cell.
pub proof fn lemma_observed_len(nav: Navigation)
    requires
        nav.wf(),
    ensures
        nav.observed_seq().len() == nav.cells(),
        nav.cells() <= usize::MAX,
        0 <= nav.width_spec() <= usize::MAX,
        0 <= nav.height_spec() <= usize::MAX,
{
}

/// The number of entries other than `usize::MAX`.
pub open spec fn count_finite(s: Seq<usize>) -> nat
    decreases s.len(),
{
    if s.len() == 0 {
        0
    } else {
        count_finite(s.drop_last()) + if s.last() != usize::MAX {
            1nat
        } else {
            0nat
        }
    }
}

pub proof fn lemma_count_finite_bound(s: Seq<usize>)
    ensures
        count_finite(s) <= s.len(),
    decreases s.len(),
{
    if s.len() > 0 {
        lemma_count_finite_bound(s.drop_last());
    }
}

pub proof fn lemma_count_finite_none(s: Seq<usize>)
    requires
        forall|i: int| 0 <= i < s.len() ==> #[trigger] s[i] == usize::MAX,
    ensures
        count_finite(s) == 0,
    decreases s.len(),
{
    if s.len() > 0 {
        lemma_count_finite_none(s.drop_last());
    }
}

pub proof fn lemma_count_finite_set(s: Seq<usize>, i: int, v: usize)
    requires
        0 <= i < s.len(),
        s[i] == usize::MAX,
        v != usize::MAX,
    ensures
        count_finite(s.update(i, v)) == count_finite(s) + 1,
    decreases s.len(),
{
    let t = s.update(i, v);
    if i == s.len() - 1 {
        assert(t.drop_last() =~= s.drop_last());
    } else {
        lemma_count_finite_set(s.drop_last(), i, v);
        assert(t.drop_last() =~= s.drop_last().update(i, v));
    }
}


} // verus!
