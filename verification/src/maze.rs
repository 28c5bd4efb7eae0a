//! Braided grid mazes, moves through them and the records of a walk.
use vstd::prelude::*;
use vstd::arithmetic::div_mod::{lemma_fundamental_div_mod, lemma_fundamental_div_mod_converse};
use crate::grid::{count_true, grid_neighbor, lemma_count_true_bound, lemma_count_true_set, lemma_count_none, lemma_grid_neighbor_inverse, opposite};
use crate::record::{action_from_choice, action_label, action_name, choice_action};
use crate::rng::{spec_advance, spec_bounded_index, spec_output, State, Xoshiro256PlusPlus};
use crate::text::{ascii_lowercase, join3, lower, owned, same_text};

verus! {

/// The four walls of one cell; `true` is a wall.
#[derive(Debug, Clone, Copy, PartialEq, Eq, Structural)]
pub struct CellWalls {
    pub n: bool,
    pub e: bool,
    pub s: bool,
    pub w: bool,
}

impl CellWalls {
    /// The wall in direction `d` (0 = north/up, 1 = east/right, 2 = south/down, 3 = west/left).
    pub open spec fn side(self, d: int) -> bool {
        if d == 0 {
            self.n
        } else if d == 1 {
            self.e
        } else if d == 2 {
            self.s
        } else {
            self.w
        }
    }
}

/// Both sides of every interior edge agree, and the border is walled.
pub open spec fn walls_consistent(cells: Seq<CellWalls>, w: int, h: int) -> bool {
    forall|i: int, d: int|
        0 <= i < w * h && 0 <= d < 4 ==> match #[trigger] grid_neighbor(w, h, i, d) {
            Some(j) => cells[i].side(d) == cells[j].side(opposite(d)),
            None => cells[i].side(d),
        }
}

/// An open passage leads from cell `p` in direction `d` to cell `c`.
pub open spec fn passage(cells: Seq<CellWalls>, w: int, h: int, p: int, d: int, c: int) -> bool {
    0 <= d < 4 && grid_neighbor(w, h, p, d) == Some(c) && !cells[p].side(d)
}

/// Cell `c` can be reached from the start cell 0 in at most `k` moves.
pub open spec fn reachable(cells: Seq<CellWalls>, w: int, h: int, c: int, k: nat) -> bool
    decreases k,
{
    if k == 0 {
        c == 0
    } else {
        reachable(cells, w, h, c, (k - 1) as nat) || exists|p: int, d: int|
            0 <= p < w * h && #[trigger] passage(cells, w, h, p, d, c) && reachable(cells, w, h, p, (k - 1) as nat)
    }
}

/// `b` has every passage of `a` (walls are only ever removed).
pub open spec fn opened_from(a: Seq<CellWalls>, b: Seq<CellWalls>, n: int) -> bool {
    forall|i: int, d: int| 0 <= i < n && 0 <= d < 4 && !#[trigger] a[i].side(d) ==> !b[i].side(d)
}

pub proof fn lemma_reachable_more_steps(cells: Seq<CellWalls>, w: int, h: int, c: int, k: nat, m: nat)
    requires
        reachable(cells, w, h, c, k),
        k <= m,
    ensures
        reachable(cells, w, h, c, m),
    decreases m,
{
    if m > k {
        lemma_reachable_more_steps(cells, w, h, c, k, (m - 1) as nat);
    }
}

pub proof fn lemma_reachable_opened(a: Seq<CellWalls>, b: Seq<CellWalls>, w: int, h: int, c: int, k: nat)
    requires
        reachable(a, w, h, c, k),
        opened_from(a, b, w * h),
    ensures
        reachable(b, w, h, c, k),
    decreases k,
{
    if k > 0 {
        if reachable(a, w, h, c, (k - 1) as nat) {
            lemma_reachable_opened(a, b, w, h, c, (k - 1) as nat);
        } else {
            let (p, d) = choose|p: int, d: int|
                0 <= p < w * h && #[trigger] passage(a, w, h, p, d, c) && reachable(a, w, h, p, (k - 1) as nat);
            lemma_reachable_opened(a, b, w, h, p, (k - 1) as nat);
            assert(!a[p].side(d));
            assert(passage(b, w, h, p, d, c));
        }
    }
}

/// A cell with every wall standing.
pub open spec fn closed_cell() -> CellWalls {
    CellWalls { n: true, e: true, s: true, w: true }
}

/// `c` with the wall in direction `d` removed.
pub open spec fn with_side_open(c: CellWalls, d: int) -> CellWalls {
    if d == 0 {
        CellWalls { n: false, ..c }
    } else if d == 1 {
        CellWalls { e: false, ..c }
    } else if d == 2 {
        CellWalls { s: false, ..c }
    } else {
        CellWalls { w: false, ..c }
    }
}

/// `cells` with the wall between cell `i` and its neighbor in direction `d`
/// removed on both sides; unchanged when there is no such neighbor.
pub open spec fn knocked(cells: Seq<CellWalls>, w: int, h: int, i: int, d: int) -> Seq<CellWalls> {
    match grid_neighbor(w, h, i, d) {
        None => cells,
        Some(j) => cells.update(i, with_side_open(cells[i], d)).update(j, with_side_open(cells[j], opposite(d))),
    }
}

fn open_side(c: CellWalls, d: usize) -> (r: CellWalls)
    requires
        d < 4,
    ensures
        forall|e: int| 0 <= e < 4 ==> #[trigger] r.side(e) == (c.side(e) && e != d),
        r == with_side_open(c, d as int),
{
    if d == 0 {
        CellWalls { n: false, ..c }
    } else if d == 1 {
        CellWalls { e: false, ..c }
    } else if d == 2 {
        CellWalls { s: false, ..c }
    } else {
        CellWalls { w: false, ..c }
    }
}

/// The neighbor of cell `i` in direction `d` of a `w`×`h` grid.
fn neighbor_of(w: usize, h: usize, i: usize, d: usize) -> (r: Option<usize>)
    requires
        w * h <= usize::MAX,
        i < w * h,
        d < 4,
    ensures
        match r {
            Some(j) => grid_neighbor(w as int, h as int, i as int, d as int) == Some(j as int) && j < w * h,
            None => grid_neighbor(w as int, h as int, i as int, d as int) is None,
        },
{
    proof {
        assert(w > 0) by (nonlinear_arith)
            requires
                i < w * h,
        ;
        lemma_fundamental_div_mod(i as int, w as int);
    }
    let x = i % w;
    let y = i / w;
    proof {
        if y > 0 {
            assert(w * y >= w) by (nonlinear_arith)
                requires
                    y > 0,
                    w > 0,
            ;
        }
    }
    let r = if d == 0 && y > 0 {
        Some(i - w)
    } else if d == 1 && x + 1 < w {
        Some(i + 1)
    } else if d == 2 && y + 1 < h {
        proof {
            assert(i + w <= usize::MAX) by (nonlinear_arith)
                requires
                    i == w * y + x,
                    x < w,
                    y + 1 < h,
                    w * h <= usize::MAX,
            {
                assert(w * (y + 1) <= w * (h - 1));
            }
        }
        Some(i + w)
    } else if d == 3 && x > 0 {
        Some(i - 1)
    } else {
        None
    };
    proof {
        if r is Some {
            lemma_grid_neighbor_inverse(w as int, h as int, i as int, d as int);
        }
    }
    r
}

/// Remove the wall between cell `i` and its neighbor in direction `d`, on both sides.
fn knock(cells: &mut Vec<CellWalls>, w: usize, h: usize, i: usize, d: usize)
    requires
        w * h <= usize::MAX,
        old(cells)@.len() == w * h,
        walls_consistent(old(cells)@, w as int, h as int),
        i < w * h,
        d < 4,
    ensures
        final(cells)@.len() == w * h,
        walls_consistent(final(cells)@, w as int, h as int),
        opened_from(old(cells)@, final(cells)@, w * h),
        grid_neighbor(w as int, h as int, i as int, d as int) is Some ==> !final(cells)@[i as int].side(d as int),
        final(cells)@ == knocked(old(cells)@, w as int, h as int, i as int, d as int),
        forall|a: int, e: int|
            0 <= a < w * h && 0 <= e < 4 && !(a == i && e == d) && !(grid_neighbor(w as int, h as int, i as int, d as int) == Some(a) && e == opposite(d as int))
                ==> #[trigger] final(cells)@[a].side(e) == old(cells)@[a].side(e),
{
    let ghost pre = cells@;
    let ghost wi = w as int;
    let ghost hi = h as int;
    match neighbor_of(w, h, i, d) {
        None => {},
        Some(j) => {
            proof {
                lemma_grid_neighbor_inverse(wi, hi, i as int, d as int);
                assert(j != i);
            }
            let od = (d + 2) % 4;
            let ci = open_side(cells[i], d);
            cells.set(i, ci);
            let cj = open_side(cells[j], od);
            cells.set(j, cj);
            proof {
                assert forall|a: int, e: int|
                    0 <= a < w * h && 0 <= e < 4 && !(a == i && e == d) && !(a == j && e == opposite(d as int))
                        implies #[trigger] cells@[a].side(e) == pre[a].side(e) by {}
                assert forall|a: int, e: int| 0 <= a < w * h && 0 <= e < 4 implies match #[trigger] grid_neighbor(wi, hi, a, e) {
                    Some(b) => cells@[a].side(e) == cells@[b].side(opposite(e)),
                    None => cells@[a].side(e),
                } by {
                    match grid_neighbor(wi, hi, a, e) {
                        Some(b) => {
                            lemma_grid_neighbor_inverse(wi, hi, a, e);
                            assert(pre[a].side(e) == pre[b].side(opposite(e)));
                            if a == i && e == d {
                                assert(b == j);
                            } else if a == j && e == opposite(d as int) {
                                assert(b == i);
                            } else if b == i && opposite(e) == d {
                                assert(grid_neighbor(wi, hi, i as int, d as int) == Some(a));
                            } else if b == j && opposite(e) == opposite(d as int) {
                                assert(e == d);
                                assert(a == i);
                            }
                        },
                        None => {
                            assert(pre[a].side(e));
                            if a == i && e == d {
                                assert(false);
                            } else if a == j && e == opposite(d as int) {
                                assert(grid_neighbor(wi, hi, j as int, opposite(d as int)) == Some(i as int));
                            }
                        },
                    }
                }
            }
        },
    }
}

/// Direction `v` occurs in `dirs`.
pub open spec fn lists_dir(dirs: [u8; 4], v: int) -> bool {
    exists|q: int| 0 <= q < 4 && #[trigger] dirs[q] == v
}

/// The four directions in some order, each exactly once.
pub open spec fn is_dir_order(dirs: [u8; 4]) -> bool {
    &&& forall|q: int| 0 <= q < 4 ==> #[trigger] dirs[q] < 4
    &&& forall|v: int| 0 <= v < 4 ==> #[trigger] lists_dir(dirs, v)
}

/// The Fisher–Yates steps from position `i` down to 1: each swaps position
/// `i` with one drawn below `i + 1`.
pub open spec fn shuffle_from(d: Seq<u8>, s: State, i: nat) -> (Seq<u8>, State)
    decreases i,
{
    if i == 0 {
        (d, s)
    } else {
        let j = spec_bounded_index(spec_output(s), (i + 1) as usize) as int;
        shuffle_from(d.update(i as int, d[j]).update(j, d[i as int]), spec_advance(s), (i - 1) as nat)
    }
}

/// The shuffled directions drawn from generator state `s`, and the state after.
pub open spec fn shuffle_spec(s: State) -> (Seq<u8>, State) {
    shuffle_from(seq![0u8, 1u8, 2u8, 3u8], s, 3)
}

/// A Fisher–Yates shuffle of the four directions.
fn shuffled_dirs(rng: &mut Xoshiro256PlusPlus) -> (r: [u8; 4])
    ensures
        is_dir_order(r),
        (r@, final(rng)@) == shuffle_spec(old(rng)@),
{
    let mut dirs: [u8; 4] = [0, 1, 2, 3];
    let mut i: usize = 3;
    proof {
        assert forall|v: int| 0 <= v < 4 implies #[trigger] lists_dir(dirs, v) by {
            assert(dirs[v] == v);
        }
    }
    proof {
        assert(dirs@ =~= seq![0u8, 1u8, 2u8, 3u8]);
    }
    while i >= 1
        invariant
            i <= 3,
            is_dir_order(dirs),
            shuffle_from(dirs@, rng@, i as nat) == shuffle_spec(old(rng)@),
        decreases i,
    {
        let ghost pre_rng = rng@;
        let ghost pre_dirs = dirs@;
        let j = rng.bounded_usize(i + 1);
        let ghost before = dirs;
        let a = dirs[i];
        let b = dirs[j];
        dirs[i] = b;
        dirs[j] = a;
        proof {
            assert forall|v: int| 0 <= v < 4 implies #[trigger] lists_dir(dirs, v) by {
                assert(lists_dir(before, v));
                let q = choose|q: int| 0 <= q < 4 && #[trigger] before[q] == v;
                if q == i {
                    assert(dirs[j as int] == v);
                } else if q == j {
                    assert(dirs[i as int] == v);
                } else {
                    assert(dirs[q] == v);
                }
            }
            assert(dirs@ =~= pre_dirs.update(i as int, pre_dirs[j as int]).update(j as int, pre_dirs[i as int]));
        }
        i = i - 1;
    }
    dirs
}

/// One cell of the depth-first carve, with its shuffled directions and how
/// many of them it has tried.
#[derive(Clone, Copy)]
struct CarveFrame {
    cell: usize,
    dirs: [u8; 4],
    next: usize,
}

/// Remaining work in the frames: each frame counts its untried directions plus one.
spec fn stack_work(stack: Seq<CarveFrame>) -> nat
    decreases stack.len(),
{
    if stack.len() == 0 {
        0
    } else {
        stack_work(stack.drop_last()) + (5 - stack.last().next) as nat
    }
}

spec fn on_stack(stack: Seq<CarveFrame>, c: int) -> bool {
    exists|s: int| 0 <= s < stack.len() && #[trigger] stack[s].cell == c
}

/// The visited cells form a tree of open passages rooted at cell 0.
#[verifier::opaque]
spec fn carve_tree(cells: Seq<CellWalls>, visited: Seq<bool>, parent: Seq<int>, depth: Seq<nat>, w: int, h: int) -> bool {
    let n = w * h;
    &&& forall|c: int|
        0 <= c < n && c != 0 && #[trigger] visited[c] ==> 0 <= parent[c] < n && visited[parent[c]] && depth[c] == depth[parent[c]] + 1
            && exists|d: int| #[trigger] passage(cells, w, h, parent[c], d, c)
    &&& forall|c: int| 0 <= c < n && #[trigger] visited[c] ==> depth[c] < count_true(visited)
}

/// Every frame is a visited cell, and the directions it has tried lead to visited cells.
#[verifier::opaque]
spec fn carve_frames(visited: Seq<bool>, stack: Seq<CarveFrame>, w: int, h: int) -> bool {
    &&& forall|s: int|
        0 <= s < stack.len() ==> #[trigger] stack[s].cell < w * h && visited[stack[s].cell as int] && stack[s].next <= 4 && is_dir_order(stack[s].dirs)
    &&& forall|s: int, q: int|
        0 <= s < stack.len() && 0 <= q < stack[s].next ==> match #[trigger] grid_neighbor(w, h, stack[s].cell as int, stack[s].dirs[q] as int) {
            Some(j) => visited[j],
            None => true,
        }
}

/// Every visited cell off the stack has every neighbor visited.
#[verifier::opaque]
spec fn carve_closed(visited: Seq<bool>, stack: Seq<CarveFrame>, w: int, h: int) -> bool {
    forall|c: int, d: int|
        0 <= c < w * h && 0 <= d < 4 && visited[c] && !on_stack(stack, c) ==> match #[trigger] grid_neighbor(w, h, c, d) {
            Some(j) => visited[j],
            None => true,
        }
}

spec fn carve_inv(cells: Seq<CellWalls>, visited: Seq<bool>, stack: Seq<CarveFrame>, parent: Seq<int>, depth: Seq<nat>, w: int, h: int) -> bool {
    let n = w * h;
    &&& cells.len() == n
    &&& visited.len() == n
    &&& parent.len() == n
    &&& depth.len() == n
    &&& n > 0
    &&& w > 0
    &&& h > 0
    &&& walls_consistent(cells, w, h)
    &&& visited[0]
    &&& depth[0] == 0
    &&& carve_tree(cells, visited, parent, depth, w, h)
    &&& carve_frames(visited, stack, w, h)
    &&& carve_closed(visited, stack, w, h)
}

proof fn lemma_carve_pop(cells: Seq<CellWalls>, visited: Seq<bool>, stack: Seq<CarveFrame>, parent: Seq<int>, depth: Seq<nat>, w: int, h: int)
    requires
        carve_inv(cells, visited, stack, parent, depth, w, h),
        stack.len() > 0,
        stack.last().next == 4,
    ensures
        carve_inv(cells, visited, stack.drop_last(), parent, depth, w, h),
        stack_work(stack.drop_last()) < stack_work(stack),
{
    reveal(carve_frames);
    reveal(carve_closed);
    let t = stack.len() - 1;
    let top = stack[t];
    let rest = stack.drop_last();
    assert forall|s: int| 0 <= s < rest.len() implies #[trigger] rest[s].cell < w * h && visited[rest[s].cell as int] && rest[s].next <= 4 && is_dir_order(rest[s].dirs) by {
        assert(rest[s] == stack[s]);
    }
    assert forall|s: int, q: int|
        0 <= s < rest.len() && 0 <= q < rest[s].next implies match #[trigger] grid_neighbor(w, h, rest[s].cell as int, rest[s].dirs[q] as int) {
            Some(j) => visited[j],
            None => true,
        } by {
        assert(rest[s] == stack[s]);
    }
    assert(top.cell < w * h && is_dir_order(top.dirs));
    assert forall|c: int, d: int|
        0 <= c < w * h && 0 <= d < 4 && visited[c] && !on_stack(rest, c) implies match #[trigger] grid_neighbor(w, h, c, d) {
            Some(j) => visited[j],
            None => true,
        } by {
        if c == top.cell {
            assert(lists_dir(top.dirs, d));
            let q = choose|q: int| 0 <= q < 4 && #[trigger] top.dirs[q] == d;
            assert(match grid_neighbor(w, h, stack[t].cell as int, stack[t].dirs[q] as int) {
                Some(j) => visited[j],
                None => true,
            });
        } else {
            if on_stack(stack, c) {
                let s = choose|s: int| 0 <= s < stack.len() && #[trigger] stack[s].cell == c;
                assert(s != t);
                assert(rest[s].cell == c);
            }
        }
    }
}

proof fn lemma_carve_skip(cells: Seq<CellWalls>, visited: Seq<bool>, stack: Seq<CarveFrame>, parent: Seq<int>, depth: Seq<nat>, w: int, h: int, nstack: Seq<CarveFrame>)
    requires
        carve_inv(cells, visited, stack, parent, depth, w, h),
        stack.len() > 0,
        stack.last().next < 4,
        nstack.len() == stack.len(),
        forall|s: int| 0 <= s < stack.len() - 1 ==> #[trigger] nstack[s] == stack[s],
        nstack.last().cell == stack.last().cell,
        nstack.last().dirs == stack.last().dirs,
        nstack.last().next == stack.last().next + 1,
        match grid_neighbor(w, h, stack.last().cell as int, stack.last().dirs[stack.last().next as int] as int) {
            Some(j) => visited[j],
            None => true,
        },
    ensures
        carve_inv(cells, visited, nstack, parent, depth, w, h),
        stack_work(nstack) < stack_work(stack),
{
    reveal(carve_frames);
    reveal(carve_closed);
    let t = stack.len() - 1;
    assert(nstack.drop_last() =~= stack.drop_last());
    assert forall|s: int| 0 <= s < nstack.len() implies #[trigger] nstack[s].cell < w * h && visited[nstack[s].cell as int] && nstack[s].next <= 4 && is_dir_order(nstack[s].dirs) by {
        if s < t {
            assert(nstack[s] == stack[s]);
        } else {
            assert(stack[t].cell < w * h);
        }
    }
    assert forall|s: int, q: int|
        0 <= s < nstack.len() && 0 <= q < nstack[s].next implies match #[trigger] grid_neighbor(w, h, nstack[s].cell as int, nstack[s].dirs[q] as int) {
            Some(j) => visited[j],
            None => true,
        } by {
        if s < t {
            assert(nstack[s] == stack[s]);
        } else if q < stack[t].next {
            assert(match grid_neighbor(w, h, stack[t].cell as int, stack[t].dirs[q] as int) {
                Some(j) => visited[j],
                None => true,
            });
        }
    }
    assert forall|c: int, d: int|
        0 <= c < w * h && 0 <= d < 4 && visited[c] && !on_stack(nstack, c) implies match #[trigger] grid_neighbor(w, h, c, d) {
            Some(j) => visited[j],
            None => true,
        } by {
        if on_stack(stack, c) {
            let s = choose|s: int| 0 <= s < stack.len() && #[trigger] stack[s].cell == c;
            assert(nstack[s].cell == c);
        }
    }
}

/// Pushing the neighbor `j` of `cell` (reached through direction `dir`) keeps the tree.
#[verifier::spinoff_prover]
proof fn lemma_carve_push_tree(
    cells: Seq<CellWalls>,
    visited: Seq<bool>,
    parent: Seq<int>,
    depth: Seq<nat>,
    w: int,
    h: int,
    ncells: Seq<CellWalls>,
    cell: int,
    dir: int,
    j: int,
)
    requires
        carve_tree(cells, visited, parent, depth, w, h),
        cells.len() == w * h,
        visited.len() == w * h,
        parent.len() == w * h,
        depth.len() == w * h,
        0 <= cell < w * h,
        visited[cell],
        0 <= j < w * h,
        j != 0,
        !visited[j],
        passage(ncells, w, h, cell, dir, j),
        ncells.len() == w * h,
        opened_from(cells, ncells, w * h),
    ensures
        carve_tree(ncells, visited.update(j, true), parent.update(j, cell), depth.update(j, depth[cell] + 1), w, h),
        count_true(visited.update(j, true)) == count_true(visited) + 1,
{
    reveal(carve_tree);
    let n = w * h;
    let nv = visited.update(j, true);
    let np = parent.update(j, cell);
    let nd = depth.update(j, depth[cell] + 1);
    lemma_count_true_set(visited, j);
    assert forall|c: int|
        0 <= c < n && c != 0 && #[trigger] nv[c] implies 0 <= np[c] < n && nv[np[c]] && nd[c] == nd[np[c]] + 1
            && exists|d: int| #[trigger] passage(ncells, w, h, np[c], d, c) by {
        if c == j {
            assert(passage(ncells, w, h, cell, dir, j));
        } else {
            assert(visited[c]);
            let d = choose|d: int| #[trigger] passage(cells, w, h, parent[c], d, c);
            assert(!cells[parent[c]].side(d));
            assert(passage(ncells, w, h, np[c], d, c));
            assert(parent[c] != j);
        }
    }
    assert forall|c: int| 0 <= c < n && #[trigger] nv[c] implies nd[c] < count_true(nv) by {
        if c != j {
            assert(visited[c]);
        }
    }
}

/// Pushing a new frame for `j` keeps the frame invariant.
#[verifier::spinoff_prover]
proof fn lemma_carve_push_frames(visited: Seq<bool>, stack: Seq<CarveFrame>, w: int, h: int, nstack: Seq<CarveFrame>, j: int)
    requires
        carve_frames(visited, stack, w, h),
        w > 0,
        h > 0,
        visited.len() == w * h,
        stack.len() > 0,
        stack.last().next < 4,
        0 <= j < w * h,
        nstack.len() == stack.len() + 1,
        forall|s: int| 0 <= s < stack.len() - 1 ==> #[trigger] nstack[s] == stack[s],
        nstack[stack.len() - 1].cell == stack.last().cell,
        nstack[stack.len() - 1].dirs == stack.last().dirs,
        nstack[stack.len() - 1].next == stack.last().next + 1,
        grid_neighbor(w, h, stack.last().cell as int, stack.last().dirs[stack.last().next as int] as int) == Some(j),
        nstack.last().cell == j,
        nstack.last().next == 0,
        is_dir_order(nstack.last().dirs),
    ensures
        carve_frames(visited.update(j, true), nstack, w, h),
{
    reveal(carve_frames);
    let n = w * h;
    let t = stack.len() - 1;
    let top = stack[t];
    let nv = visited.update(j, true);
    assert forall|s: int| 0 <= s < nstack.len() implies #[trigger] nstack[s].cell < n && nv[nstack[s].cell as int] && nstack[s].next <= 4 && is_dir_order(nstack[s].dirs) by {
        if s < t {
            assert(nstack[s] == stack[s]);
        } else if s == t {
            assert(stack[t].cell < n);
        }
    }
    assert forall|s: int, q: int|
        0 <= s < nstack.len() && 0 <= q < nstack[s].next implies match #[trigger] grid_neighbor(w, h, nstack[s].cell as int, nstack[s].dirs[q] as int) {
            Some(k) => nv[k],
            None => true,
        } by {
        assert(nstack[s].cell < n && nstack[s].dirs[q] < 4);
        if grid_neighbor(w, h, nstack[s].cell as int, nstack[s].dirs[q] as int) is Some {
            lemma_grid_neighbor_inverse(w, h, nstack[s].cell as int, nstack[s].dirs[q] as int);
        }
        if s < t {
            assert(nstack[s] == stack[s]);
            assert(match grid_neighbor(w, h, stack[s].cell as int, stack[s].dirs[q] as int) {
                Some(k) => visited[k],
                None => true,
            });
        } else if s == t && q < top.next {
            assert(match grid_neighbor(w, h, stack[t].cell as int, stack[t].dirs[q] as int) {
                Some(k) => visited[k],
                None => true,
            });
        } else if s == t {
            assert(q == top.next);
            assert(nstack[s].dirs[q] == top.dirs[top.next as int]);
            assert(nv[j]);
        }
    }
}

/// Pushing a new frame for `j` keeps every cell off the stack closed.
#[verifier::spinoff_prover]
proof fn lemma_carve_push_closed(visited: Seq<bool>, stack: Seq<CarveFrame>, w: int, h: int, nstack: Seq<CarveFrame>, j: int)
    requires
        carve_closed(visited, stack, w, h),
        w > 0,
        h > 0,
        visited.len() == w * h,
        0 <= j < w * h,
        stack.len() > 0,
        nstack.len() == stack.len() + 1,
        forall|s: int| 0 <= s < stack.len() - 1 ==> #[trigger] nstack[s] == stack[s],
        nstack[stack.len() - 1].cell == stack.last().cell,
        nstack.last().cell == j,
    ensures
        carve_closed(visited.update(j, true), nstack, w, h),
{
    reveal(carve_closed);
    let n = w * h;
    let nv = visited.update(j, true);
    assert forall|c: int, d: int|
        0 <= c < n && 0 <= d < 4 && nv[c] && !on_stack(nstack, c) implies match #[trigger] grid_neighbor(w, h, c, d) {
            Some(k) => nv[k],
            None => true,
        } by {
        if grid_neighbor(w, h, c, d) is Some {
            lemma_grid_neighbor_inverse(w, h, c, d);
        }
        if c == j {
            assert(nstack[nstack.len() - 1].cell == j);
        } else {
            if on_stack(stack, c) {
                let s = choose|s: int| 0 <= s < stack.len() && #[trigger] stack[s].cell == c;
                assert(nstack[s].cell == c);
                assert(on_stack(nstack, c));
            }
            assert(match grid_neighbor(w, h, c, d) {
                Some(k) => visited[k],
                None => true,
            });
        }
    }
}

proof fn lemma_carve_push(
    cells: Seq<CellWalls>,
    visited: Seq<bool>,
    stack: Seq<CarveFrame>,
    parent: Seq<int>,
    depth: Seq<nat>,
    w: int,
    h: int,
    ncells: Seq<CellWalls>,
    nstack: Seq<CarveFrame>,
    j: int,
)
    requires
        carve_inv(cells, visited, stack, parent, depth, w, h),
        stack.len() > 0,
        stack.last().next < 4,
        grid_neighbor(w, h, stack.last().cell as int, stack.last().dirs[stack.last().next as int] as int) == Some(j),
        !visited[j],
        ncells.len() == w * h,
        walls_consistent(ncells, w, h),
        opened_from(cells, ncells, w * h),
        !ncells[stack.last().cell as int].side(stack.last().dirs[stack.last().next as int] as int),
        nstack.len() == stack.len() + 1,
        forall|s: int| 0 <= s < stack.len() - 1 ==> #[trigger] nstack[s] == stack[s],
        nstack[stack.len() - 1].cell == stack.last().cell,
        nstack[stack.len() - 1].dirs == stack.last().dirs,
        nstack[stack.len() - 1].next == stack.last().next + 1,
        nstack.last().cell == j,
        nstack.last().next == 0,
        is_dir_order(nstack.last().dirs),
    ensures
        carve_inv(
            ncells,
            visited.update(j, true),
            nstack,
            parent.update(j, stack.last().cell as int),
            depth.update(j, depth[stack.last().cell as int] + 1),
            w,
            h,
        ),
        count_true(visited.update(j, true)) == count_true(visited) + 1,
{
    reveal(carve_frames);
    let t = stack.len() - 1;
    let cell = stack[t].cell as int;
    let dir = stack[t].dirs[stack[t].next as int] as int;
    assert(stack[t].cell < w * h && visited[cell] && is_dir_order(stack[t].dirs));
    lemma_grid_neighbor_inverse(w, h, cell, dir);
    assert(0 <= dir < 4);
    assert(passage(ncells, w, h, cell, dir, j));
    lemma_carve_push_tree(cells, visited, parent, depth, w, h, ncells, cell, dir, j);
    lemma_carve_push_frames(visited, stack, w, h, nstack, j);
    lemma_carve_push_closed(visited, stack, w, h, nstack, j);
}

/// A visited set that contains the start and is closed under neighbors is everything.
proof fn lemma_closed_is_all(visited: Seq<bool>, w: int, h: int, c: int)
    requires
        w > 0,
        h > 0,
        visited.len() == w * h,
        visited[0],
        forall|a: int, d: int|
            0 <= a < w * h && 0 <= d < 4 && visited[a] ==> match #[trigger] grid_neighbor(w, h, a, d) {
                Some(k) => visited[k],
                None => true,
            },
        0 <= c < w * h,
    ensures
        visited[c],
    decreases c,
{
    if c > 0 {
        lemma_fundamental_div_mod(c, w);
        let x = c % w;
        let y = c / w;
        assert(0 <= x < w) by {
            vstd::arithmetic::div_mod::lemma_mod_bound(c, w);
        }
        if y > 0 {
            let p = c - w;
            assert(p == (y - 1) * w + x) by (nonlinear_arith)
                requires
                    p == c - w,
                    c == w * y + x,
            ;
            assert(0 <= p) by (nonlinear_arith)
                requires
                    p == (y - 1) * w + x,
                    y >= 1,
                    x >= 0,
                    w > 0,
            ;
            lemma_closed_is_all(visited, w, h, p);
            lemma_fundamental_div_mod_converse(p, w, y - 1, x);
            assert(y < h) by (nonlinear_arith)
                requires
                    c == w * y + x,
                    0 <= x,
                    c < w * h,
                    w > 0,
            ;
            assert(grid_neighbor(w, h, p, 2) == Some(c));
        } else {
            assert(c == x) by (nonlinear_arith)
                requires
                    c == w * y + x,
                    y == 0,
            ;
            let p = c - 1;
            lemma_closed_is_all(visited, w, h, p);
            lemma_fundamental_div_mod_converse(p, w, 0, p);
            assert(grid_neighbor(w, h, p, 1) == Some(c));
        }
    }
}

/// Every cell of the tree is reachable from the start within its depth.
proof fn lemma_tree_reachable(cells: Seq<CellWalls>, visited: Seq<bool>, parent: Seq<int>, depth: Seq<nat>, w: int, h: int, c: int)
    requires
        carve_tree(cells, visited, parent, depth, w, h),
        visited.len() == w * h,
        depth[0] == 0,
        0 <= c < w * h,
        visited[c],
    ensures
        reachable(cells, w, h, c, depth[c]),
    decreases depth[c],
{
    reveal(carve_tree);
    if c != 0 {
        let p = parent[c];
        lemma_tree_reachable(cells, visited, parent, depth, w, h, p);
        let d = choose|d: int| #[trigger] passage(cells, w, h, p, d, c);
        assert(passage(cells, w, h, p, d, c));
    } else {
        assert(reachable(cells, w, h, 0, 0));
        lemma_reachable_more_steps(cells, w, h, 0, 0, depth[0]);
    }
}

/// `n` copies of `v`.
fn filled_flags(n: usize, v: bool) -> (r: Vec<bool>)
    ensures
        r@.len() == n,
        forall|i: int| 0 <= i < n ==> #[trigger] r@[i] == v,
{
    let mut r: Vec<bool> = Vec::new();
    let mut k: usize = 0;
    while k < n
        invariant
            k <= n,
            r@.len() == k,
            forall|i: int| 0 <= i < k ==> #[trigger] r@[i] == v,
        decreases n - k,
    {
        r.push(v);
        k = k + 1;
    }
    r
}

/// A stage of the carve: the walls, the cells entered so far, and the generator.
pub type CarveState = (Seq<CellWalls>, Seq<bool>, State);

/// The recursive depth-first carve entered at cell `c`: mark it entered,
/// shuffle its directions, then try them in order. `b` bounds the depth.
pub open spec fn carve_from(w: int, h: int, st: CarveState, c: int, b: nat) -> CarveState
    decreases b, 0int,
{
    if b == 0 {
        st
    } else {
        let sh = shuffle_spec(st.2);
        carve_dirs(w, h, (st.0, st.1.update(c, true), sh.1), c, sh.0, 0, (b - 1) as nat)
    }
}

/// The directions `dirs[k..]` of cell `c`: each one that leads to a cell
/// not yet entered knocks the wall between them and carves on from there.
pub open spec fn carve_dirs(w: int, h: int, st: CarveState, c: int, dirs: Seq<u8>, k: int, b: nat) -> CarveState
    decreases b, 5 - k,
{
    if k < 0 || k >= 4 {
        st
    } else {
        match grid_neighbor(w, h, c, dirs[k] as int) {
            Some(j) => if !st.1[j] {
                carve_dirs(w, h, carve_from(w, h, (knocked(st.0, w, h, c, dirs[k] as int), st.1, st.2), j, b), c, dirs, k + 1, b)
            } else {
                carve_dirs(w, h, st, c, dirs, k + 1, b)
            },
            None => carve_dirs(w, h, st, c, dirs, k + 1, b),
        }
    }
}

/// The carve of a `w`×`h` grid from cell 0, drawing from generator state `s`.
pub open spec fn carve_spec(w: int, h: int, cells: Seq<CellWalls>, s: State) -> CarveState {
    carve_from(w, h, (cells, Seq::new((w * h) as nat, |i: int| false), s), 0, (w * h) as nat)
}

/// What the recursive carve still does when the explicit stack holds `stack`:
/// finish the top frame's directions, then the frames below it in turn.
spec fn unwind(w: int, h: int, stack: Seq<CarveFrame>, st: CarveState, n: int) -> CarveState
    decreases stack.len(),
{
    if stack.len() == 0 {
        st
    } else {
        let top = stack.last();
        unwind(w, h, stack.drop_last(), carve_dirs(w, h, st, top.cell as int, top.dirs@, top.next as int, (n - stack.len()) as nat), n)
    }
}

proof fn lemma_unwind_pop(w: int, h: int, stack: Seq<CarveFrame>, st: CarveState, n: int)
    requires
        stack.len() > 0,
        stack.last().next >= 4,
    ensures
        unwind(w, h, stack, st, n) == unwind(w, h, stack.drop_last(), st, n),
{
}

proof fn lemma_unwind_skip(w: int, h: int, stack: Seq<CarveFrame>, nstack: Seq<CarveFrame>, st: CarveState, n: int)
    requires
        stack.len() > 0,
        stack.last().next < 4,
        nstack.len() == stack.len(),
        nstack.drop_last() == stack.drop_last(),
        nstack.last().cell == stack.last().cell,
        nstack.last().dirs == stack.last().dirs,
        nstack.last().next == stack.last().next + 1,
        match grid_neighbor(w, h, stack.last().cell as int, stack.last().dirs@[stack.last().next as int] as int) {
            Some(j) => st.1[j],
            None => true,
        },
    ensures
        unwind(w, h, nstack, st, n) == unwind(w, h, stack, st, n),
{
}

proof fn lemma_unwind_push(
    w: int,
    h: int,
    stack: Seq<CarveFrame>,
    nstack: Seq<CarveFrame>,
    st: CarveState,
    st1: CarveState,
    n: int,
    j: int,
)
    requires
        stack.len() > 0,
        n - stack.len() >= 1,
        stack.last().next < 4,
        grid_neighbor(w, h, stack.last().cell as int, stack.last().dirs@[stack.last().next as int] as int) == Some(j),
        !st.1[j],
        nstack.len() == stack.len() + 1,
        nstack.drop_last().drop_last() == stack.drop_last(),
        nstack[stack.len() - 1].cell == stack.last().cell,
        nstack[stack.len() - 1].dirs == stack.last().dirs,
        nstack[stack.len() - 1].next == stack.last().next + 1,
        nstack.last().cell == j,
        nstack.last().next == 0,
        (nstack.last().dirs@, st1.2) == shuffle_spec(st.2),
        st1.0 == knocked(st.0, w, h, stack.last().cell as int, stack.last().dirs@[stack.last().next as int] as int),
        st1.1 == st.1.update(j, true),
    ensures
        unwind(w, h, nstack, st1, n) == unwind(w, h, stack, st, n),
{
    let top = stack.last();
    let b = (n - stack.len()) as nat;
    let c = top.cell as int;
    let k = top.next as int;
    let mid = nstack.drop_last();
    assert(mid.last() == nstack[stack.len() - 1]);
    assert(mid.drop_last() == stack.drop_last());
    let inner = carve_dirs(w, h, st1, j, nstack.last().dirs@, 0, (n - nstack.len()) as nat);
    assert(unwind(w, h, nstack, st1, n) == unwind(w, h, mid, inner, n));
    assert(unwind(w, h, mid, inner, n) == unwind(w, h, stack.drop_last(), carve_dirs(w, h, inner, c, top.dirs@, k + 1, b), n));
    let kn = (knocked(st.0, w, h, c, top.dirs@[k] as int), st.1, st.2);
    assert(carve_from(w, h, kn, j, b) == inner);
    assert(carve_dirs(w, h, st, c, top.dirs@, k, b) == carve_dirs(w, h, carve_from(w, h, kn, j, b), c, top.dirs@, k + 1, b));
}

/// The frame on top of the stack is a visited cell with its directions.
proof fn lemma_frame_top(visited: Seq<bool>, stack: Seq<CarveFrame>, w: int, h: int)
    requires
        carve_frames(visited, stack, w, h),
        stack.len() > 0,
    ensures
        stack.last().cell < w * h,
        visited[stack.last().cell as int],
        stack.last().next <= 4,
        is_dir_order(stack.last().dirs),
{
    reveal(carve_frames);
    assert(stack[stack.len() - 1] == stack.last());
}

/// Depth-first carve from cell 0 with an explicit stack: every cell is
/// entered once, its four directions are shuffled on entry, and each
/// direction that leads to a cell not yet entered knocks the wall between
/// them and descends there.
#[verifier::spinoff_prover]
fn carve(cells: &mut Vec<CellWalls>, w: usize, h: usize, rng: &mut Xoshiro256PlusPlus)
    requires
        w > 0,
        h > 0,
        w * h <= usize::MAX,
        old(cells)@.len() == w * h,
        walls_consistent(old(cells)@, w as int, h as int),
    ensures
        final(cells)@.len() == w * h,
        walls_consistent(final(cells)@, w as int, h as int),
        opened_from(old(cells)@, final(cells)@, w * h),
        forall|c: int| 0 <= c < w * h ==> #[trigger] reachable(final(cells)@, w as int, h as int, c, (w * h) as nat),
        final(cells)@ == carve_spec(w as int, h as int, old(cells)@, old(rng)@).0,
        final(rng)@ == carve_spec(w as int, h as int, old(cells)@, old(rng)@).2,
{
    let ghost wi = w as int;
    let ghost hi = h as int;
    let ghost start = cells@;
    let ghost target = carve_spec(w as int, h as int, cells@, rng@);
    let n = w * h;
    proof {
        assert(n > 0) by (nonlinear_arith)
            requires
                n == w * h,
                w > 0,
                h > 0,
        ;
    }
    let mut visited = filled_flags(n, false);
    proof {
        lemma_count_none(visited@);
        lemma_count_true_set(visited@, 0);
        assert(visited@ =~= Seq::new((wi * hi) as nat, |i: int| false));
    }
    let ghost rng0 = rng@;
    let ghost falses = visited@;
    visited.set(0, true);
    let mut stack: Vec<CarveFrame> = Vec::new();
    let first = shuffled_dirs(rng);
    stack.push(CarveFrame { cell: 0, dirs: first, next: 0 });
    proof {
        let st1 = (cells@, visited@, rng@);
        let x = carve_dirs(wi, hi, st1, 0, first@, 0, (n - 1) as nat);
        assert(target == carve_from(wi, hi, (start, falses, rng0), 0, n as nat));
        assert(carve_from(wi, hi, (start, falses, rng0), 0, n as nat) == x);
        assert(unwind(wi, hi, stack@.drop_last(), x, n as int) == x);
        assert(stack@.last() == CarveFrame { cell: 0, dirs: first, next: 0 });
        assert(unwind(wi, hi, stack@, st1, n as int) == x);
    }
    let ghost mut parent: Seq<int> = Seq::new(n as nat, |i: int| 0int);
    let ghost mut depth: Seq<nat> = Seq::new(n as nat, |i: int| 0nat);
    proof {
        reveal(carve_tree);
        reveal(carve_frames);
        reveal(carve_closed);
        assert(count_true(visited@) == 1);
        assert forall|c: int| 0 <= c < n && c != 0 implies !#[trigger] visited@[c] by {}
        assert forall|c: int, d: int|
            0 <= c < wi * hi && 0 <= d < 4 && visited@[c] && !on_stack(stack@, c) implies match #[trigger] grid_neighbor(wi, hi, c, d) {
                Some(j) => visited@[j],
                None => true,
            } by {
            assert(stack@[0].cell == 0);
        }
        assert(carve_inv(cells@, visited@, stack@, parent, depth, wi, hi));
    }
    while stack.len() > 0
        invariant
            n == w * h,
            w * h <= usize::MAX,
            carve_inv(cells@, visited@, stack@, parent, depth, wi, hi),
            opened_from(start, cells@, n as int),
            wi == w,
            hi == h,
            unwind(wi, hi, stack@, (cells@, visited@, rng@), n as int) == target,
            stack@.len() <= count_true(visited@),
        decreases n - count_true(visited@), stack_work(stack@),
    {
        proof {
            lemma_count_true_bound(visited@);
            lemma_frame_top(visited@, stack@, wi, hi);
        }
        let t = stack.len() - 1;
        let top = stack[t];
        let ghost before = stack@;
        proof {
            assert(before[t as int] == top);
            assert(top.cell < n && top.next <= 4 && is_dir_order(top.dirs));
        }
        if top.next == 4 {
            proof {
                lemma_carve_pop(cells@, visited@, before, parent, depth, wi, hi);
            }
            stack.pop();
            proof {
                assert(stack@ =~= before.drop_last());
                lemma_unwind_pop(wi, hi, before, (cells@, visited@, rng@), n as int);
            }
        } else {
            let d = top.dirs[top.next];
            proof {
                assert(d < 4);
            }
            stack.set(t, CarveFrame { cell: top.cell, dirs: top.dirs, next: top.next + 1 });
            let step = neighbor_of(w, h, top.cell, d as usize);
            let fresh = match step {
                Some(j) => !visited[j],
                None => false,
            };
            if fresh {
                let j = step.unwrap();
                let ghost pre_cells = cells@;
                let ghost pre_visited = visited@;
                let ghost pre_rng = rng@;
                let ghost mid = stack@;
                knock(cells, w, h, top.cell, d as usize);
                visited.set(j, true);
                let next_dirs = shuffled_dirs(rng);
                stack.push(CarveFrame { cell: j, dirs: next_dirs, next: 0 });
                proof {
                    lemma_count_true_set(pre_visited, j as int);
                    lemma_count_true_bound(visited@);
                    assert(stack@.drop_last() =~= mid);
                    assert(mid.drop_last() =~= before.drop_last());
                    assert(stack@.drop_last().drop_last() =~= before.drop_last());
                    lemma_unwind_push(wi, hi, before, stack@, (pre_cells, pre_visited, pre_rng), (cells@, visited@, rng@), n as int, j as int);
                    lemma_carve_push(pre_cells, pre_visited, before, parent, depth, wi, hi, cells@, stack@, j as int);
                    parent = parent.update(j as int, top.cell as int);
                    depth = depth.update(j as int, depth[top.cell as int] + 1);
                    lemma_count_true_bound(visited@);
                }
            } else {
                proof {
                    assert(stack@.drop_last() =~= before.drop_last());
                    lemma_unwind_skip(wi, hi, before, stack@, (cells@, visited@, rng@), n as int);
                    lemma_carve_skip(cells@, visited@, before, parent, depth, wi, hi, stack@);
                }
            }
        }
    }
    proof {
        reveal(carve_closed);
        assert forall|c: int| 0 <= c < w * h implies #[trigger] reachable(cells@, wi, hi, c, (w * h) as nat) by {
            assert forall|a: int, d: int|
                0 <= a < wi * hi && 0 <= d < 4 && visited@[a] implies match #[trigger] grid_neighbor(wi, hi, a, d) {
                    Some(k) => visited@[k],
                    None => true,
                } by {
                assert(!on_stack(stack@, a));
            }
            lemma_closed_is_all(visited@, wi, hi, c);
            lemma_tree_reachable(cells@, visited@, parent, depth, wi, hi, c);
            reveal(carve_tree);
            lemma_count_true_bound(visited@);
            lemma_reachable_more_steps(cells@, wi, hi, c, depth[c], (w * h) as nat);
        }
    }
}

/// The braiding pass over cells `i..n`, drawing from generator state `s`.
pub open spec fn braid_from(w: int, h: int, cells: Seq<CellWalls>, s: State, i: int, n: int) -> (Seq<CellWalls>, State)
    decreases n - i,
{
    if i >= n {
        (cells, s)
    } else {
        let roll = spec_bounded_index(spec_output(s), 4);
        let s1 = spec_advance(s);
        if roll == 0 {
            let dir = spec_bounded_index(spec_output(s1), 4) as int;
            braid_from(w, h, knocked(cells, w, h, i, dir), spec_advance(s1), i + 1, n)
        } else {
            braid_from(w, h, cells, s1, i + 1, n)
        }
    }
}

/// The cells of the braided maze of `seed`: the carve of the closed grid,
/// then the braiding pass, both from one generator seeded with `seed`.
pub open spec fn maze_layout(w: int, h: int, seed: u64) -> Seq<CellWalls> {
    let carved = carve_spec(w, h, Seq::new((w * h) as nat, |i: int| closed_cell()), crate::rng::spec_seed_state(seed));
    braid_from(w, h, carved.0, carved.2, 0, w * h).0
}

/// The braiding pass: in row-major order each cell draws a number below 4,
/// and on 0 draws a direction and knocks that wall if it has a neighbor there.
fn braid(cells: &mut Vec<CellWalls>, w: usize, h: usize, rng: &mut Xoshiro256PlusPlus)
    requires
        w > 0,
        h > 0,
        w * h <= usize::MAX,
        old(cells)@.len() == w * h,
        walls_consistent(old(cells)@, w as int, h as int),
    ensures
        final(cells)@.len() == w * h,
        walls_consistent(final(cells)@, w as int, h as int),
        opened_from(old(cells)@, final(cells)@, w * h),
        (final(cells)@, final(rng)@) == braid_from(w as int, h as int, old(cells)@, old(rng)@, 0, w * h),
{
    let ghost start = cells@;
    let ghost target = braid_from(w as int, h as int, cells@, rng@, 0, w * h);
    let n = w * h;
    let mut i: usize = 0;
    while i < n
        invariant
            n == w * h,
            w * h <= usize::MAX,
            i <= n,
            cells@.len() == n,
            walls_consistent(cells@, w as int, h as int),
            opened_from(start, cells@, n as int),
            braid_from(w as int, h as int, cells@, rng@, i as int, n as int) == target,
        decreases n - i,
    {
        let roll = rng.bounded_usize(4);
        if roll == 0 {
            let dir = rng.bounded_usize(4);
            knock(cells, w, h, i, dir);
        }
        i = i + 1;
    }
}

/// A braided maze: a depth-first spanning tree of the grid with some extra
/// walls knocked out, entered at the top-left cell and left at the bottom-right.
#[derive(Debug, Clone)]
pub struct Maze {
    pub width: usize,
    pub height: usize,
    pub seed: u64,
    pub start: [usize; 2],
    pub exit: [usize; 2],
    pub cells: Vec<CellWalls>,
}

/// The cell index of `(x, y)` in a grid `w` wide.
pub open spec fn cell_index(w: int, x: int, y: int) -> int {
    y * w + x
}

/// Whether the move `a` from `(x, y)` is blocked by a wall of `cell` or by the border.
pub open spec fn move_blocked(cell: CellWalls, w: int, h: int, x: int, y: int, a: int) -> bool {
    if a == 0 {
        cell.n || y == 0
    } else if a == 1 {
        cell.e || x + 1 >= w
    } else if a == 2 {
        cell.s || y + 1 >= h
    } else if a == 3 {
        cell.w || x == 0
    } else {
        true
    }
}

/// The cell that the move `a` from `(x, y)` leads to when it is not blocked.
pub open spec fn move_target(x: int, y: int, a: int) -> (int, int) {
    if a == 0 {
        (x, y - 1)
    } else if a == 1 {
        (x + 1, y)
    } else if a == 2 {
        (x, y + 1)
    } else {
        (x - 1, y)
    }
}

/// The outcome of the move `a` from `(x, y)`: the new position and whether it collided.
pub open spec fn move_outcome(cells: Seq<CellWalls>, w: int, h: int, x: int, y: int, a: int) -> (int, int, bool) {
    if move_blocked(cells[cell_index(w, x, y)], w, h, x, y, a) {
        (x, y, true)
    } else {
        (move_target(x, y, a).0, move_target(x, y, a).1, false)
    }
}

/// `|v|`.
pub open spec fn abs_int(v: int) -> int {
    if v < 0 {
        -v
    } else {
        v
    }
}

impl Maze {
    /// The maze's grid is `width`×`height` cells, all present, and fits in memory.
    pub open spec fn well_formed(&self) -> bool {
        &&& self.width > 0
        &&& self.height > 0
        &&& self.width * self.height <= usize::MAX
        &&& self.cells@.len() == self.width * self.height
    }

    /// Build the maze of `seed`: a depth-first carve from the start cell with
    /// an explicit stack, then a braiding pass, both drawing from one
    /// generator seeded with `seed`. A zero dimension is widened to two, as
    /// the smallest maze side; a side of one is kept.
    pub fn braided(width: usize, height: usize, seed: u64) -> (r: Self)
        requires
            (if width == 0 { 2 } else { width as int }) * (if height == 0 { 2 } else { height as int }) <= usize::MAX,
        ensures
            r.width == (if width == 0 { 2 } else { width }),
            r.height == (if height == 0 { 2 } else { height }),
            r.seed == seed,
            r.start == [0usize, 0usize],
            r.exit == [(r.width - 1) as usize, (r.height - 1) as usize],
            r.well_formed(),
            walls_consistent(r.cells@, r.width as int, r.height as int),
            forall|c: int| 0 <= c < r.width * r.height ==> #[trigger] reachable(r.cells@, r.width as int, r.height as int, c, (r.width * r.height) as nat),
            r.cells@ == maze_layout(r.width as int, r.height as int, seed),
    {
        let width = if width == 0 { 2 } else { width };
        let height = if height == 0 { 2 } else { height };
        let mut rng = Xoshiro256PlusPlus::from_seed(seed);
        let n = width * height;
        let mut cells: Vec<CellWalls> = Vec::new();
        let mut k: usize = 0;
        while k < n
            invariant
                k <= n,
                cells@.len() == k,
                forall|i: int| 0 <= i < k ==> #[trigger] cells@[i] == closed_cell(),
            decreases n - k,
        {
            cells.push(CellWalls { n: true, e: true, s: true, w: true });
            k = k + 1;
        }
        proof {
            assert forall|i: int, d: int|
                0 <= i < width * height && 0 <= d < 4 implies match #[trigger] grid_neighbor(width as int, height as int, i, d) {
                    Some(j) => cells@[i].side(d) == cells@[j].side(opposite(d)),
                    None => cells@[i].side(d),
                } by {
                if grid_neighbor(width as int, height as int, i, d) is Some {
                    lemma_grid_neighbor_inverse(width as int, height as int, i, d);
                }
            }
            assert(cells@ =~= Seq::new((width * height) as nat, |i: int| closed_cell()));
        }
        carve(&mut cells, width, height, &mut rng);
        let ghost carved = cells@;
        braid(&mut cells, width, height, &mut rng);
        proof {
            assert forall|c: int| 0 <= c < width * height implies #[trigger] reachable(cells@, width as int, height as int, c, (width * height) as nat) by {
                assert(reachable(carved, width as int, height as int, c, (width * height) as nat));
                lemma_reachable_opened(carved, cells@, width as int, height as int, c, (width * height) as nat);
            }
        }
        Maze { width, height, seed, start: [0, 0], exit: [width - 1, height - 1], cells }
    }

    fn index(&self, x: usize, y: usize) -> (r: usize)
        requires
            self.well_formed(),
            x < self.width,
            y < self.height,
        ensures
            r == cell_index(self.width as int, x as int, y as int),
            r < self.cells@.len(),
    {
        proof {
            assert(y * self.width + x < self.width * self.height) by (nonlinear_arith)
                requires
                    x < self.width,
                    y < self.height,
            {
                assert(y * self.width + x < y * self.width + self.width);
                assert((y + 1) * self.width <= self.height * self.width);
            }
        }
        y * self.width + x
    }

    /// Try the move `action` from `(x, y)`: the new position and whether the
    /// move collided with a wall or the border (then the position is unchanged).
    pub fn try_move(&self, x: usize, y: usize, action: u8) -> (r: (usize, usize, bool))
        requires
            self.well_formed(),
            x < self.width,
            y < self.height,
        ensures
            (r.0 as int, r.1 as int, r.2) == move_outcome(self.cells@, self.width as int, self.height as int, x as int, y as int, action as int),
    {
        let cell = self.cells[self.index(x, y)];
        let blocked = match action {
            0 => cell.n || y == 0,
            1 => cell.e || x + 1 >= self.width,
            2 => cell.s || y + 1 >= self.height,
            3 => cell.w || x == 0,
            _ => true,
        };
        if blocked {
            return (x, y, true);
        }
        match action {
            0 => (x, y - 1, false),
            1 => (x + 1, y, false),
            2 => (x, y + 1, false),
            _ => (x - 1, y, false),
        }
    }

    pub fn is_exit(&self, x: usize, y: usize) -> (r: bool)
        ensures
            r == (x == self.exit[0] && y == self.exit[1]),
    {
        x == self.exit[0] && y == self.exit[1]
    }

    /// The Manhattan distance from `(x, y)` to the exit.
    pub fn manhattan(&self, x: usize, y: usize) -> (r: i32)
        requires
            x <= i32::MAX,
            y <= i32::MAX,
            self.exit[0] <= i32::MAX,
            self.exit[1] <= i32::MAX,
            abs_int(self.exit[0] - x) + abs_int(self.exit[1] - y) <= i32::MAX,
        ensures
            r == abs_int(self.exit[0] - x) + abs_int(self.exit[1] - y),
    {
        let dx = self.exit[0] as i32 - x as i32;
        let dy = self.exit[1] as i32 - y as i32;
        let ax = if dx < 0 { -dx } else { dx };
        let ay = if dy < 0 { -dy } else { dy };
        ax + ay
    }

    /// The visit count of `(x, y)` in a row-major count per cell.
    pub fn visit(&self, visits: &[u32], x: usize, y: usize) -> (r: u32)
        requires
            cell_index(self.width as int, x as int, y as int) < visits@.len(),
        ensures
            r == visits@[cell_index(self.width as int, x as int, y as int)],
    {
        let len = visits.len();
        proof {
            assert(0 <= y * self.width) by (nonlinear_arith);
            assert(y * self.width + x < len);
        }
        let row = y * self.width;
        visits[row + x]
    }
}

/// In a maze whose walls agree on both sides, a move that does not collide
/// can be undone by the opposite move.
pub proof fn lemma_move_undo(maze: Maze, x: int, y: int, a: int)
    requires
        maze.well_formed(),
        walls_consistent(maze.cells@, maze.width as int, maze.height as int),
        0 <= x < maze.width,
        0 <= y < maze.height,
        0 <= a < 4,
        !move_outcome(maze.cells@, maze.width as int, maze.height as int, x, y, a).2,
    ensures
        ({
            let o = move_outcome(maze.cells@, maze.width as int, maze.height as int, x, y, a);
            &&& 0 <= o.0 < maze.width
            &&& 0 <= o.1 < maze.height
            &&& move_outcome(maze.cells@, maze.width as int, maze.height as int, o.0, o.1, opposite(a)) == (x, y, false)
        }),
{
    let w = maze.width as int;
    let h = maze.height as int;
    let cells = maze.cells@;
    let i = cell_index(w, x, y);
    assert(0 <= i < w * h) by (nonlinear_arith)
        requires
            i == y * w + x,
            0 <= x < w,
            0 <= y < h,
    {
        assert(y * w + x < y * w + w);
        assert((y + 1) * w <= h * w);
    }
    lemma_fundamental_div_mod_converse(i, w, y, x);
    let o = move_target(x, y, a);
    let j = cell_index(w, o.0, o.1);
    if a == 0 {
        assert(j == i - w) by (nonlinear_arith)
            requires
                j == (y - 1) * w + x,
                i == y * w + x,
        ;
    } else if a == 2 {
        assert(j == i + w) by (nonlinear_arith)
            requires
                j == (y + 1) * w + x,
                i == y * w + x,
        ;
    }
    assert(grid_neighbor(w, h, i, a) == Some(j));
    assert(cells[i].side(a) == cells[j].side(opposite(a)));
    lemma_grid_neighbor_inverse(w, h, i, a);
    assert(0 <= j < w * h);
    lemma_fundamental_div_mod_converse(j, w, o.1, o.0);
}

/// How much of its surroundings a maze request describes.
#[derive(Debug, Clone, Copy, PartialEq, Eq, Structural)]
pub enum MazeContext {
    Features,
    Minimal,
}

/// The context that a name selects, ignoring ASCII case.
pub open spec fn context_named(name: Seq<char>) -> Option<MazeContext> {
    let l = lower(name);
    if l == "features"@ || l == "feature"@ {
        Some(MazeContext::Features)
    } else if l == "minimal"@ || l == "bare"@ {
        Some(MazeContext::Minimal)
    } else {
        None
    }
}

impl MazeContext {
    pub fn parse(value: &str) -> (r: Result<Self, String>)
        ensures
            match context_named(value@) {
                Some(c) => r == Ok::<MazeContext, String>(c),
                None => r is Err && r->Err_0@ == "unknown maze context '"@ + lower(value@) + "' (use features|minimal)"@,
            },
    {
        let folded = ascii_lowercase(value);
        let l = folded.as_str();
        if same_text(l, "features") || same_text(l, "feature") {
            Ok(MazeContext::Features)
        } else if same_text(l, "minimal") || same_text(l, "bare") {
            Ok(MazeContext::Minimal)
        } else {
            Err(join3("unknown maze context '", l, "' (use features|minimal)"))
        }
    }

    pub fn as_str(self) -> (r: &'static str)
        ensures
            r@ == (match self {
                MazeContext::Features => "features"@,
                MazeContext::Minimal => "minimal"@,
            }),
    {
        match self {
            MazeContext::Features => "features",
            MazeContext::Minimal => "minimal",
        }
    }
}

/// The name of a cell with `open_count` open neighbors.
pub open spec fn situation_label(open_count: usize) -> Seq<char> {
    if open_count == 0 {
        "trapped"@
    } else if open_count == 1 {
        "dead_end"@
    } else if open_count == 2 {
        "corridor"@
    } else {
        "junction"@
    }
}

pub fn situation_name(open_count: usize) -> (r: &'static str)
    ensures
        r@ == situation_label(open_count),
{
    match open_count {
        0 => "trapped",
        1 => "dead_end",
        2 => "corridor",
        _ => "junction",
    }
}

/// Whether a step of a walk was a decision or only a pause of the pacer.
#[derive(Debug, Clone, Copy, PartialEq, Eq, Structural)]
pub enum StepKind {
    Decision,
    PaceGap,
}

/// One step of a walk through a maze.
#[derive(Debug, Clone)]
pub struct MazeStep {
    pub x: usize,
    pub y: usize,
    pub action: String,
    pub collision: bool,
    pub latency_ns: u64,
    pub throttle_ns: u64,
    pub kind: StepKind,
}

/// Why a walk stopped.
#[derive(Debug, Clone, Copy, PartialEq, Eq, Structural)]
pub enum StopReason {
    Unspecified,
    Exit,
    MaxSteps,
    MaxRuntime,
    Interrupted,
}

impl StopReason {
    pub fn as_str(self) -> (r: &'static str)
        ensures
            r@ == (match self {
                StopReason::Unspecified => "unspecified"@,
                StopReason::Exit => "exit"@,
                StopReason::MaxSteps => "max_steps"@,
                StopReason::MaxRuntime => "max_runtime"@,
                StopReason::Interrupted => "interrupted"@,
            }),
    {
        match self {
            StopReason::Unspecified => "unspecified",
            StopReason::Exit => "exit",
            StopReason::MaxSteps => "max_steps",
            StopReason::MaxRuntime => "max_runtime",
            StopReason::Interrupted => "interrupted",
        }
    }

    /// A stop that ends the whole invocation, not only the current target.
    pub fn aborts_remaining_targets(self) -> (r: bool)
        ensures
            r == (self == StopReason::MaxRuntime || self == StopReason::Interrupted),
    {
        match self {
            StopReason::MaxRuntime | StopReason::Interrupted => true,
            _ => false,
        }
    }
}

/// The steps of one walk and how it ended.
#[derive(Debug, Clone)]
pub struct MazeTrajectory {
    pub steps: Vec<MazeStep>,
    pub success: bool,
    pub exit_step: Option<usize>,
    pub stop_reason: StopReason,
}

/// The hard cap that a walk has hit: an interrupt first, then the runtime limit.
pub open spec fn cap_of(cancelled: bool, deadline_reached: bool) -> Option<StopReason> {
    if cancelled {
        Some(StopReason::Interrupted)
    } else if deadline_reached {
        Some(StopReason::MaxRuntime)
    } else {
        None
    }
}

pub fn cap_reason(cancelled: bool, deadline_reached: bool) -> (r: Option<StopReason>)
    ensures
        r == cap_of(cancelled, deadline_reached),
{
    if cancelled {
        Some(StopReason::Interrupted)
    } else if deadline_reached {
        Some(StopReason::MaxRuntime)
    } else {
        None
    }
}

/// The hard cap that a walk has hit at clock reading `now_ns` (in
/// nanoseconds, as the deadline): an interrupt wins over the deadline, and
/// a reading at or past the deadline has reached it.
pub fn maze_cap_hit(cancelled: bool, now_ns: u64, deadline_ns: u64) -> (r: Option<StopReason>)
    ensures
        r == cap_of(cancelled, now_ns >= deadline_ns),
{
    cap_reason(cancelled, now_ns >= deadline_ns)
}

/// The move that a choice label names; 255 without a label.
pub fn decode_move(label: Option<&str>) -> (r: u8)
    ensures
        r == (match label {
            Some(l) => choice_action(l@),
            None => 255u8,
        }),
{
    match label {
        Some(l) => action_from_choice(l),
        None => 255,
    }
}

/// The step that results from trying `action` at `(x, y)`.
pub fn apply_choice(maze: &Maze, x: usize, y: usize, action: u8, latency_ns: u64, throttle_ns: u64) -> (r: MazeStep)
    requires
        maze.well_formed(),
        x < maze.width,
        y < maze.height,
    ensures
        (r.x as int, r.y as int, r.collision) == move_outcome(maze.cells@, maze.width as int, maze.height as int, x as int, y as int, action as int),
        r.action@ == action_label(action),
        r.latency_ns == latency_ns,
        r.throttle_ns == throttle_ns,
        r.kind == StepKind::Decision,
{
    let (nx, ny, collision) = maze.try_move(x, y, action);
    MazeStep {
        x: nx,
        y: ny,
        action: owned(action_name(action)),
        collision,
        latency_ns,
        throttle_ns,
        kind: StepKind::Decision,
    }
}

/// A pause of the pacer recorded in place of a decision.
pub fn pace_gap_step(x: usize, y: usize, throttle_ns: u64) -> (r: MazeStep)
    ensures
        r.x == x,
        r.y == y,
        r.action@ == "PACE"@,
        !r.collision,
        r.latency_ns == 0,
        r.throttle_ns == throttle_ns,
        r.kind == StepKind::PaceGap,
{
    MazeStep {
        x,
        y,
        action: owned("PACE"),
        collision: false,
        latency_ns: 0,
        throttle_ns,
        kind: StepKind::PaceGap,
    }
}

} // verus!
