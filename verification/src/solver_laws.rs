//! Laws of the spatial memory's move list, stated from the solver's
//! observed walls, observations and departure counts.
use vstd::prelude::*;
use crate::grid::{lemma_grid_neighbor_inverse, opposite};
use crate::navigation::{lemma_observed_len, Navigation};

verus! {

/// One if the condition holds, else zero.
pub open spec fn one_if(b: bool) -> int {
    if b {
        1
    } else {
        0
    }
}

/// Direction `e` from cell `j` is known open and leads to an unobserved cell.
pub open spec fn open_to_unobserved(nav: Navigation, j: int, e: int) -> bool {
    nav.wall(j, e) == Some(false) && nav.nb(j, e) is Some && !nav.is_observed(nav.nb(j, e).unwrap())
}

/// A listed move counts the walks over its edge from both ends: the
/// departures from the current cell in its direction plus the departures
/// from the neighbor back the other way, capped at `u32::MAX`.
pub proof fn lemma_listed_traversals_count_both_ends(nav: Navigation, i: int, field: Option<Seq<usize>>, k: int, m: int)
    requires
        0 <= k <= 4,
        0 <= m < nav.move_summaries(i, field, k).len(),
    ensures
        ({
            let mv = nav.move_summaries(i, field, k)[m];
            let d = mv.direction as int;
            let sum = nav.departures(i, d) as int + nav.departures(nav.nb(i, d).unwrap(), opposite(d)) as int;
            &&& 0 <= d < k
            &&& nav.nb(i, d) is Some
            &&& nav.wall(i, d) == Some(false)
            &&& mv.edge_traversals as int == (if sum > u32::MAX { u32::MAX as int } else { sum })
        }),
    decreases k,
{
    let rest = nav.move_summaries(i, field, k - 1);
    if m < rest.len() {
        lemma_listed_traversals_count_both_ends(nav, i, field, k - 1, m);
    }
}

/// A listed move to an explored cell tells how many known-open exits of
/// that cell lead to unobserved cells; a move to an unexplored cell tells
/// none.
pub proof fn lemma_listed_unexplored_exits(nav: Navigation, i: int, field: Option<Seq<usize>>, k: int, m: int)
    requires
        0 <= k <= 4,
        0 <= m < nav.move_summaries(i, field, k).len(),
    ensures
        ({
            let mv = nav.move_summaries(i, field, k)[m];
            let d = mv.direction as int;
            let j = nav.nb(i, d).unwrap();
            let count = one_if(open_to_unobserved(nav, j, 0)) + one_if(open_to_unobserved(nav, j, 1))
                + one_if(open_to_unobserved(nav, j, 2)) + one_if(open_to_unobserved(nav, j, 3));
            &&& nav.nb(i, d) is Some
            &&& mv.explored == nav.is_observed(j)
            &&& mv.explored ==> (mv.unexplored_exits matches Some(c) && c as int == count)
            &&& !mv.explored ==> mv.unexplored_exits is None
        }),
    decreases k,
{
    let rest = nav.move_summaries(i, field, k - 1);
    if m < rest.len() {
        lemma_listed_unexplored_exits(nav, i, field, k - 1, m);
    } else {
        let d = k - 1;
        let j = nav.nb(i, d).unwrap();
        reveal_with_fuel(Navigation::count_dirs, 5);
        let p = |e: int| nav.wall(j, e) == Some(false) && nav.nb(j, e) is Some && !nav.is_observed(nav.nb(j, e).unwrap());
        assert(p(0) == open_to_unobserved(nav, j, 0));
        assert(p(1) == open_to_unobserved(nav, j, 1));
        assert(p(2) == open_to_unobserved(nav, j, 2));
        assert(p(3) == open_to_unobserved(nav, j, 3));
    }
}


/// A listed move describes the neighbor it leads to: its position, whether
/// it was observed and how often it was visited, how often the walk left the
/// current cell that way, and with a flood field the neighbor's distance
/// (none where it is infinite) and whether it lies lower than the current
/// cell. The moves come in direction order.
pub proof fn lemma_listed_move_describes_its_neighbor(
    nav: Navigation,
    i: int,
    field: Option<Seq<usize>>,
    k: int,
    m: int,
)
    requires
        nav.wf(),
        0 <= i < nav.cells(),
        0 <= k <= 4,
        0 <= m < nav.move_summaries(i, field, k).len(),
    ensures
        ({
            let mv = nav.move_summaries(i, field, k)[m];
            let d = mv.direction as int;
            let j = nav.nb(i, d).unwrap();
            &&& nav.nb(i, d) is Some
            &&& mv.x as int == j % nav.width_spec()
            &&& mv.y as int == j / nav.width_spec()
            &&& mv.explored == nav.is_observed(j)
            &&& mv.visits == nav.visit_count(j)
            &&& mv.departures == nav.departures(i, d)
            &&& field is None ==> mv.distance_to_exit is None && mv.downhill is None
            &&& field matches Some(f) ==> {
                &&& mv.distance_to_exit == (if f[j] == usize::MAX { None } else { Some(f[j]) })
                &&& mv.downhill == Some(f[j] < f[i])
            }
            &&& forall|n: int| 0 <= n < m ==> (#[trigger] nav.move_summaries(i, field, k)[n]).direction < mv.direction
        }),
    decreases k,
{
    let rest = nav.move_summaries(i, field, k - 1);
    if m < rest.len() {
        lemma_listed_move_describes_its_neighbor(nav, i, field, k - 1, m);
        assert forall|n: int| 0 <= n <= m implies #[trigger] nav.move_summaries(i, field, k)[n] == rest[n] by {}
    } else {
        let d = k - 1;
        let w = nav.width_spec();
        let h = nav.height_spec();
        lemma_observed_len(nav);
        lemma_grid_neighbor_inverse(w, h, i, d);
        let j = nav.nb(i, d).unwrap();
        assert(0 <= j % w < w && 0 <= j / w <= j) by (nonlinear_arith)
            requires
                0 <= j < w * h,
                w > 0,
        {
            assert(j / w <= j / 1) by (nonlinear_arith) requires w >= 1, j >= 0 {
                vstd::arithmetic::div_mod::lemma_div_is_ordered_by_denominator(j, 1, w);
            }
        }
        assert(j < usize::MAX);
        assert forall|n: int| 0 <= n < m implies (#[trigger] nav.move_summaries(i, field, k)[n]).direction < k - 1 by {
            lemma_listed_traversals_count_both_ends(nav, i, field, k - 1, n);
        }
    }
}

} // verus!
