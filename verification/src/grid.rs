//! Row-major grids: neighbors, and counting over flags.
use vstd::prelude::*;
use vstd::arithmetic::div_mod::lemma_fundamental_div_mod_converse;
use vstd::arithmetic::div_mod::lemma_fundamental_div_mod;

verus! {

/// The direction that leads back.
pub open spec fn opposite(d: int) -> int {
    (d + 2) % 4
}

/// The cell reached from cell `i` in direction `d` (0 = up, 1 = right,
/// 2 = down, 3 = left) of a row-major `w`×`h` grid, if it exists.
pub open spec fn grid_neighbor(w: int, h: int, i: int, d: int) -> Option<int> {
    let x = i % w;
    let y = i / w;
    if d == 0 && y > 0 {
        Some(i - w)
    } else if d == 1 && x + 1 < w {
        Some(i + 1)
    } else if d == 2 && y + 1 < h {
        Some(i + w)
    } else if d == 3 && x > 0 {
        Some(i - 1)
    } else {
        None
    }
}

/// Stepping to a neighbor and back in the opposite direction returns to the start.
pub proof fn lemma_grid_neighbor_inverse(w: int, h: int, i: int, d: int)
    requires
        w >= 0,
        h >= 0,
        0 <= i < w * h,
        0 <= d < 4,
        grid_neighbor(w, h, i, d) is Some,
    ensures
        0 <= grid_neighbor(w, h, i, d).unwrap() < w * h,
        grid_neighbor(w, h, grid_neighbor(w, h, i, d).unwrap(), opposite(d)) == Some(i),
{
    assert(w > 0 && h > 0) by (nonlinear_arith)
        requires
            w >= 0,
            h >= 0,
            0 <= i < w * h,
    ;
    let x = i % w;
    let y = i / w;
    lemma_fundamental_div_mod(i, w);
    assert(0 <= x < w) by {
        vstd::arithmetic::div_mod::lemma_mod_bound(i, w);
    }
    assert(0 <= y < h) by {
        vstd::arithmetic::div_mod::lemma_div_pos_is_pos(i, w);
        assert(y < h) by (nonlinear_arith)
            requires
                i == w * y + x,
                0 <= x < w,
                i < w * h,
                w > 0,
                y >= 0,
        ;
    }
    let j = grid_neighbor(w, h, i, d).unwrap();
    if d == 0 {
        assert(j == (y - 1) * w + x) by (nonlinear_arith)
            requires
                j == i - w,
                i == w * y + x,
        ;
        lemma_fundamental_div_mod_converse(j, w, y - 1, x);
        assert(j + w == i);
        assert(0 <= j < w * h) by (nonlinear_arith)
            requires
                j == (y - 1) * w + x,
                0 <= x < w,
                1 <= y < h,
        ;
    } else if d == 1 {
        assert(j == y * w + (x + 1)) by (nonlinear_arith)
            requires
                j == i + 1,
                i == w * y + x,
        ;
        lemma_fundamental_div_mod_converse(j, w, y, x + 1);
        assert(0 <= j < w * h) by (nonlinear_arith)
            requires
                j == y * w + (x + 1),
                0 <= x + 1 < w,
                0 <= y < h,
        ;
    } else if d == 2 {
        assert(j == (y + 1) * w + x) by (nonlinear_arith)
            requires
                j == i + w,
                i == w * y + x,
        ;
        lemma_fundamental_div_mod_converse(j, w, y + 1, x);
        assert(0 <= j < w * h) by (nonlinear_arith)
            requires
                j == (y + 1) * w + x,
                0 <= x < w,
                0 <= y + 1 < h,
        ;
    } else {
        assert(j == y * w + (x - 1)) by (nonlinear_arith)
            requires
                j == i - 1,
                i == w * y + x,
        ;
        lemma_fundamental_div_mod_converse(j, w, y, x - 1);
        assert(0 <= j < w * h) by (nonlinear_arith)
            requires
                j == y * w + (x - 1),
                1 <= x < w,
                0 <= y < h,
        ;
    }
}

/// The number of `true` entries.
pub open spec fn count_true(s: Seq<bool>) -> nat
    decreases s.len(),
{
    if s.len() == 0 {
        0
    } else {
        count_true(s.drop_last()) + if s.last() {
            1nat
        } else {
            0nat
        }
    }
}

pub proof fn lemma_count_true_bound(s: Seq<bool>)
    ensures
        count_true(s) <= s.len(),
    decreases s.len(),
{
    if s.len() > 0 {
        lemma_count_true_bound(s.drop_last());
    }
}

pub proof fn lemma_count_true_set(s: Seq<bool>, i: int)
    requires
        0 <= i < s.len(),
        !s[i],
    ensures
        count_true(s.update(i, true)) == count_true(s) + 1,
    decreases s.len(),
{
    let t = s.update(i, true);
    if i == s.len() - 1 {
        assert(t.drop_last() =~= s.drop_last());
    } else {
        lemma_count_true_set(s.drop_last(), i);
        assert(t.drop_last() =~= s.drop_last().update(i, true));
    }
}

pub proof fn lemma_count_true_set_same(s: Seq<bool>, i: int)
    requires
        0 <= i < s.len(),
        s[i],
    ensures
        s.update(i, true) =~= s,
{
}

pub proof fn lemma_count_none(s: Seq<bool>)
    requires
        forall|i: int| 0 <= i < s.len() ==> !#[trigger] s[i],
    ensures
        count_true(s) == 0,
    decreases s.len(),
{
    if s.len() > 0 {
        lemma_count_none(s.drop_last());
    }
}

/// The order in which nearby cells are listed around cell `(x, y)` of a grid
/// `w` wide: the cell itself first, then by Manhattan distance, then by index.
pub open spec fn near_key(w: int, x: int, y: int, j: int) -> (int, int, int) {
    let dx = if j % w >= x { j % w - x } else { x - j % w };
    let dy = if j / w >= y { j / w - y } else { y - j / w };
    (if j == y * w + x { 0 } else { 1 }, dx + dy, j)
}

/// Lexicographic order of keys.
pub open spec fn key_before(a: (int, int, int), b: (int, int, int)) -> bool {
    a.0 < b.0 || (a.0 == b.0 && (a.1 < b.1 || (a.1 == b.1 && a.2 < b.2)))
}

/// `r` lists the `flags` cells nearest to `(x, y)` in key order, as many as
/// `limit` allows: the selected cells come before every cell left out.
pub open spec fn nearest_listing(flags: Seq<bool>, w: int, x: int, y: int, limit: int, r: Seq<usize>) -> bool {
    &&& r.len() <= limit
    &&& forall|k: int| 0 <= k < r.len() ==> #[trigger] r[k] < flags.len() && flags[r[k] as int]
    &&& forall|a: int, b: int| 0 <= a < b < r.len() ==> key_before(near_key(w, x, y, r[a] as int), near_key(w, x, y, r[b] as int))
    &&& forall|j: int| 0 <= j < flags.len() && #[trigger] flags[j] && !r.contains(j as usize) ==> {
        &&& r.len() == limit
        &&& forall|k: int| 0 <= k < r.len() ==> key_before(near_key(w, x, y, #[trigger] r[k] as int), near_key(w, x, y, j))
    }
}

fn key_of(w: usize, h: usize, x: usize, y: usize, j: usize) -> (r: (u8, usize, usize))
    requires
        0 < w,
        w * h <= usize::MAX,
        x < w,
        y < h,
        j < w * h,
    ensures
        (r.0 as int, r.1 as int, r.2 as int) == near_key(w as int, x as int, y as int, j as int),
{
    let jx = j % w;
    let jy = j / w;
    proof {
        lemma_fundamental_div_mod(j as int, w as int);
        assert(jy < h) by (nonlinear_arith)
            requires
                j == w * jy + jx,
                j < w * h,
                0 <= jx,
        ;
        assert((w - 1) + (h - 1) <= w * h) by (nonlinear_arith)
            requires
                w >= 1,
                h >= 1,
        ;
    }
    let dx = if jx >= x { jx - x } else { x - jx };
    let dy = if jy >= y { jy - y } else { y - jy };
    proof {
        assert(y * w + x < w * h) by (nonlinear_arith)
            requires
                x < w,
                y < h,
        {
            assert((y + 1) * w <= h * w);
        }
    }
    let here = y * w + x;
    (if j == here { 0 } else { 1 }, dx + dy, j)
}

proof fn lemma_key_order(a: (int, int, int), b: (int, int, int), c: (int, int, int))
    ensures
        key_before(a, b) && key_before(b, c) ==> key_before(a, c),
        a.2 != b.2 ==> key_before(a, b) || key_before(b, a),
        !(key_before(a, b) && key_before(b, a)),
        !key_before(a, a),
{
}

/// `k` comes after `last`, or there is no `last`.
spec fn after_key(last: Option<(u8, usize, usize)>, k: (int, int, int)) -> bool {
    match last {
        None => true,
        Some(l) => key_before((l.0 as int, l.1 as int, l.2 as int), k),
    }
}

/// The best candidate so far is `c` or comes before it.
spec fn best_covers(best: Option<(usize, (u8, usize, usize))>, w: int, x: int, y: int, c: int) -> bool {
    match best {
        None => false,
        Some(b) => b.0 == c || key_before(near_key(w, x, y, b.0 as int), near_key(w, x, y, c)),
    }
}

fn key_less(a: (u8, usize, usize), b: (u8, usize, usize)) -> (r: bool)
    ensures
        r == key_before((a.0 as int, a.1 as int, a.2 as int), (b.0 as int, b.1 as int, b.2 as int)),
{
    a.0 < b.0 || (a.0 == b.0 && (a.1 < b.1 || (a.1 == b.1 && a.2 < b.2)))
}

/// The flagged cells nearest to `(x, y)`, at most `limit` of them, in key order.
pub fn nearest_flagged(flags: &Vec<bool>, w: usize, h: usize, x: usize, y: usize, limit: usize) -> (r: Vec<usize>)
    requires
        w * h <= usize::MAX,
        flags@.len() == w * h,
        x < w,
        y < h,
    ensures
        nearest_listing(flags@, w as int, x as int, y as int, limit as int, r@),
{
    proof {
        assert(y * w + x < w * h) by (nonlinear_arith)
            requires
                x < w,
                y < h,
        {
            assert((y + 1) * w <= h * w);
        }
    }
    let n = flags.len();
    let ghost wi = w as int;
    let ghost xi = x as int;
    let ghost yi = y as int;
    let mut r: Vec<usize> = Vec::new();
    let mut last: Option<(u8, usize, usize)> = None;
    let mut done = false;
    while r.len() < limit && !done
        invariant
            w * h <= usize::MAX,
            n == w * h,
            flags@.len() == n,
            x < w,
            y < h,
            wi == w,
            xi == x,
            yi == y,
            r@.len() <= limit,
            forall|k: int| 0 <= k < r@.len() ==> #[trigger] r@[k] < n && flags@[r@[k] as int],
            forall|a: int, b: int| 0 <= a < b < r@.len() ==> key_before(near_key(wi, xi, yi, r@[a] as int), near_key(wi, xi, yi, r@[b] as int)),
            last is None <==> r@.len() == 0,
            last matches Some(l) ==> (l.0 as int, l.1 as int, l.2 as int) == near_key(wi, xi, yi, r@.last() as int),
            forall|j: int| 0 <= j < n && #[trigger] flags@[j] && !r@.contains(j as usize) ==> forall|k: int| 0 <= k < r@.len() ==> key_before(near_key(wi, xi, yi, #[trigger] r@[k] as int), near_key(wi, xi, yi, j)),
            done ==> forall|j: int| 0 <= j < n && #[trigger] flags@[j] ==> r@.contains(j as usize),
        decreases limit - r@.len(), if done { 0int } else { 1int },
    {
        let mut best: Option<(usize, (u8, usize, usize))> = None;
        let mut j: usize = 0;
        while j < n
            invariant
                w * h <= usize::MAX,
                n == w * h,
                flags@.len() == n,
                x < w,
                y < h,
                wi == w,
                xi == x,
                yi == y,
                j <= n,
                last is None <==> r@.len() == 0,
                last matches Some(l) ==> (l.0 as int, l.1 as int, l.2 as int) == near_key(wi, xi, yi, r@.last() as int),
                best matches Some(b) ==> {
                    &&& b.0 < j
                    &&& flags@[b.0 as int]
                    &&& (b.1.0 as int, b.1.1 as int, b.1.2 as int) == near_key(wi, xi, yi, b.0 as int)
                    &&& after_key(last, near_key(wi, xi, yi, b.0 as int))
                },
                forall|c: int| 0 <= c < j && #[trigger] flags@[c] && after_key(last, near_key(wi, xi, yi, c))
                    ==> best_covers(best, wi, xi, yi, c),
            decreases n - j,
        {
            proof {
                assert forall|a: (int, int, int), b: (int, int, int), c: (int, int, int)| #![trigger key_before(a, b), key_before(b, c)]
                    key_before(a, b) && key_before(b, c) implies key_before(a, c) by {
                    lemma_key_order(a, b, c);
                }
            }
            if flags[j] {
                let kj = key_of(w, h, x, y, j);
                proof {
                    if let Some(b) = best {
                        lemma_key_order(near_key(wi, xi, yi, b.0 as int), near_key(wi, xi, yi, j as int), near_key(wi, xi, yi, j as int));
                    }
                }
                let after_last = match last {
                    None => true,
                    Some(l) => key_less(l, kj),
                };
                if after_last {
                    let better = match best {
                        None => true,
                        Some(b) => key_less(kj, b.1),
                    };
                    if better {
                        best = Some((j, kj));
                    }
                }
            }
            j = j + 1;
        }
        match best {
            None => {
                proof {
                    assert forall|c: int| 0 <= c < n && #[trigger] flags@[c] implies r@.contains(c as usize) by {
                        if !r@.contains(c as usize) {
                            if r@.len() > 0 {
                                let k = r@.len() - 1;
                                assert(key_before(near_key(wi, xi, yi, r@[k] as int), near_key(wi, xi, yi, c)));
                            }
                        }
                    }
                }
                done = true;
            },
            Some(b) => {
                let ghost before = r@;
                proof {
                    assert(!before.contains(b.0)) by {
                        if before.contains(b.0) {
                            let k = choose|k: int| 0 <= k < before.len() && before[k] == b.0;
                            if k < before.len() - 1 {
                                assert(key_before(near_key(wi, xi, yi, before[k] as int), near_key(wi, xi, yi, before.last() as int)));
                            }
                        }
                    }
                }
                r.push(b.0);
                last = Some(b.1);
                proof {
                    assert forall|a: int, c: int| 0 <= a < c < r@.len() implies key_before(near_key(wi, xi, yi, r@[a] as int), near_key(wi, xi, yi, r@[c] as int)) by {
                        if c == r@.len() - 1 && a < c {
                            if a < before.len() - 1 {
                                assert(key_before(near_key(wi, xi, yi, before[a] as int), near_key(wi, xi, yi, before.last() as int)));
                            }
                        }
                    }
                    assert forall|c: int| 0 <= c < n && #[trigger] flags@[c] && !r@.contains(c as usize) implies forall|k: int| 0 <= k < r@.len() ==> key_before(near_key(wi, xi, yi, #[trigger] r@[k] as int), near_key(wi, xi, yi, c)) by {
                        assert(!before.contains(c as usize)) by {
                            if before.contains(c as usize) {
                                let k = choose|k: int| 0 <= k < before.len() && before[k] == c as usize;
                                assert(r@[k] == c as usize);
                            }
                        }
                        if c as usize == b.0 {
                            assert(r@[before.len() as int] == b.0);
                        }
                        assert(c != b.0);
                        if before.len() > 0 {
                            assert(key_before(near_key(wi, xi, yi, before.last() as int), near_key(wi, xi, yi, c)));
                        }
                    }
                }
            },
        }
    }
    proof {
        assert forall|j: int| 0 <= j < flags@.len() && #[trigger] flags@[j] && !r@.contains(j as usize) implies r@.len() == limit as int by {}
    }
    r
}

} // verus!
