//! Island generation: the outline of the island, its largest piece, the
//! start spots and the first trees.
use crate::cuts::{
    lemma_flood_exact, lemma_scan_new, lemma_scan_seen, or_masks, piece_root, seen_ok,
};
use crate::game::{lex_lt, sorted_hexes, Game};
use crate::hexgrid::{
    adjacent, grid_neighbours, in_grid, lemma_ix_inj, ix, lemma_ix_bounds, lemma_nbrs, lemma_point_of, mask_set, nbrs,
    point_of, reachable,
};
use crate::hexgrid::{hex_dist, hex_dist_fits, hex_dist_spec};
use crate::rules::{land_hex, sea_hex, Hex, Tree};
use crate::rng::chance_above;
use crate::rng::chance_below;
use crate::text::owned;
use crate::rng::{fine_fraction, FINE};
use crate::territory::{blank_mask, board_ok, cell, flood, mask_to_hexes};
use vstd::prelude::*;

verus! {

/// Forty times a half-axis of the island's outline, in fine fractions: for
/// a side of `side` hexes and a draw of fraction `f / FINE`, the half-axis
/// is `side / 2 - 0.425 - f / (8 FINE)` hexes.
pub open spec fn radius40(side: int, f: int) -> int {
    (20 * side - 17) * FINE - 5 * f
}

/// The outline's ellipse sum at `(x, y)`: with half-axes `a` and `b` (as
/// `radius40`) and offsets `p`, `q` from the centre (in half hexes), the
/// point lies at normalised distance `400 FINE² (p² b² + q² a²) / (a² b²)`.
pub open spec fn ellipse_sum(cols: int, rows: int, fa: int, fb: int, x: int, y: int) -> int {
    let a = radius40(cols, fa);
    let b = radius40(rows, fb);
    let p = 2 * x - cols + 1;
    let q = 2 * y - rows + 1;
    p * p * (b * b) + q * q * (a * a)
}

/// Whether `(x, y)` is land of an outline drawn with fractions `fa`, `fb`
/// and the hex's own draw `g` (all over `FINE`): for an atoll the
/// normalised distance lies between `0.40 + 0.25 g` and `1.05`; otherwise
/// it stays below `1 - 0.45 g`. The comparison is exact for these 17-bit
/// fractions, which approximate the full draws (see `Game::try_land`).
pub open spec fn land_test(atoll: bool, cols: int, rows: int, fa: int, fb: int, x: int, y: int, g: int) -> bool {
    let d = FINE as int;
    let a = radius40(cols, fa);
    let b = radius40(rows, fb);
    let s = ellipse_sum(cols, rows, fa, fb, x, y);
    let ab = (a * a) * (b * b);
    if atoll {
        (8 * d + 5 * g) * ab < 8000 * d * d * d * s && 8000 * d * d * s < 21 * ab
    } else {
        8000 * d * d * d * s < (20 * d - 9 * g) * ab
    }
}

/// The middle hex of an outline that is no atoll is always land.
proof fn lemma_centre_land(cols: int, rows: int, fa: int, fb: int, g: int)
    requires
        gen_side_ok(cols),
        gen_side_ok(rows),
        0 <= fa < FINE,
        0 <= fb < FINE,
        0 <= g < FINE,
    ensures
        land_test(false, cols, rows, fa, fb, (cols - 1) / 2, (rows - 1) / 2, g),
{
    let d = FINE as int;
    let a = radius40(cols, fa);
    let b = radius40(rows, fb);
    let x = (cols - 1) / 2;
    let y = (rows - 1) / 2;
    let p = 2 * x - cols + 1;
    let q = 2 * y - rows + 1;
    assert(-1 <= p <= 0 && -1 <= q <= 0);
    assert(a >= 58 * d && b >= 58 * d);
    let aa = a * a;
    let bb = b * b;
    assert(0 <= p * p <= 1 && 0 <= q * q <= 1) by (nonlinear_arith)
        requires
            -1 <= p <= 0,
            -1 <= q <= 0,
    ;
    assert(aa >= 3364 * d * d && bb >= 3364 * d * d) by (nonlinear_arith)
        requires
            a >= 58 * d,
            b >= 58 * d,
            d > 0,
            aa == a * a,
            bb == b * b,
    ;
    let s = ellipse_sum(cols, rows, fa, fb, x, y);
    assert(s == p * p * bb + q * q * aa);
    assert(s <= aa + bb) by (nonlinear_arith)
        requires
            s == p * p * bb + q * q * aa,
            0 <= p * p <= 1,
            0 <= q * q <= 1,
            aa >= 0,
            bb >= 0,
    ;
    assert(8000 * d * d * (aa + bb) < 11 * (aa * bb)) by (nonlinear_arith)
        requires
            aa >= 3364 * d * d,
            bb >= 3364 * d * d,
            d > 0,
    ;
    assert(8000 * d * d * d * s < (20 * d - 9 * g) * (aa * bb)) by (nonlinear_arith)
        requires
            8000 * d * d * (aa + bb) < 11 * (aa * bb),
            s <= aa + bb,
            0 <= s,
            0 <= g < d,
            d > 0,
            aa * bb > 0,
    ;
}

/// A mask with a marked entry counts at least one.
proof fn lemma_count_pos(m: Seq<bool>, i: int)
    requires
        0 <= i < m.len(),
        m[i],
    ensures
        count_true(m) > 0,
    decreases m.len(),
{
    if i < m.len() - 1 {
        lemma_count_pos(m.drop_last(), i);
    }
}

/// The island drawn with fractions `fa`, `fb` and one draw per hex, in grid
/// order.
pub open spec fn island_spec(atoll: bool, cols: int, rows: int, fa: int, fb: int, gs: Seq<u64>) -> Seq<bool> {
    Seq::new(
        (cols * rows) as nat,
        |i: int|
            land_test(atoll, cols, rows, fa, fb, point_of(cols, i).0 as int, point_of(cols, i).1 as int, gs[i] as int),
    )
}

/// The archipelago kind names an atoll.
pub open spec fn is_atoll(arch: Seq<char>) -> bool {
    arch == "Atoll"@
}

/// Sides a generated island may have.
pub open spec fn gen_side_ok(side: int) -> bool {
    4 <= side <= 24
}

/// Whether `(x, y)` is land of the outline; exact integer arithmetic.
pub fn land_cell(atoll: bool, cols: i32, rows: i32, fa: u64, fb: u64, x: i32, y: i32, g: u64) -> (r: bool)
    requires
        gen_side_ok(cols as int),
        gen_side_ok(rows as int),
        0 <= x < cols,
        0 <= y < rows,
        fa < FINE,
        fb < FINE,
        g < FINE,
    ensures
        r == land_test(atoll, cols as int, rows as int, fa as int, fb as int, x as int, y as int, g as int),
{
    let d: u128 = 131072;
    let ghost di = 131072int;
    let ghost ai = radius40(cols as int, fa as int);
    let ghost bi = radius40(rows as int, fb as int);
    proof {
        assert(0 < ai <= 463 * di);
        assert(0 < bi <= 463 * di);
    }
    let a: u128 = ((20 * cols - 17) as u128) * d - 5 * (fa as u128);
    let b: u128 = ((20 * rows - 17) as u128) * d - 5 * (fb as u128);
    let p: i32 = 2 * x - cols + 1;
    let q: i32 = 2 * y - rows + 1;
    proof {
        assert(p * p <= 529 && q * q <= 529) by (nonlinear_arith)
            requires
                -23 <= p <= 23,
                -23 <= q <= 23,
        ;
        assert(0 <= p * p && 0 <= q * q) by (nonlinear_arith);
    }
    let pp: u128 = (p * p) as u128;
    let qq: u128 = (q * q) as u128;
    proof {
        assert(a * a <= (463 * di) * (463 * di)) by (nonlinear_arith)
            requires
                0 < a <= 463 * di,
        ;
        assert(b * b <= (463 * di) * (463 * di)) by (nonlinear_arith)
            requires
                0 < b <= 463 * di,
        ;
    }
    let aa: u128 = a * a;
    let bb: u128 = b * b;
    proof {
        let m = (463 * di) * (463 * di);
        assert(pp * bb <= 529 * m && qq * aa <= 529 * m) by (nonlinear_arith)
            requires
                pp <= 529,
                qq <= 529,
                bb <= m,
                aa <= m,
        ;
        assert(aa * bb <= m * m) by (nonlinear_arith)
            requires
                aa <= m,
                bb <= m,
        ;
    }
    let s: u128 = pp * bb + qq * aa;
    let ab: u128 = aa * bb;
    let d3: u128 = 8000 * d * d * d;
    let d2: u128 = 8000 * d * d;
    proof {
        let m = (463 * di) * (463 * di);
        assert(d3 * s <= d3 * (1058 * m)) by (nonlinear_arith)
            requires
                s <= 1058 * m,
        ;
        assert(d2 * s <= d2 * (1058 * m)) by (nonlinear_arith)
            requires
                s <= 1058 * m,
        ;
        assert((20 * d) * ab <= (20 * d) * (m * m)) by (nonlinear_arith)
            requires
                ab <= m * m,
        ;
        assert(21 * ab <= 21 * (m * m)) by (nonlinear_arith)
            requires
                ab <= m * m,
        ;
        assert(8000 * di * di * di * (1058 * m) <= u128::MAX);
        assert(8000 * di * di * (1058 * m) <= u128::MAX);
        assert(21 * (m * m) <= u128::MAX);
    }
    let gg: u128 = g as u128;
    proof {
        let m = (463 * di) * (463 * di);
        assert((20 * di) * (m * m) <= u128::MAX);
        assert((8 * d + 5 * gg) * ab <= (20 * d) * (m * m)) by (nonlinear_arith)
            requires
                0 <= 8 * d + 5 * gg <= 20 * d,
                0 <= ab <= m * m,
        ;
        assert((20 * d - 9 * gg) * ab <= (20 * d) * (m * m)) by (nonlinear_arith)
            requires
                0 <= 20 * d - 9 * gg <= 20 * d,
                0 <= ab <= m * m,
        ;
    }
    if atoll {
        let lo: u128 = (8 * d + 5 * gg) * ab;
        lo < d3 * s && d2 * s < 21 * ab
    } else {
        let hi: u128 = (20 * d - 9 * gg) * ab;
        proof {
            assert((20 * d - 9 * gg) * ab <= (20 * d) * ab) by (nonlinear_arith)
                requires
                    0 <= 9 * gg <= 20 * d,
                    0 <= ab,
            ;
        }
        d3 * s < hi
    }
}

/// The island outline for the given draws, one entry per hex in grid order.
pub fn island_mask(atoll: bool, cols: i32, rows: i32, fa: u64, fb: u64, gs: &Vec<u64>) -> (m: Vec<bool>)
    requires
        gen_side_ok(cols as int),
        gen_side_ok(rows as int),
        fa < FINE,
        fb < FINE,
        gs@.len() == cols * rows,
        forall|i: int| 0 <= i < gs@.len() ==> #[trigger] gs@[i] < FINE,
    ensures
        m@ == island_spec(atoll, cols as int, rows as int, fa as int, fb as int, gs@),
{
    let ghost c = cols as int;
    let ghost r = rows as int;
    let mut m: Vec<bool> = Vec::new();
    let mut y: i32 = 0;
    while y < rows
        invariant
            gen_side_ok(c),
            gen_side_ok(r),
            c == cols,
            r == rows,
            fa < FINE,
            fb < FINE,
            gs@.len() == c * r,
            forall|i: int| 0 <= i < gs@.len() ==> #[trigger] gs@[i] < FINE,
            0 <= y <= rows,
            m@.len() == y * c,
            forall|j: int|
                0 <= j < m@.len() ==> #[trigger] m@[j] == land_test(
                    atoll,
                    c,
                    r,
                    fa as int,
                    fb as int,
                    point_of(c, j).0 as int,
                    point_of(c, j).1 as int,
                    gs@[j] as int,
                ),
        decreases rows - y,
    {
        let mut x: i32 = 0;
        while x < cols
            invariant
                gen_side_ok(c),
                gen_side_ok(r),
                c == cols,
                r == rows,
                fa < FINE,
                fb < FINE,
                gs@.len() == c * r,
                forall|i: int| 0 <= i < gs@.len() ==> #[trigger] gs@[i] < FINE,
                0 <= y < rows,
                0 <= x <= cols,
                m@.len() == y * c + x,
                forall|j: int|
                    0 <= j < m@.len() ==> #[trigger] m@[j] == land_test(
                        atoll,
                        c,
                        r,
                        fa as int,
                        fb as int,
                        point_of(c, j).0 as int,
                        point_of(c, j).1 as int,
                        gs@[j] as int,
                    ),
            decreases cols - x,
        {
            let ghost j = y * c + x;
            proof {
                assert(0 <= j < c * r) by (nonlinear_arith)
                    requires
                        j == y * c + x,
                        0 <= y < r,
                        0 <= x < c,
                ;
                vstd::arithmetic::div_mod::lemma_fundamental_div_mod_converse(j, c, y as int, x as int);
                assert(0 <= y * c <= 24 * 24) by (nonlinear_arith)
                    requires
                        0 <= y < r,
                        r <= 24,
                        0 < c <= 24,
                ;
            }
            let i = (y * cols + x) as usize;
            let b = land_cell(atoll, cols, rows, fa, fb, x, y, gs[i]);
            m.push(b);
            x += 1;
        }
        proof {
            assert(m@.len() == (y + 1) * c) by (nonlinear_arith)
                requires
                    m@.len() == y * c + c,
            ;
        }
        y += 1;
    }
    proof {
        assert(m@.len() == c * r) by (nonlinear_arith)
            requires
                m@.len() == r * c,
        ;
        assert(m@ =~= island_spec(atoll, c, r, fa as int, fb as int, gs@));
    }
    m
}

impl Game {
    /// Draws an island outline: a fraction for each half-axis, then one
    /// draw per hex in grid order; an atoll when the archipelago kind is
    /// "Atoll".
    ///
    /// Each draw is cut to its top 17 bits (`fine_fraction`) before the
    /// outline test, so the test is an approximation of comparing the
    /// draw's full value: a draw that falls within 2^-17 of a threshold may
    /// land on the other side of it. The cut keeps every product of the
    /// exact integer test (`land_test`) within 128 bits; the full 64-bit
    /// draw would need products of about 360 bits.
    pub fn try_land(&mut self) -> (m: Vec<bool>)
        requires
            old(self).dims_ok(),
            gen_side_ok(old(self).cols as int),
            gen_side_ok(old(self).rows as int),
        ensures
            final(self).same_except_rng(old(self)),
            exists|fa: int, fb: int, gs: Seq<u64>|
                0 <= fa < FINE && 0 <= fb < FINE && gs.len() == old(self).cells() && (forall|i: int|
                    0 <= i < gs.len() ==> #[trigger] gs[i] < FINE) && m@ == #[trigger] island_spec(
                    is_atoll(old(self).arch@),
                    old(self).cols as int,
                    old(self).rows as int,
                    fa,
                    fb,
                    gs,
                ),
    {
        let ghost pre = *self;
        let atoll = crate::text::str_eq(self.arch.as_str(), "Atoll");
        let r1 = self.roll();
        let fa = fine_fraction(r1);
        let r2 = self.roll();
        let fb = fine_fraction(r2);
        proof {
            assert(0 < self.cols * self.rows <= 4096) by (nonlinear_arith)
                requires
                    self.dims_ok(),
            ;
        }
        let n = (self.cols * self.rows) as usize;
        let mut gs: Vec<u64> = Vec::new();
        let mut k: usize = 0;
        while k < n
            invariant
                self.same_except_rng(&pre),
                k <= n,
                gs@.len() == k,
                forall|i: int| 0 <= i < gs@.len() ==> #[trigger] gs@[i] < FINE,
            decreases n - k,
        {
            let r = self.roll();
            gs.push(fine_fraction(r));
            k += 1;
        }
        let m = island_mask(atoll, self.cols, self.rows, fa, fb, &gs);
        proof {
            assert(0 <= fa < FINE && 0 <= fb < FINE && gs@.len() == pre.cells() && (forall|i: int|
                0 <= i < gs@.len() ==> #[trigger] gs@[i] < FINE) && m@ == island_spec(
                is_atoll(pre.arch@),
                pre.cols as int,
                pre.rows as int,
                fa as int,
                fb as int,
                gs@,
            ));
        }
        m
    }
}

/// Marked entries of a mask.
pub open spec fn count_true(s: Seq<bool>) -> nat
    decreases s.len(),
{
    if s.len() == 0 {
        0
    } else {
        count_true(s.drop_last()) + if s.last() {
            1nat
        } else {
            0nat
        }
    }
}

/// The grid mask of the hexes reachable from `p` through `allowed`.
pub open spec fn reach_mask(c: int, r: int, allowed: Set<(i32, i32)>, p: (i32, i32)) -> Seq<bool> {
    Seq::new((c * r) as nat, |i: int| reachable(c, r, allowed, p, point_of(c, i)))
}

/// The mask marks one piece of some land: the hexes reachable from one
/// hex, or nothing at all.
pub open spec fn one_piece(c: int, r: int, m: Seq<bool>) -> bool {
    ||| exists|s: Set<(i32, i32)>, p: (i32, i32)| m == #[trigger] reach_mask(c, r, s, p)
    ||| forall|i: int| 0 <= i < m.len() ==> !#[trigger] m[i]
}

/// The land of a board as a grid-shaped mask: marked where the hex is not
/// water.
pub open spec fn land_mask(g: &Game) -> Seq<bool> {
    Seq::new(g.grid@.len(), |i: int| !g.grid@[i].water)
}

/// Number of hexes in the piece of `allowed` holding `p`.
pub open spec fn piece_size(c: int, r: int, allowed: Set<(i32, i32)>, p: (i32, i32)) -> nat {
    count_true(reach_mask(c, r, allowed, p))
}

/// `p` is the first hex of a largest piece of `land`, and of the last such
/// piece in (column, row) order of first hexes.
pub open spec fn is_biggest_root(c: int, r: int, land: Set<(i32, i32)>, p: (i32, i32)) -> bool {
    &&& piece_root(c, r, land, p)
    &&& forall|q: (i32, i32)|
        #[trigger] piece_root(c, r, land, q) ==> piece_size(c, r, land, q) <= piece_size(c, r, land, p) && (
        piece_size(c, r, land, q) == piece_size(c, r, land, p) ==> !lex_lt(p, q))
}

/// Number of marked entries of a mask.
pub fn count_marks(m: &Vec<bool>) -> (n: usize)
    ensures
        n == count_true(m@),
        n <= m@.len(),
{
    let mut n: usize = 0;
    let mut i: usize = 0;
    while i < m.len()
        invariant
            i <= m@.len(),
            n <= i,
            n == count_true(m@.take(i as int)),
        decreases m@.len() - i,
    {
        proof {
            assert(m@.take(i + 1).drop_last() =~= m@.take(i as int));
        }
        if m[i] {
            n += 1;
        }
        i += 1;
    }
    proof {
        assert(m@.take(m@.len() as int) =~= m@);
    }
    n
}

/// The best piece found so far while scanning the first `k` hexes of `hs`.
pub open spec fn best_ok(
    c: int,
    r: int,
    land: Set<(i32, i32)>,
    hs: Seq<(i32, i32)>,
    k: int,
    best: Option<(i32, i32)>,
    mask: Seq<bool>,
    size: int,
) -> bool {
    match best {
        None => forall|j: int| 0 <= j < k ==> !#[trigger] piece_root(c, r, land, hs[j]),
        Some(b) => {
            &&& piece_root(c, r, land, b)
            &&& mask == reach_mask(c, r, land, b)
            &&& size == piece_size(c, r, land, b)
            &&& forall|j: int|
                0 <= j < k && #[trigger] piece_root(c, r, land, hs[j]) ==> piece_size(c, r, land, hs[j]) <= size && (
                piece_size(c, r, land, hs[j]) == size ==> !lex_lt(b, hs[j]))
        },
    }
}

/// The largest piece of the marked land, the last in (column, row) order
/// of first hexes among the largest; nothing when there is no land.
pub fn biggest(cols: i32, rows: i32, land: &Vec<bool>) -> (m: Vec<bool>)
    requires
        board_ok(cols as int, rows as int),
        land@.len() == cols * rows,
    ensures
        m@.len() == cols * rows,
        match choose_biggest(cols as int, rows as int, mask_set(cols as int, rows as int, land@)) {
            Some(p) => m@ == reach_mask(cols as int, rows as int, mask_set(cols as int, rows as int, land@), p),
            None => forall|i: int| 0 <= i < m@.len() ==> !#[trigger] m@[i],
        },
        (exists|i: int| 0 <= i < land@.len() && #[trigger] land@[i]) ==> exists|i: int|
            0 <= i < m@.len() && #[trigger] m@[i],
{
    let ghost c = cols as int;
    let ghost r = rows as int;
    let ghost lset = mask_set(c, r, land@);
    proof {
        assert(0 < c * r <= 4096) by (nonlinear_arith)
            requires
                board_ok(c, r),
        ;
    }
    let n = (cols * rows) as usize;
    let hs = mask_to_hexes(cols, rows, land);
    proof {
        assert forall|q: (i32, i32)| #[trigger] lset.contains(q) implies hs@.contains(q) && in_grid(c, r, q) by {}
    }
    let mut seen = blank_mask(n);
    proof {
        assert forall|q: (i32, i32)| in_grid(c, r, q) implies (#[trigger] seen@[ix(c, q)] <==> exists|j: int|
            0 <= j < 0 && lset.contains(hs@[j]) && #[trigger] reachable(c, r, lset, hs@[j], q)) by {
            lemma_ix_bounds(c, r, q);
        }
    }
    let mut best: Vec<bool> = blank_mask(n);
    let mut best_size: usize = 0;
    let ghost mut best_root: Option<(i32, i32)> = None;
    let mut have_best = false;
    let mut k: usize = 0;
    while k < hs.len()
        invariant
            board_ok(c, r),
            c == cols,
            r == rows,
            n == c * r,
            lset == mask_set(c, r, land@),
            land@.len() == n,
            forall|q: (i32, i32)| #[trigger] lset.contains(q) ==> hs@.contains(q) && in_grid(c, r, q),
            forall|q: (i32, i32)| #[trigger] hs@.contains(q) ==> lset.contains(q),
            sorted_hexes(hs@),
            forall|j: int| 0 <= j < hs@.len() ==> in_grid(c, r, #[trigger] hs@[j]),
            k <= hs@.len(),
            seen@.len() == n,
            best@.len() == n,
            seen_ok(c, r, lset, hs@, k as int, seen@),
            best_ok(c, r, lset, hs@, k as int, best_root, best@, best_size as int),
            best_root is None ==> best_size == 0 && forall|i: int| 0 <= i < best@.len() ==> !#[trigger] best@[i],
            have_best == best_root is Some,
        decreases hs@.len() - k,
    {
        let p = hs[k];
        let ghost kk = k as int;
        proof {
            assert(hs@[kk] == p);
            assert(hs@.contains(p));
        }
        let ip = cell(cols, rows, p);
        if !seen[ip] {
            let comp = flood(cols, rows, land, p);
            proof {
                lemma_flood_exact(c, r, land@, comp@, p);
                assert forall|i: int| 0 <= i < n implies #[trigger] comp@[i] == reach_mask(c, r, lset, p)[i] by {
                    lemma_point_of(c, r, i);
                }
                assert(comp@ =~= reach_mask(c, r, lset, p));
            }
            let next = or_masks(&seen, &comp);
            proof {
                lemma_scan_new(c, r, lset, hs@, kk, seen@, comp@, next@);
            }
            seen = next;
            let size = count_marks(&comp);
            if !have_best || size >= best_size {
                proof {
                    assert forall|j: int|
                        0 <= j < kk + 1 && #[trigger] piece_root(c, r, lset, hs@[j]) implies piece_size(c, r, lset, hs@[j])
                            <= size && (piece_size(c, r, lset, hs@[j]) == size ==> !lex_lt(p, hs@[j])) by {
                        if j < kk {
                            assert(lex_lt(hs@[j], hs@[kk]));
                        }
                    }
                    best_root = Some(p);
                }
                best = comp;
                best_size = size;
                have_best = true;
            }
        } else {
            proof {
                lemma_scan_seen(c, r, lset, hs@, kk, seen@);
            }
        }
        k += 1;
    }
    proof {
        match best_root {
            Some(b) => {
                assert forall|q: (i32, i32)| #[trigger] piece_root(c, r, lset, q) implies piece_size(c, r, lset, q)
                    <= piece_size(c, r, lset, b) && (piece_size(c, r, lset, q) == piece_size(c, r, lset, b) ==> !lex_lt(b, q)) by {
                    let j = choose|j: int| 0 <= j < hs@.len() && hs@[j] == q;
                    assert(piece_root(c, r, lset, hs@[j]));
                }
                lemma_biggest_unique(c, r, lset, b);
                assert(lset.contains(b));
                lemma_ix_bounds(c, r, b);
                let w = seq![b];
                assert(crate::hexgrid::is_walk(c, r, lset, w));
                assert(reachable(c, r, lset, b, b));
                let ib = ix(c, b);
                lemma_point_of(c, r, ib);
                lemma_ix_inj(c, r, point_of(c, ib), b);
                assert(best@[ib]);
            },
            None => {
                assert forall|q: (i32, i32)| !#[trigger] piece_root(c, r, lset, q) by {
                    if piece_root(c, r, lset, q) {
                        let j = choose|j: int| 0 <= j < hs@.len() && hs@[j] == q;
                        assert(piece_root(c, r, lset, hs@[j]));
                    }
                }
                if exists|i: int| 0 <= i < land@.len() && #[trigger] land@[i] {
                    let i = choose|i: int| 0 <= i < land@.len() && #[trigger] land@[i];
                    lemma_point_of(c, r, i);
                    assert(lset.contains(point_of(c, i)));
                    assert(hs@.contains(point_of(c, i)));
                    let h0 = hs@[0];
                    assert(hs@.contains(h0));
                    assert forall|q: (i32, i32)|
                        lset.contains(q) && #[trigger] reachable(c, r, lset, q, h0) implies !lex_lt(q, h0) by {
                        assert(hs@.contains(q));
                        let j = choose|j: int| 0 <= j < hs@.len() && hs@[j] == q;
                        if j > 0 {
                            assert(lex_lt(hs@[0], hs@[j]));
                        }
                    }
                    assert(piece_root(c, r, lset, h0));
                }
            },
        }
    }
    best
}

/// The first hex of the largest piece of `land`, the last such in
/// (column, row) order; `None` when `land` has no piece.
pub open spec fn choose_biggest(c: int, r: int, land: Set<(i32, i32)>) -> Option<(i32, i32)> {
    if exists|p: (i32, i32)| is_biggest_root(c, r, land, p) {
        Some(choose|p: (i32, i32)| is_biggest_root(c, r, land, p))
    } else {
        None
    }
}

/// What `biggest` gives is one piece.
proof fn lemma_biggest_piece(c: int, r: int, land: Seq<bool>, m: Seq<bool>)
    requires
        match choose_biggest(c, r, mask_set(c, r, land)) {
            Some(p) => m == reach_mask(c, r, mask_set(c, r, land), p),
            None => forall|i: int| 0 <= i < m.len() ==> !#[trigger] m[i],
        },
    ensures
        one_piece(c, r, m),
{
    match choose_biggest(c, r, mask_set(c, r, land)) {
        Some(p) => {
            assert(m == reach_mask(c, r, mask_set(c, r, land), p));
        },
        None => {},
    }
}

/// Only one hex heads the last largest piece.
proof fn lemma_biggest_unique(c: int, r: int, land: Set<(i32, i32)>, b: (i32, i32))
    requires
        is_biggest_root(c, r, land, b),
    ensures
        choose_biggest(c, r, land) == Some(b),
{
    let p = choose|p: (i32, i32)| is_biggest_root(c, r, land, p);
    assert(is_biggest_root(c, r, land, p));
    assert(piece_root(c, r, land, p) && piece_root(c, r, land, b));
    if p != b {
        assert(!lex_lt(p, b) && !lex_lt(b, p));
        assert(p.0 == b.0 && p.1 == b.1);
    }
}

impl Game {
    /// Everything but the board, the archipelago kind, the start spots and
    /// the generator is unchanged.
    pub open spec fn same_but_map(&self, pre: &Game) -> bool {
        &&& self.cols == pre.cols
        &&& self.rows == pre.rows
        &&& self.seed == pre.seed
        &&& self.difficulty == pre.difficulty
        &&& self.enemies == pre.enemies
        &&& self.size == pre.size
        &&& self.players@ == pre.players@
        &&& self.humans@ == pre.humans@
        &&& self.tutorial == pre.tutorial
        &&& self.custom == pre.custom
        &&& self.terrs@ == pre.terrs@
        &&& self.log@ == pre.log@
        &&& self.round == pre.round
        &&& self.current == pre.current
        &&& self.sel == pre.sel
        &&& self.focus == pre.focus
    }

    /// The kinds of generated archipelago.
    pub open spec fn arch_generated(arch: Seq<char>) -> bool {
        arch == "Isle"@ || arch == "Atoll"@ || arch == "Lakes"@
    }
}

/// `p` is marked land, and so is every on-board neighbour of it.
pub open spec fn inner_at(cols: int, rows: int, land: Seq<bool>, p: (i32, i32)) -> bool {
    &&& in_grid(cols, rows, p)
    &&& land[ix(cols, p)]
    &&& forall|q: (i32, i32)| #[trigger] adjacent(cols, rows, p, q) ==> land[ix(cols, q)]
}

/// The land after drowning `p` and its neighbours: on the board, a hex
/// stays land unless it is `p` or next to it.
pub open spec fn drowned_at(cols: int, rows: int, land: Seq<bool>, p: (i32, i32), q: (i32, i32)) -> bool {
    land[ix(cols, q)] && q != p && !adjacent(cols, rows, p, q)
}

/// Land hexes, of the marked land, whose on-board neighbours are all land,
/// in (column, row) order.
fn inner_hexes(cols: i32, rows: i32, land: &Vec<bool>) -> (v: Vec<(i32, i32)>)
    requires
        board_ok(cols as int, rows as int),
        land@.len() == cols * rows,
    ensures
        forall|i: int| 0 <= i < v@.len() ==> in_grid(cols as int, rows as int, #[trigger] v@[i]),
        sorted_hexes(v@),
        forall|p: (i32, i32)| #[trigger] v@.contains(p) <==> inner_at(cols as int, rows as int, land@, p),
{
    let ghost c = cols as int;
    let ghost r = rows as int;
    let hs = mask_to_hexes(cols, rows, land);
    let mut v: Vec<(i32, i32)> = Vec::new();
    let mut k: usize = 0;
    while k < hs.len()
        invariant
            board_ok(c, r),
            c == cols,
            r == rows,
            land@.len() == cols * rows,
            sorted_hexes(hs@),
            forall|p: (i32, i32)| #[trigger] hs@.contains(p) <==> in_grid(c, r, p) && land@[ix(c, p)],
            forall|j: int| 0 <= j < hs@.len() ==> in_grid(cols as int, rows as int, #[trigger] hs@[j]),
            k <= hs@.len(),
            forall|i: int| 0 <= i < v@.len() ==> in_grid(cols as int, rows as int, #[trigger] v@[i]),
            sorted_hexes(v@),
            forall|i: int| #![trigger v@[i]] 0 <= i < v@.len() ==> exists|j: int| 0 <= j < k && #[trigger] hs@[j] == v@[i],
            forall|p: (i32, i32)|
                #[trigger] v@.contains(p) <==> (exists|j: int| 0 <= j < k && #[trigger] hs@[j] == p) && inner_at(
                    c,
                    r,
                    land@,
                    p,
                ),
        decreases hs@.len() - k,
    {
        let p = hs[k];
        proof {
            assert(in_grid(cols as int, rows as int, hs@[k as int]));
        }
        let nb = grid_neighbours(cols, rows, p.0, p.1);
        proof {
            lemma_nbrs(cols as int, rows as int, p.0, p.1);
        }
        let mut all = true;
        let mut j: usize = 0;
        while j < nb.len()
            invariant
                board_ok(cols as int, rows as int),
                c == cols,
                r == rows,
                land@.len() == cols * rows,
                forall|i: int| 0 <= i < nb@.len() ==> in_grid(cols as int, rows as int, #[trigger] nb@[i]),
                j <= nb@.len(),
                all == forall|u: int| 0 <= u < j ==> land@[ix(c, #[trigger] nb@[u])],
            decreases nb@.len() - j,
        {
            let q = nb[j];
            proof {
                assert(in_grid(cols as int, rows as int, nb@[j as int]));
            }
            if !land[cell(cols, rows, q)] {
                all = false;
            }
            j += 1;
        }
        proof {
            assert(hs@.contains(p));
            assert(all == forall|q: (i32, i32)| #[trigger] adjacent(c, r, p, q) ==> land@[ix(c, q)]) by {
                if all {
                    assert forall|q: (i32, i32)| #[trigger] adjacent(c, r, p, q) implies land@[ix(c, q)] by {
                        assert(nb@.contains(q));
                        let u = choose|u: int| 0 <= u < nb@.len() && nb@[u] == q;
                    }
                } else {
                    let u = choose|u: int| 0 <= u < nb@.len() && !land@[ix(c, #[trigger] nb@[u])];
                    assert(nb@.contains(nb@[u]));
                }
            }
        }
        let ghost v0 = v@;
        if all {
            v.push(p);
            proof {
                assert forall|x: int, y: int| 0 <= x < y < v@.len() implies lex_lt(#[trigger] v@[x], #[trigger] v@[y]) by {
                    if y == v0.len() {
                        let jx = choose|jx: int| 0 <= jx < k && #[trigger] hs@[jx] == v0[x];
                        assert(lex_lt(hs@[jx], hs@[k as int]));
                    } else {
                        assert(v@[x] == v0[x] && v@[y] == v0[y]);
                    }
                }
            }
        }
        proof {
            assert forall|i: int| #![trigger v@[i]] 0 <= i < v@.len() implies exists|jj: int| 0 <= jj < k + 1 && #[trigger] hs@[jj] == v@[i] by {
                if i < v0.len() {
                    let jj = choose|jj: int| 0 <= jj < k && #[trigger] hs@[jj] == v0[i];
                    assert(hs@[jj] == v@[i]);
                } else {
                    assert(hs@[k as int] == v@[i]);
                }
            }
            assert forall|q: (i32, i32)|
                #[trigger] v@.contains(q) <==> (exists|jj: int| 0 <= jj < k + 1 && #[trigger] hs@[jj] == q) && inner_at(c, r, land@, q) by {
                if v@.contains(q) {
                    let i = choose|i: int| 0 <= i < v@.len() && v@[i] == q;
                    if i < v0.len() {
                        assert(v0.contains(q));
                    }
                }
                if (exists|jj: int| 0 <= jj < k + 1 && #[trigger] hs@[jj] == q) && inner_at(c, r, land@, q) {
                    let jj = choose|jj: int| 0 <= jj < k + 1 && #[trigger] hs@[jj] == q;
                    if jj < k {
                        assert(v0.contains(q));
                        let i = choose|i: int| 0 <= i < v0.len() && v0[i] == q;
                        assert(v@[i] == q);
                    } else {
                        assert(v@[v0.len() as int] == q);
                    }
                }
            }
        }
        k += 1;
    }
    proof {
        assert forall|q: (i32, i32)| #[trigger] v@.contains(q) <==> inner_at(c, r, land@, q) by {
            if inner_at(c, r, land@, q) {
                assert(hs@.contains(q));
                let jj = choose|jj: int| 0 <= jj < hs@.len() && hs@[jj] == q;
                assert(hs@[jj] == q);
            }
        }
    }
    v
}

/// Drowns `p` and its neighbours.
fn drown(cols: i32, rows: i32, land: &mut Vec<bool>, p: (i32, i32))
    requires
        board_ok(cols as int, rows as int),
        old(land)@.len() == cols * rows,
        in_grid(cols as int, rows as int, p),
    ensures
        final(land)@.len() == old(land)@.len(),
        forall|q: (i32, i32)|
            in_grid(cols as int, rows as int, q) ==> #[trigger] final(land)@[ix(cols as int, q)] == drowned_at(
                cols as int,
                rows as int,
                old(land)@,
                p,
                q,
            ),
{
    let ghost c = cols as int;
    let ghost r = rows as int;
    let ghost l0 = land@;
    let ip = cell(cols, rows, p);
    land.set(ip, false);
    let nb = grid_neighbours(cols, rows, p.0, p.1);
    proof {
        lemma_nbrs(cols as int, rows as int, p.0, p.1);
        assert(nb@.take(0) =~= Seq::<(i32, i32)>::empty());
        assert forall|q: (i32, i32)| in_grid(c, r, q) implies #[trigger] land@[ix(c, q)] == (l0[ix(c, q)] && q != p
            && !nb@.take(0).contains(q)) by {
            lemma_ix_bounds(c, r, q);
            if ix(c, q) == ip as int {
                lemma_ix_inj(c, r, q, p);
            }
        }
    }
    let mut j: usize = 0;
    while j < nb.len()
        invariant
            board_ok(cols as int, rows as int),
            c == cols,
            r == rows,
            l0.len() == c * r,
            land@.len() == cols * rows,
            forall|i: int| 0 <= i < nb@.len() ==> in_grid(cols as int, rows as int, #[trigger] nb@[i]),
            j <= nb@.len(),
            forall|q: (i32, i32)|
                in_grid(c, r, q) ==> #[trigger] land@[ix(c, q)] == (l0[ix(c, q)] && q != p && !nb@.take(j as int).contains(q)),
        decreases nb@.len() - j,
    {
        let q = nb[j];
        proof {
            assert(in_grid(cols as int, rows as int, nb@[j as int]));
        }
        let iq = cell(cols, rows, q);
        let ghost before = land@;
        land.set(iq, false);
        proof {
            assert(nb@.take(j + 1) =~= nb@.take(j as int).push(q));
            assert forall|x: (i32, i32)| in_grid(c, r, x) implies #[trigger] land@[ix(c, x)] == (l0[ix(c, x)] && x != p
                && !nb@.take(j + 1).contains(x)) by {
                lemma_ix_bounds(c, r, x);
                if ix(c, x) == iq as int {
                    lemma_ix_inj(c, r, x, q);
                    assert(nb@.take(j + 1)[j as int] == q);
                    assert(nb@.take(j + 1).contains(q));
                } else {
                    assert(land@[ix(c, x)] == before[ix(c, x)]);
                    assert(x != q);
                    assert(nb@.take(j + 1).contains(x) == nb@.take(j as int).contains(x));
                }
            }
        }
        j += 1;
    }
    proof {
        assert(nb@.take(nb@.len() as int) =~= nb@);
    }
}

/// The largest piece of the marked land, as `biggest` gives it.
pub open spec fn biggest_spec(c: int, r: int, land: Seq<bool>) -> Seq<bool> {
    match choose_biggest(c, r, mask_set(c, r, land)) {
        Some(p) => reach_mask(c, r, mask_set(c, r, land), p),
        None => Seq::new((c * r) as nat, |i: int| false),
    }
}

proof fn lemma_biggest_spec(c: int, r: int, land: Seq<bool>, m: Seq<bool>)
    requires
        m.len() == c * r,
        c * r >= 0,
        match choose_biggest(c, r, mask_set(c, r, land)) {
            Some(p) => m == reach_mask(c, r, mask_set(c, r, land), p),
            None => forall|i: int| 0 <= i < m.len() ==> !#[trigger] m[i],
        },
    ensures
        m == biggest_spec(c, r, land),
{
    match choose_biggest(c, r, mask_set(c, r, land)) {
        Some(p) => {},
        None => {
            assert(m =~= Seq::new((c * r) as nat, |i: int| false));
        },
    }
}

/// The land after drowning `p` and its neighbours, as a mask.
pub open spec fn drown_spec(c: int, r: int, land: Seq<bool>, p: (i32, i32)) -> Seq<bool> {
    Seq::new(land.len(), |i: int| drowned_at(c, r, land, p, point_of(c, i)))
}

proof fn lemma_drown_spec(c: int, r: int, before: Seq<bool>, after: Seq<bool>, p: (i32, i32))
    requires
        board_ok(c, r),
        before.len() == c * r,
        after.len() == before.len(),
        forall|q: (i32, i32)| in_grid(c, r, q) ==> #[trigger] after[ix(c, q)] == drowned_at(c, r, before, p, q),
    ensures
        after == drown_spec(c, r, before, p),
{
    assert forall|i: int| 0 <= i < after.len() implies after[i] == drown_spec(c, r, before, p)[i] by {
        lemma_point_of(c, r, i);
        assert(after[ix(c, point_of(c, i))] == drowned_at(c, r, before, p, point_of(c, i)));
    }
    assert(after =~= drown_spec(c, r, before, p));
}

/// The inner hexes of the marked land, in (column, row) order, as
/// `inner_hexes` lists them.
pub open spec fn inner_seq(c: int, r: int, land: Seq<bool>) -> Seq<(i32, i32)> {
    choose|v: Seq<(i32, i32)>| sorted_hexes(v) && forall|p: (i32, i32)| #[trigger] v.contains(p) <==> inner_at(c, r, land, p)
}

proof fn lemma_inner_seq(c: int, r: int, land: Seq<bool>, v: Seq<(i32, i32)>)
    requires
        sorted_hexes(v),
        forall|p: (i32, i32)| #[trigger] v.contains(p) <==> inner_at(c, r, land, p),
    ensures
        v == inner_seq(c, r, land),
{
    let w = inner_seq(c, r, land);
    assert(sorted_hexes(w) && forall|p: (i32, i32)| #[trigger] w.contains(p) <==> inner_at(c, r, land, p));
    crate::territory::lemma_sorted_same(v, w);
}

/// The land after the first `t` lake digs from `land0`: at dig `k`, when
/// the land still has inner hexes, the one at position `picks[k]` (counted
/// round their number) and its neighbours are drowned.
pub open spec fn dug(c: int, r: int, land0: Seq<bool>, picks: Seq<int>, t: int) -> Seq<bool>
    decreases t,
{
    if t <= 0 {
        land0
    } else {
        let prev = dug(c, r, land0, picks, t - 1);
        let inner = inner_seq(c, r, prev);
        if inner.len() == 0 {
            prev
        } else {
            drown_spec(c, r, prev, inner[picks[t - 1] % (inner.len() as int)])
        }
    }
}

/// The land `dig_lakes` leaves for the digs `picks`, `times` of them: the
/// largest piece after the digs.
pub open spec fn lakes_spec(c: int, r: int, land: Seq<bool>, times: int, picks: Seq<int>) -> Seq<bool> {
    biggest_spec(c, r, dug(c, r, land, picks, times))
}

/// The digs read only the picks made so far.
proof fn lemma_dug_prefix(c: int, r: int, land0: Seq<bool>, a: Seq<int>, b: Seq<int>, t: int)
    requires
        0 <= t <= a.len(),
        t <= b.len(),
        forall|i: int| 0 <= i < t ==> a[i] == b[i],
    ensures
        dug(c, r, land0, a, t) == dug(c, r, land0, b, t),
    decreases t,
{
    if t > 0 {
        lemma_dug_prefix(c, r, land0, a, b, t - 1);
    }
}

/// The draws behind one outline: a fraction for each half-axis, one draw
/// per hex, and the number of lake digs with the pick of each.
pub type Draws = (int, int, Seq<u64>, int, Seq<int>);

/// Draws a board of `c` by `r` hexes can come from.
pub open spec fn draws_ok(c: int, r: int, d: Draws) -> bool {
    &&& 0 <= d.0 < FINE
    &&& 0 <= d.1 < FINE
    &&& d.2.len() == c * r
    &&& forall|i: int| 0 <= i < d.2.len() ==> #[trigger] d.2[i] < FINE
    &&& 2 <= d.3 <= 3
    &&& d.4.len() == d.3
    &&& forall|i: int| 0 <= i < d.4.len() ==> 0 <= #[trigger] d.4[i]
}

/// The land one drawing gives for the island kind `kind`: the largest piece
/// of the outline drawn with `d`, with its lakes dug when the kind is Lakes.
pub open spec fn tried_land(c: int, r: int, kind: Seq<char>, d: Draws) -> Seq<bool> {
    let b = biggest_spec(c, r, island_spec(is_atoll(kind), c, r, d.0, d.1, d.2));
    if kind == "Lakes"@ {
        lakes_spec(c, r, b, d.3, d.4)
    } else {
        b
    }
}

/// The island kind `arch` and land `land` as the drawing of them goes: the
/// kind `kind` is drawn, then up to twelve drawings `tries` of that kind,
/// each but the last with fewer than 25 hexes, stop at the first with 25;
/// if none has, the island is an Isle drawn once more with `last`.
pub open spec fn land_drawn(
    c: int,
    r: int,
    kind: Seq<char>,
    tries: Seq<Draws>,
    last: Draws,
    arch: Seq<char>,
    land: Seq<bool>,
) -> bool {
    &&& kind == "Isle"@ || kind == "Atoll"@ || kind == "Lakes"@
    &&& 1 <= tries.len() <= 12
    &&& forall|i: int| 0 <= i < tries.len() ==> draws_ok(c, r, #[trigger] tries[i])
    &&& forall|i: int| 0 <= i < tries.len() - 1 ==> count_true(#[trigger] tried_land(c, r, kind, tries[i])) < 25
    &&& if count_true(tried_land(c, r, kind, tries.last())) >= 25 {
        arch == kind && land == tried_land(c, r, kind, tries.last())
    } else {
        tries.len() == 12 && arch == "Isle"@ && draws_ok(c, r, last) && land == tried_land(c, r, "Isle"@, last)
    }
}

impl Game {
    /// Lakes: two or three times, a random inner hex and its neighbours
    /// become water; then the largest piece remains.
    fn dig_lakes(&mut self, land: Vec<bool>) -> (out: Vec<bool>)
        requires
            old(self).dims_ok(),
            land@.len() == old(self).cells(),
        ensures
            final(self).same_except_rng(old(self)),
            out@.len() == old(self).cells(),
            one_piece(old(self).cols as int, old(self).rows as int, out@),
            exists|times: int, picks: Seq<int>|
                2 <= times <= 3 && picks.len() == times && (forall|i: int| 0 <= i < picks.len() ==> 0 <= #[trigger] picks[i])
                    && out@ == #[trigger] lakes_spec(old(self).cols as int, old(self).rows as int, land@, times, picks),
    {
        let ghost pre = *self;
        let ghost c = self.cols as int;
        let ghost r = self.rows as int;
        let ghost land0 = land@;
        let mut land = land;
        let times = 2 + self.ri(2);
        let ghost mut picks: Seq<int> = Seq::empty();
        let mut t: usize = 0;
        while t < times
            invariant
                self.same_except_rng(&pre),
                self.dims_ok(),
                c == self.cols,
                r == self.rows,
                land@.len() == self.cells(),
                t <= times,
                picks.len() == t,
                forall|i: int| 0 <= i < picks.len() ==> 0 <= #[trigger] picks[i],
                land@ == dug(c, r, land0, picks, t as int),
            decreases times - t,
        {
            let inner = inner_hexes(self.cols, self.rows, &land);
            proof {
                lemma_inner_seq(c, r, land@, inner@);
            }
            let ghost before = land@;
            let ghost p0 = picks;
            if inner.len() == 0 {
                proof {
                    picks = picks.push(0);
                    lemma_dug_prefix(c, r, land0, picks, p0, t as int);
                }
            } else {
                let k = self.ri(inner.len());
                let p = inner[k];
                proof {
                    assert(in_grid(self.cols as int, self.rows as int, inner@[k as int]));
                }
                drown(self.cols, self.rows, &mut land, p);
                proof {
                    lemma_drown_spec(c, r, before, land@, p);
                    picks = picks.push(k as int);
                    lemma_dug_prefix(c, r, land0, picks, p0, t as int);
                    vstd::arithmetic::div_mod::lemma_small_mod(k as nat, inner@.len() as nat);
                    assert((k as int) % (inner@.len() as int) == k as int);
                }
            }
            t += 1;
        }
        let out = biggest(self.cols, self.rows, &land);
        proof {
            lemma_biggest_piece(self.cols as int, self.rows as int, land@, out@);
            assert(0 <= c * r) by (nonlinear_arith)
                requires
                    c >= 1,
                    r >= 1,
            ;
            lemma_biggest_spec(c, r, land@, out@);
            assert(out@ == lakes_spec(c, r, land0, times as int, picks));
        }
        out
    }

    /// Picks the archipelago kind at random, then draws up to twelve
    /// outlines until the largest piece has at least 25 hexes, falling back
    /// to one more Isle outline. Returns the land of the island.
    pub fn pick_land(&mut self) -> (land: Vec<bool>)
        requires
            old(self).dims_ok(),
            gen_side_ok(old(self).cols as int),
            gen_side_ok(old(self).rows as int),
        ensures
            final(self).same_but_map(old(self)),
            final(self).grid@ == old(self).grid@,
            final(self).starts@ == old(self).starts@,
            Game::arch_generated(final(self).arch@),
            land@.len() == old(self).cells(),
            one_piece(old(self).cols as int, old(self).rows as int, land@),
            count_true(land@) >= 25 || final(self).arch@ == "Isle"@,
            count_true(land@) > 0,
            exists|kind: Seq<char>, tries: Seq<Draws>, last: Draws|
                #[trigger] land_drawn(
                    old(self).cols as int,
                    old(self).rows as int,
                    kind,
                    tries,
                    last,
                    final(self).arch@,
                    land@,
                ),
    {
        let ghost pre = *self;
        let ghost c = pre.cols as int;
        let ghost r = pre.rows as int;
        let k = self.ri(3);
        self.arch = if k == 0 {
            owned("Isle")
        } else if k == 1 {
            owned("Atoll")
        } else {
            owned("Lakes")
        };
        let ghost kind = self.arch@;
        proof {
            assert(0 < self.cols * self.rows <= 4096) by (nonlinear_arith)
                requires
                    self.dims_ok(),
            ;
            reveal_strlit("Isle");
            reveal_strlit("Atoll");
            reveal_strlit("Lakes");
            assert("Isle"@.len() == 4 && "Atoll"@.len() == 5 && "Lakes"@.len() == 5);
            assert("Atoll"@[0] == 'A' && "Lakes"@[0] == 'L');
        }
        let n = (self.cols * self.rows) as usize;
        let mut land = blank_mask(n);
        let mut count: usize = 0;
        let mut attempt: usize = 0;
        let ghost mut tries: Seq<Draws> = Seq::empty();
        while attempt < 12 && count < 25
            invariant
                self.same_but_map(&pre),
                self.dims_ok(),
                gen_side_ok(self.cols as int),
                gen_side_ok(self.rows as int),
                c == pre.cols,
                r == pre.rows,
                self.grid@ == pre.grid@,
                self.starts@ == pre.starts@,
                Game::arch_generated(self.arch@),
                self.arch@ == kind,
                kind == "Isle"@ || kind == "Atoll"@ || kind == "Lakes"@,
                "Isle"@ != "Lakes"@,
                n == self.cells(),
                land@.len() == n,
                attempt > 0 ==> one_piece(pre.cols as int, pre.rows as int, land@),
                attempt > 0 ==> count == count_true(land@),
                attempt == 0 ==> count == 0,
                tries.len() == attempt,
                attempt <= 12,
                forall|i: int| 0 <= i < tries.len() ==> draws_ok(c, r, #[trigger] tries[i]),
                forall|i: int| 0 <= i < tries.len() - 1 ==> count_true(#[trigger] tried_land(c, r, kind, tries[i])) < 25,
                attempt > 0 ==> land@ == tried_land(c, r, kind, tries.last()),
            decreases 12 - attempt,
        {
            let outline = self.try_land();
            let ghost (fa, fb, gs) = choose|fa: int, fb: int, gs: Seq<u64>|
                0 <= fa < FINE && 0 <= fb < FINE && gs.len() == pre.cells() && (forall|i: int|
                    0 <= i < gs.len() ==> #[trigger] gs[i] < FINE) && outline@ == #[trigger] island_spec(
                    is_atoll(kind),
                    c,
                    r,
                    fa,
                    fb,
                    gs,
                );
            land = biggest(self.cols, self.rows, &outline);
            proof {
                lemma_biggest_piece(pre.cols as int, pre.rows as int, outline@, land@);
                lemma_biggest_spec(c, r, outline@, land@);
            }
            let ghost mut d: Draws = (fa, fb, gs, 2, seq![0int, 0int]);
            if crate::text::str_eq(self.arch.as_str(), "Lakes") {
                let ghost b = land@;
                land = self.dig_lakes(land);
                proof {
                    let (times, picks) = choose|times: int, picks: Seq<int>|
                        2 <= times <= 3 && picks.len() == times && (forall|i: int| 0 <= i < picks.len() ==> 0 <= #[trigger] picks[i])
                            && land@ == #[trigger] lakes_spec(c, r, b, times, picks);
                    d = (fa, fb, gs, times, picks);
                }
            }
            proof {
                assert(draws_ok(c, r, d));
                assert(land@ == tried_land(c, r, kind, d));
                let t0 = tries;
                tries = tries.push(d);
                assert forall|i: int| 0 <= i < tries.len() - 1 implies count_true(#[trigger] tried_land(c, r, kind, tries[i])) < 25 by {
                    assert(tries[i] == t0[i]);
                }
                assert forall|i: int| 0 <= i < tries.len() implies draws_ok(c, r, #[trigger] tries[i]) by {
                    if i < t0.len() {
                        assert(tries[i] == t0[i]);
                    }
                }
            }
            count = count_marks(&land);
            attempt += 1;
        }
        if count < 25 {
            self.arch = owned("Isle");
            let ghost before = *self;
            let outline = self.try_land();
            let ghost (fa, fb, gs) = choose|fa: int, fb: int, gs: Seq<u64>|
                0 <= fa < FINE && 0 <= fb < FINE && gs.len() == before.cells() && (forall|i: int|
                    0 <= i < gs.len() ==> #[trigger] gs[i] < FINE) && outline@ == #[trigger] island_spec(
                    is_atoll(before.arch@),
                    before.cols as int,
                    before.rows as int,
                    fa,
                    fb,
                    gs,
                );
            proof {
                assert(!is_atoll(before.arch@));
                let x = (c - 1) / 2;
                let y = (r - 1) / 2;
                let i0 = y * c + x;
                assert(0 <= i0 < c * r) by (nonlinear_arith)
                    requires
                        i0 == y * c + x,
                        0 <= x < c,
                        0 <= y < r,
                ;
                vstd::arithmetic::div_mod::lemma_fundamental_div_mod_converse(i0, c, y, x);
                assert(point_of(c, i0) == (x as i32, y as i32));
                assert(gs[i0] < FINE);
                lemma_centre_land(c, r, fa, fb, gs[i0] as int);
                assert(outline@[i0]);
            }
            land = biggest(self.cols, self.rows, &outline);
            proof {
                lemma_biggest_piece(pre.cols as int, pre.rows as int, outline@, land@);
                lemma_biggest_spec(c, r, outline@, land@);
                let j = choose|j: int| 0 <= j < land@.len() && #[trigger] land@[j];
                lemma_count_pos(land@, j);
                let last: Draws = (fa, fb, gs, 2, seq![0int, 0int]);
                assert(draws_ok(c, r, last));
                assert(land@ == tried_land(c, r, "Isle"@, last));
                assert(attempt == 12);
                assert(count_true(tried_land(c, r, kind, tries.last())) < 25);
                assert(self.arch@ == "Isle"@);
                assert(land_drawn(c, r, kind, tries, last, self.arch@, land@));
            }
        } else {
            proof {
                assert(attempt > 0);
                assert(1 <= tries.len() <= 12);
                assert(count_true(tried_land(c, r, kind, tries.last())) >= 25);
                assert(self.arch@ == kind);
                assert(land@ == tried_land(c, r, kind, tries.last()));
                assert(land_drawn(c, r, kind, tries, tries.last(), self.arch@, land@));
            }
        }
        land
    }
}

/// Hexes of a board of side at most 64 are close enough for the distance
/// computation.
pub proof fn lemma_dist_fits(a: (i32, i32), b: (i32, i32))
    requires
        0 <= a.0 <= 64,
        0 <= a.1 <= 64,
        0 <= b.0 <= 64,
        0 <= b.1 <= 64,
    ensures
        hex_dist_fits(a, b),
{
}

/// Spacing the start spots must keep when the island allows it.
pub const MIN_GAP: i32 = 3;

/// Every palm of the board stands on the coast, next to water.
pub open spec fn palms_on_coast(g: &Game) -> bool {
    forall|q: (i32, i32)|
        g.inside(q) && #[trigger] g.hex_at(q).tree == Some(Tree::Palm) ==> exists|n: (i32, i32)|
            #[trigger] g.adj(q, n) && g.hex_at(n).water
}

/// The first tree of an unowned land hex for its draws: none when the
/// draw `r` lies above one tenth; else a palm when the hex is on the coast
/// and the draw `r2` lies below six tenths; else a pine.
pub open spec fn first_tree_spec(r: u64, coast: bool, r2: u64) -> Option<Tree> {
    if crate::rng::draw_above(r, 1, 10) {
        None
    } else if coast && crate::rng::draw_below(r2, 6, 10) {
        Some(Tree::Palm)
    } else {
        Some(Tree::Pine)
    }
}

/// The first tree of a hex, as `first_tree_spec` gives it for the draws.
pub fn first_tree(r: u64, coast: bool, r2: u64) -> (t: Option<Tree>)
    ensures
        t == first_tree_spec(r, coast, r2),
{
    if chance_above(r, 1, 10) {
        None
    } else if coast && chance_below(r2, 6, 10) {
        Some(Tree::Palm)
    } else {
        Some(Tree::Pine)
    }
}

/// `h` is the hex of `g` at `q` with a new tree on it: a pine, or a palm
/// where `q` is on the coast.
pub open spec fn planted(g: &Game, q: (i32, i32), h: Hex) -> bool {
    ||| h == Hex { tree: Some(Tree::Pine), ..g.hex_at(q) }
    ||| h == Hex { tree: Some(Tree::Palm), ..g.hex_at(q) } && exists|n: (i32, i32)|
        #[trigger] g.adj(q, n) && g.hex_at(n).water
}

/// Where the palms stand reads only the board.
pub proof fn lemma_palms_same(a: &Game, b: &Game)
    requires
        a.cols == b.cols,
        a.rows == b.rows,
        a.grid@ == b.grid@,
        palms_on_coast(a),
    ensures
        palms_on_coast(b),
{
    assert forall|q: (i32, i32)|
        b.inside(q) && #[trigger] b.hex_at(q).tree == Some(Tree::Palm) implies exists|n: (i32, i32)|
            #[trigger] b.adj(q, n) && b.hex_at(n).water by {
        assert(a.hex_at(q) == b.hex_at(q));
        let n = choose|n: (i32, i32)| #[trigger] a.adj(q, n) && a.hex_at(n).water;
        assert(b.adj(q, n));
    }
}

/// All hexes of `s` are pairwise distinct.
pub open spec fn distinct_hexes(s: Seq<(i32, i32)>) -> bool {
    forall|i: int, j: int| 0 <= i < s.len() && 0 <= j < s.len() && i != j ==> #[trigger] s[i] != #[trigger] s[j]
}

/// Every hex of `s` is on a board of `c` by `r`.
pub open spec fn all_in_grid(c: int, r: int, s: Seq<(i32, i32)>) -> bool {
    forall|i: int| 0 <= i < s.len() ==> in_grid(c, r, #[trigger] s[i])
}

/// `a` holds the hexes of `b`, each once, in some order.
pub open spec fn rearranged(a: Seq<(i32, i32)>, b: Seq<(i32, i32)>) -> bool {
    &&& a.len() == b.len()
    &&& distinct_hexes(a)
    &&& forall|i: int| 0 <= i < a.len() ==> b.contains(#[trigger] a[i])
    &&& forall|i: int| 0 <= i < b.len() ==> a.contains(#[trigger] b[i])
}

/// `f` maps the positions below `n` one to one onto themselves.
pub open spec fn index_perm(f: Seq<int>, n: int) -> bool {
    &&& f.len() == n
    &&& forall|k: int| 0 <= k < n ==> 0 <= #[trigger] f[k] < n
    &&& forall|x: int, y: int| 0 <= x < n && 0 <= y < n && x != y ==> #[trigger] f[x] != #[trigger] f[y]
}

/// `a` is `b` with its positions permuted: position `k` of `a` holds
/// position `f[k]` of `b`, for a one-to-one `f`.
pub open spec fn permutation_of(a: Seq<(i32, i32)>, b: Seq<(i32, i32)>) -> bool {
    &&& a.len() == b.len()
    &&& exists|f: Seq<int>|
        #[trigger] index_perm(f, b.len() as int) && forall|k: int| 0 <= k < a.len() ==> a[k] == b[#[trigger] f[k]]
}

/// `c` is at least `MIN_GAP` steps from every spot of `s`.
pub open spec fn far_from_all(c: (i32, i32), s: Seq<(i32, i32)>) -> bool {
    forall|u: int| 0 <= u < s.len() ==> hex_dist_spec(c, #[trigger] s[u]) >= MIN_GAP
}

/// First fit: the candidates in order, each taken when it is at least
/// `MIN_GAP` steps from every spot taken before it, up to `n` spots.
pub open spec fn first_fit(cands: Seq<(i32, i32)>, n: int) -> Seq<(i32, i32)>
    decreases cands.len(),
{
    if cands.len() == 0 {
        Seq::empty()
    } else {
        let s = first_fit(cands.drop_last(), n);
        if s.len() < n && far_from_all(cands.last(), s) {
            s.push(cands.last())
        } else {
            s
        }
    }
}

/// Steps from `c` to the nearest spot of `s`; 99 when there is none.
pub open spec fn min_dist(c: (i32, i32), s: Seq<(i32, i32)>) -> int
    decreases s.len(),
{
    if s.len() == 0 {
        99
    } else if s.len() == 1 {
        hex_dist_spec(c, s[0])
    } else {
        let d = min_dist(c, s.drop_last());
        let e = hex_dist_spec(c, s.last());
        if e < d {
            e
        } else {
            d
        }
    }
}

/// `i` is the first position of `pool` whose nearest spot of `spots` is
/// farthest away.
pub open spec fn is_farthest(spots: Seq<(i32, i32)>, pool: Seq<(i32, i32)>, i: int) -> bool {
    &&& 0 <= i < pool.len()
    &&& forall|j: int| 0 <= j < pool.len() ==> min_dist(#[trigger] pool[j], spots) <= min_dist(pool[i], spots)
    &&& forall|j: int| 0 <= j < i ==> min_dist(#[trigger] pool[j], spots) < min_dist(pool[i], spots)
}

/// The greedy spread from the spots `spots`: while there are fewer than `n`
/// and candidates are left in `pool`, the farthest candidate joins them.
pub open spec fn spread_from(spots: Seq<(i32, i32)>, pool: Seq<(i32, i32)>, n: int) -> Seq<(i32, i32)>
    decreases pool.len(),
{
    if spots.len() >= n || pool.len() == 0 {
        spots
    } else {
        let i = choose|i: int| is_farthest(spots, pool, i);
        if 0 <= i < pool.len() {
            spread_from(spots.push(pool[i]), pool.remove(i), n)
        } else {
            spots
        }
    }
}

/// The greedy spread of `n` start spots: the last candidate first, then
/// the farthest of the others in turn.
pub open spec fn spread(cands: Seq<(i32, i32)>, n: int) -> Seq<(i32, i32)> {
    if cands.len() == 0 {
        Seq::empty()
    } else {
        spread_from(seq![cands.last()], cands.drop_last(), n)
    }
}

/// Start spots for `n` seats from the candidates in order: the first fit
/// when it finds `n`, else the greedy spread.
pub open spec fn starts_for(cands: Seq<(i32, i32)>, n: int) -> Seq<(i32, i32)> {
    let f = first_fit(cands, n);
    if f.len() >= n {
        f
    } else {
        match spaced_search(cands, n, 0, Seq::empty()) {
            Some(s) => s,
            None => spread(cands, n),
        }
    }
}

/// The spots of `s` are pairwise at least `MIN_GAP` steps apart.
pub open spec fn spaced(s: Seq<(i32, i32)>) -> bool {
    forall|x: int, y: int|
        0 <= x < s.len() && 0 <= y < s.len() && x != y ==> hex_dist_spec(#[trigger] s[x], #[trigger] s[y]) >= MIN_GAP
}

/// A search for `n` spots pairwise at least `MIN_GAP` steps apart, going
/// on from the spots `chosen` with the candidates from position `k`: each
/// candidate far enough from the spots so far is tried first with it, then
/// without it. The first such set found in this order, or `None`.
pub open spec fn spaced_search(cands: Seq<(i32, i32)>, n: int, k: int, chosen: Seq<(i32, i32)>) -> Option<Seq<(i32, i32)>>
    decreases cands.len() - k,
{
    if chosen.len() >= n {
        Some(chosen)
    } else if k < 0 || k >= cands.len() {
        None
    } else if far_from_all(cands[k], chosen) {
        match spaced_search(cands, n, k + 1, chosen.push(cands[k])) {
            Some(s) => Some(s),
            None => spaced_search(cands, n, k + 1, chosen),
        }
    } else {
        spaced_search(cands, n, k + 1, chosen)
    }
}

/// `p` is one of the candidates from position `k` on.
pub open spec fn listed_from(cands: Seq<(i32, i32)>, k: int, p: (i32, i32)) -> bool {
    exists|i: int| k <= i < cands.len() && cands[i] == p
}

/// The hexes `w` could finish a search from position `k` with the spots
/// `chosen`: they are candidates from there on, pairwise far enough apart,
/// and far enough from every chosen spot.
pub open spec fn completes(cands: Seq<(i32, i32)>, k: int, chosen: Seq<(i32, i32)>, w: Set<(i32, i32)>) -> bool {
    &&& w.finite()
    &&& forall|p: (i32, i32)| #[trigger] w.contains(p) ==> listed_from(cands, k, p)
    &&& forall|p: (i32, i32), q: (i32, i32)|
        #[trigger] w.contains(p) && #[trigger] w.contains(q) && p != q ==> hex_dist_spec(p, q) >= MIN_GAP
    &&& forall|p: (i32, i32), u: int|
        #[trigger] w.contains(p) && 0 <= u < chosen.len() ==> hex_dist_spec(p, #[trigger] chosen[u]) >= MIN_GAP
}

/// A spot far from every spaced spot keeps them spaced.
proof fn lemma_spaced_push(s: Seq<(i32, i32)>, c: (i32, i32))
    requires
        spaced(s),
        far_from_all(c, s),
    ensures
        spaced(s.push(c)),
{
    let f = s.push(c);
    assert forall|x: int, y: int| 0 <= x < f.len() && 0 <= y < f.len() && x != y implies hex_dist_spec(
        #[trigger] f[x],
        #[trigger] f[y],
    ) >= MIN_GAP by {
        if x == s.len() {
            assert(hex_dist_spec(c, s[y]) >= MIN_GAP);
        } else if y == s.len() {
            assert(hex_dist_spec(c, s[x]) >= MIN_GAP);
            crate::hexgrid::lemma_hex_dist_symmetric(c, s[x]);
        } else {
            assert(f[x] == s[x] && f[y] == s[y]);
        }
    }
}

/// What the search finds: `n` spaced spots, the chosen ones and
/// candidates, no more than the chosen spots and the candidates left.
pub proof fn lemma_search_shape(cands: Seq<(i32, i32)>, n: int, k: int, chosen: Seq<(i32, i32)>)
    requires
        0 <= k <= cands.len(),
        chosen.len() <= n,
        spaced(chosen),
    ensures
        (spaced_search(cands, n, k, chosen) matches Some(s) ==> {
            &&& s.len() == n
            &&& n <= chosen.len() + cands.len() - k
            &&& spaced(s)
            &&& forall|i: int| 0 <= i < s.len() ==> chosen.contains(#[trigger] s[i]) || cands.contains(s[i])
        }),
    decreases cands.len() - k,
{
    if chosen.len() >= n || k >= cands.len() {
        return;
    }
    let c = cands[k];
    if far_from_all(c, chosen) {
        let ch2 = chosen.push(c);
        lemma_spaced_push(chosen, c);
        lemma_search_shape(cands, n, k + 1, ch2);
        match spaced_search(cands, n, k + 1, ch2) {
            Some(s) => {
                assert forall|i: int| 0 <= i < s.len() implies chosen.contains(#[trigger] s[i]) || cands.contains(s[i]) by {
                    if ch2.contains(s[i]) {
                        let j = choose|j: int| 0 <= j < ch2.len() && ch2[j] == s[i];
                        if j < chosen.len() {
                            assert(chosen[j] == s[i]);
                        } else {
                            assert(cands[k] == s[i]);
                        }
                    }
                }
                return;
            },
            None => {},
        }
    }
    lemma_search_shape(cands, n, k + 1, chosen);
}

/// The search misses no spaced set: when some hexes among the candidates
/// left can finish it, it finds spots.
pub proof fn lemma_search_complete(
    cands: Seq<(i32, i32)>,
    n: int,
    k: int,
    chosen: Seq<(i32, i32)>,
    w: Set<(i32, i32)>,
)
    requires
        0 <= k <= cands.len(),
        chosen.len() + w.len() >= n,
        completes(cands, k, chosen, w),
    ensures
        (spaced_search(cands, n, k, chosen) is Some),
    decreases cands.len() - k,
{
    if chosen.len() >= n {
        return;
    }
    if k >= cands.len() {
        assert(w.len() != 0);
        vstd::set::axiom_set_choose_len(w);
        let p = w.choose();
        assert(w.contains(p));
        assert(listed_from(cands, k, p));
        assert(false);
    }
    let c = cands[k];
    if w.contains(c) {
        assert(far_from_all(c, chosen)) by {
            assert forall|u: int| 0 <= u < chosen.len() implies hex_dist_spec(c, #[trigger] chosen[u]) >= MIN_GAP by {
                assert(w.contains(c));
            }
        }
        let ch2 = chosen.push(c);
        let w2 = w.remove(c);
        vstd::set::axiom_set_remove_finite(w, c);
        vstd::set::axiom_set_remove_len(w, c);
        assert forall|p: (i32, i32)| #[trigger] w2.contains(p) implies listed_from(cands, k + 1, p) by {
            assert(w.contains(p));
            let i = choose|i: int| k <= i < cands.len() && cands[i] == p;
            assert(i != k);
        }
        assert forall|p: (i32, i32), u: int|
            #[trigger] w2.contains(p) && 0 <= u < ch2.len() implies hex_dist_spec(p, #[trigger] ch2[u]) >= MIN_GAP by {
            assert(w.contains(p));
            if u < chosen.len() {
                assert(ch2[u] == chosen[u]);
            } else {
                assert(ch2[u] == c);
                assert(w.contains(c));
            }
        }
        assert forall|p: (i32, i32), q: (i32, i32)|
            #[trigger] w2.contains(p) && #[trigger] w2.contains(q) && p != q implies hex_dist_spec(p, q) >= MIN_GAP by {
            assert(w.contains(p) && w.contains(q));
        }
        lemma_search_complete(cands, n, k + 1, ch2, w2);
    } else {
        assert forall|p: (i32, i32)| #[trigger] w.contains(p) implies listed_from(cands, k + 1, p) by {
            let i = choose|i: int| k <= i < cands.len() && cands[i] == p;
            assert(i != k);
        }
        lemma_search_complete(cands, n, k + 1, chosen, w);
    }
}

/// The hexes `w` are land of `g`, pairwise at least `MIN_GAP` steps apart.
pub open spec fn spaced_land(g: &Game, w: Seq<(i32, i32)>) -> bool {
    &&& spaced(w)
    &&& forall|j: int| 0 <= j < w.len() ==> g.inside(#[trigger] w[j]) && !g.hex_at(w[j]).water
}

/// Whenever `n` of the candidates lie pairwise at least `MIN_GAP` steps
/// apart, the start spots do too.
pub proof fn lemma_starts_spaced(cands: Seq<(i32, i32)>, n: int, w: Seq<(i32, i32)>)
    requires
        w.len() == n,
        spaced(w),
        forall|j: int| 0 <= j < w.len() ==> cands.contains(#[trigger] w[j]),
    ensures
        spaced(starts_for(cands, n)),
{
    lemma_first_fit_spaced(cands, n);
    if first_fit(cands, n).len() >= n {
        return;
    }
    assert(w.no_duplicates()) by {
        assert forall|i: int, j: int| 0 <= i < w.len() && 0 <= j < w.len() && i != j implies w[i] != w[j] by {
            crate::hexgrid::lemma_hex_dist_zero(w[i]);
            assert(hex_dist_spec(w[i], w[j]) >= MIN_GAP);
        }
    }
    w.unique_seq_to_set();
    vstd::seq_lib::seq_to_set_is_finite(w);
    let ws = w.to_set();
    assert forall|p: (i32, i32)| #[trigger] ws.contains(p) implies listed_from(cands, 0, p) by {
        let j = choose|j: int| 0 <= j < w.len() && w[j] == p;
        assert(cands.contains(w[j]));
    }
    assert forall|p: (i32, i32), q: (i32, i32)|
        #[trigger] ws.contains(p) && #[trigger] ws.contains(q) && p != q implies hex_dist_spec(p, q) >= MIN_GAP by {
        let i = choose|i: int| 0 <= i < w.len() && w[i] == p;
        let j = choose|j: int| 0 <= j < w.len() && w[j] == q;
        assert(hex_dist_spec(w[i], w[j]) >= MIN_GAP);
    }
    assert(completes(cands, 0, Seq::empty(), ws));
    lemma_search_complete(cands, n, 0, Seq::empty(), ws);
    lemma_search_shape(cands, n, 0, Seq::empty());
}

proof fn lemma_min_dist_nonneg(c: (i32, i32), s: Seq<(i32, i32)>)
    ensures
        min_dist(c, s) >= 0,
    decreases s.len(),
{
    if s.len() > 1 {
        lemma_min_dist_nonneg(c, s.drop_last());
    }
}

proof fn lemma_farthest_unique(spots: Seq<(i32, i32)>, pool: Seq<(i32, i32)>, i: int, j: int)
    requires
        is_farthest(spots, pool, i),
        is_farthest(spots, pool, j),
    ensures
        i == j,
{
    if i < j {
        assert(min_dist(pool[i], spots) < min_dist(pool[j], spots));
    } else if j < i {
        assert(min_dist(pool[j], spots) < min_dist(pool[i], spots));
    }
}

/// Start spots picked by first fit are pairwise at least `MIN_GAP` steps
/// apart; when first fit finds a spot for every seat, those are the starts.
pub proof fn lemma_first_fit_spaced(cands: Seq<(i32, i32)>, n: int)
    ensures
        forall|x: int, y: int|
            0 <= x < first_fit(cands, n).len() && 0 <= y < first_fit(cands, n).len() && x != y
                ==> hex_dist_spec(#[trigger] first_fit(cands, n)[x], #[trigger] first_fit(cands, n)[y]) >= MIN_GAP,
        first_fit(cands, n).len() >= n ==> starts_for(cands, n) == first_fit(cands, n),
    decreases cands.len(),
{
    if cands.len() > 0 {
        lemma_first_fit_spaced(cands.drop_last(), n);
        let s = first_fit(cands.drop_last(), n);
        let c = cands.last();
        if s.len() < n && far_from_all(c, s) {
            let f = s.push(c);
            assert forall|x: int, y: int| 0 <= x < f.len() && 0 <= y < f.len() && x != y implies hex_dist_spec(
                #[trigger] f[x],
                #[trigger] f[y],
            ) >= MIN_GAP by {
                if x == s.len() {
                    assert(hex_dist_spec(c, s[y]) >= MIN_GAP);
                } else if y == s.len() {
                    assert(hex_dist_spec(c, s[x]) >= MIN_GAP);
                    crate::hexgrid::lemma_hex_dist_symmetric(c, s[x]);
                } else {
                    assert(f[x] == s[x] && f[y] == s[y]);
                }
            }
        }
    }
}

impl Game {
    /// Shuffles `v` in place: for each position from the last down to the
    /// second, swaps it with a random position at or before it.
    pub fn shuffle(&mut self, v: &mut Vec<(i32, i32)>)
        ensures
            final(self).same_except_rng(old(self)),
            final(v)@.len() == old(v)@.len(),
            forall|i: int| 0 <= i < final(v)@.len() ==> old(v)@.contains(#[trigger] final(v)@[i]),
            forall|i: int| 0 <= i < old(v)@.len() ==> final(v)@.contains(#[trigger] old(v)@[i]),
            distinct_hexes(old(v)@) ==> distinct_hexes(final(v)@),
            permutation_of(final(v)@, old(v)@),
    {
        let ghost pre = *self;
        let ghost v0 = v@;
        let ghost mut perm: Seq<int> = Seq::new(v0.len(), |k: int| k);
        let mut i = v.len();
        while i > 1
            invariant
                self.same_except_rng(&pre),
                i <= v@.len(),
                v@.len() == v0.len(),
                index_perm(perm, v0.len() as int),
                forall|k: int| 0 <= k < v@.len() ==> v@[k] == v0[#[trigger] perm[k]],
                forall|k: int| 0 <= k < v@.len() ==> v0.contains(#[trigger] v@[k]),
                forall|k: int| 0 <= k < v0.len() ==> v@.contains(#[trigger] v0[k]),
                distinct_hexes(v0) ==> distinct_hexes(v@),
            decreases i,
        {
            i -= 1;
            let j = self.ri(i + 1);
            let a = v[i];
            let b = v[j];
            let ghost before = v@;
            v.set(i, b);
            v.set(j, a);
            proof {
                let ghost p0 = perm;
                perm = p0.update(i as int, p0[j as int]).update(j as int, p0[i as int]);
                assert forall|k: int| 0 <= k < v@.len() implies v@[k] == v0[#[trigger] perm[k]] by {
                    if k == j as int {
                        assert(v@[k] == before[i as int]);
                    } else if k == i as int {
                        assert(v@[k] == before[j as int]);
                    } else {
                        assert(v@[k] == before[k]);
                    }
                }
                assert forall|x: int, y: int| 0 <= x < v0.len() && 0 <= y < v0.len() && x != y implies #[trigger] perm[x]
                    != #[trigger] perm[y] by {
                    let sx = if x == j as int {
                        i as int
                    } else if x == i as int {
                        j as int
                    } else {
                        x
                    };
                    let sy = if y == j as int {
                        i as int
                    } else if y == i as int {
                        j as int
                    } else {
                        y
                    };
                    assert(perm[x] == p0[sx]);
                    assert(perm[y] == p0[sy]);
                    assert(p0[sx] != p0[sy]);
                }
                assert forall|k: int| 0 <= k < v0.len() implies 0 <= #[trigger] perm[k] < v0.len() by {
                    if k == j as int {
                        assert(perm[k] == p0[i as int]);
                    } else if k == i as int {
                        assert(perm[k] == p0[j as int]);
                    } else {
                        assert(perm[k] == p0[k]);
                    }
                }
                assert forall|k: int| 0 <= k < v0.len() implies v@.contains(#[trigger] v0[k]) by {
                    let m = choose|m: int| 0 <= m < before.len() && before[m] == v0[k];
                    let m2 = if m == i as int {
                        j as int
                    } else if m == j as int {
                        i as int
                    } else {
                        m
                    };
                    assert(v@[m2] == before[m]);
                }
                assert forall|k: int| 0 <= k < v@.len() implies v0.contains(#[trigger] v@[k]) by {
                    if k == i as int {
                        assert(v@[k] == before[j as int]);
                    } else if k == j as int {
                        assert(v@[k] == before[i as int]);
                    } else {
                        assert(v@[k] == before[k]);
                    }
                }
                if distinct_hexes(v0) {
                    assert forall|x: int, y: int| 0 <= x < v@.len() && 0 <= y < v@.len() && x != y implies #[trigger] v@[x]
                        != #[trigger] v@[y] by {
                        let sx = if x == i as int {
                            j as int
                        } else if x == j as int {
                            i as int
                        } else {
                            x
                        };
                        let sy = if y == i as int {
                            j as int
                        } else if y == j as int {
                            i as int
                        } else {
                            y
                        };
                        assert(v@[x] == before[sx]);
                        assert(v@[y] == before[sy]);
                        assert(before[sx] != before[sy]);
                    }
                }
            }
        }
        proof {
            assert(index_perm(perm, v0.len() as int));
        }
    }

    /// Start spots for `n` seats from the land hexes `cands`, shuffled
    /// first and then picked as `pick_starts` picks them.
    pub fn choose_starts(&mut self, cands: Vec<(i32, i32)>, n: usize) -> (spots: Vec<(i32, i32)>)
        requires
            n >= 1,
            all_in_grid(64, 64, cands@),
            distinct_hexes(cands@),
        ensures
            final(self).same_except_rng(old(self)),
            exists|c: Seq<(i32, i32)>| #[trigger] rearranged(c, cands@) && spots@ == starts_for(c, n as int),
            spots@.len() == if n < cands@.len() {
                n as int
            } else {
                cands@.len() as int
            },
            distinct_hexes(spots@),
            forall|i: int| 0 <= i < spots@.len() ==> cands@.contains(#[trigger] spots@[i]),
    {
        let mut cands = cands;
        let ghost c0 = cands@;
        self.shuffle(&mut cands);
        proof {
            assert forall|i: int| 0 <= i < cands@.len() implies in_grid(64, 64, #[trigger] cands@[i]) by {
                let k = choose|k: int| 0 <= k < c0.len() && c0[k] == cands@[i];
                assert(in_grid(64, 64, c0[k]));
            }
        }
        let ghost c1 = cands@;
        let spots = pick_starts(cands, n);
        proof {
            assert(rearranged(c1, c0));
            assert forall|i: int| 0 <= i < spots@.len() implies c0.contains(#[trigger] spots@[i]) by {
                let k = choose|k: int| 0 <= k < c1.len() && c1[k] == spots@[i];
                assert(c0.contains(c1[k]));
            }
        }
        spots
    }
}

/// Start spots for `n` seats from the candidates in order: each candidate
/// at least `MIN_GAP` steps from every spot taken before it, until there are
/// `n`. When that yields fewer than `n`, the first `n` candidates pairwise
/// at least `MIN_GAP` steps apart that a search in candidate order finds;
/// only when no such set exists, the greedy spread of `spread_starts`.
pub fn pick_starts(cands: Vec<(i32, i32)>, n: usize) -> (spots: Vec<(i32, i32)>)
    requires
        n >= 1,
        all_in_grid(64, 64, cands@),
        distinct_hexes(cands@),
    ensures
        spots@ == starts_for(cands@, n as int),
        spots@.len() == if n < cands@.len() {
            n as int
        } else {
            cands@.len() as int
        },
        distinct_hexes(spots@),
        forall|i: int| 0 <= i < spots@.len() ==> cands@.contains(#[trigger] spots@[i]),
{
    let mut spots: Vec<(i32, i32)> = Vec::new();
    let mut k: usize = 0;
    proof {
        assert(cands@.take(0) =~= Seq::<(i32, i32)>::empty());
    }
    while k < cands.len()
        invariant
            all_in_grid(64, 64, cands@),
            distinct_hexes(cands@),
            k <= cands@.len(),
            spots@.len() <= k,
            spots@.len() <= n,
            spots@ == first_fit(cands@.take(k as int), n as int),
            forall|i: int| 0 <= i < spots@.len() ==> exists|j: int| 0 <= j < k && #[trigger] spots@[i] == cands@[j],
            distinct_hexes(spots@),
            all_in_grid(64, 64, spots@),
        decreases cands@.len() - k,
    {
        let c = cands[k];
        proof {
            assert(cands@.take(k + 1).drop_last() =~= cands@.take(k as int));
            assert(cands@.take(k + 1).last() == c);
        }
        if spots.len() < n {
            let mut ok = true;
            let mut t: usize = 0;
            while t < spots.len()
                invariant
                    all_in_grid(64, 64, spots@),
                    in_grid(64, 64, c),
                    t <= spots@.len(),
                    ok == forall|u: int| 0 <= u < t ==> hex_dist_spec(c, #[trigger] spots@[u]) >= MIN_GAP,
                decreases spots@.len() - t,
            {
                proof {
                    assert(in_grid(64, 64, spots@[t as int]));
                    lemma_dist_fits(c, spots@[t as int]);
                }
                if hex_dist(c, spots[t]) < MIN_GAP {
                    ok = false;
                }
                t += 1;
            }
            if ok {
                let ghost before = spots@;
                proof {
                    assert forall|u: int| 0 <= u < before.len() implies #[trigger] before[u] != c by {
                        crate::hexgrid::lemma_hex_dist_zero(c);
                        assert(hex_dist_spec(c, before[u]) >= MIN_GAP);
                    }
                }
                spots.push(c);
                proof {
                    assert forall|i: int| 0 <= i < spots@.len() implies exists|j: int| 0 <= j < k + 1 && #[trigger] spots@[i]
                        == cands@[j] by {
                        if i < before.len() {
                            assert(spots@[i] == before[i]);
                            let j = choose|j: int| 0 <= j < k && #[trigger] before[i] == cands@[j];
                        } else {
                            assert(spots@[i] == cands@[k as int]);
                        }
                    }
                    assert forall|x: int, y: int| 0 <= x < spots@.len() && 0 <= y < spots@.len() && x != y implies #[trigger] spots@[x]
                        != #[trigger] spots@[y] by {
                        if x < before.len() && y < before.len() {
                            assert(spots@[x] == before[x] && spots@[y] == before[y]);
                        } else if x < before.len() {
                            assert(spots@[x] == before[x]);
                        } else {
                            assert(spots@[y] == before[y]);
                        }
                    }
                }
            } else {
                proof {
                    assert forall|i: int| 0 <= i < spots@.len() implies exists|j: int| 0 <= j < k + 1 && #[trigger] spots@[i]
                        == cands@[j] by {
                        let j = choose|j: int| 0 <= j < k && #[trigger] spots@[i] == cands@[j];
                    }
                }
            }
        } else {
            proof {
                assert forall|i: int| 0 <= i < spots@.len() implies exists|j: int| 0 <= j < k + 1 && #[trigger] spots@[i]
                    == cands@[j] by {
                    let j = choose|j: int| 0 <= j < k && #[trigger] spots@[i] == cands@[j];
                }
            }
        }
        k += 1;
    }
    proof {
        assert(cands@.take(cands@.len() as int) =~= cands@);
    }
    if spots.len() < n {
        let mut found: Vec<(i32, i32)> = Vec::new();
        if search_spaced(&cands, n, 0, &mut found) {
            proof {
                lemma_search_shape(cands@, n as int, 0, Seq::empty());
                assert forall|x: int, y: int| 0 <= x < found@.len() && 0 <= y < found@.len() && x != y implies #[trigger] found@[x]
                    != #[trigger] found@[y] by {
                    crate::hexgrid::lemma_hex_dist_zero(found@[x]);
                }
                assert forall|i: int| 0 <= i < found@.len() implies cands@.contains(#[trigger] found@[i]) by {
                    assert(!Seq::<(i32, i32)>::empty().contains(found@[i]));
                }
            }
            found
        } else {
            spread_starts(cands, n)
        }
    } else {
        proof {
            assert forall|i: int| 0 <= i < spots@.len() implies cands@.contains(#[trigger] spots@[i]) by {
                let j = choose|j: int| 0 <= j < k && #[trigger] spots@[i] == cands@[j];
            }
        }
        spots
    }
}

/// Whether `c` lies at least `MIN_GAP` steps from every spot of `spots`.
fn far_from_spots(c: (i32, i32), spots: &Vec<(i32, i32)>) -> (b: bool)
    requires
        in_grid(64, 64, c),
        all_in_grid(64, 64, spots@),
    ensures
        b == far_from_all(c, spots@),
{
    let mut t: usize = 0;
    while t < spots.len()
        invariant
            all_in_grid(64, 64, spots@),
            in_grid(64, 64, c),
            t <= spots@.len(),
            forall|u: int| 0 <= u < t ==> hex_dist_spec(c, #[trigger] spots@[u]) >= MIN_GAP,
        decreases spots@.len() - t,
    {
        proof {
            assert(in_grid(64, 64, spots@[t as int]));
            lemma_dist_fits(c, spots@[t as int]);
        }
        if hex_dist(c, spots[t]) < MIN_GAP {
            return false;
        }
        t += 1;
    }
    true
}

/// Searches for `n` spots pairwise at least `MIN_GAP` steps apart, going on
/// from the spots in `chosen` with the candidates from position `k`, as
/// `spaced_search` describes. When it finds them, `chosen` holds them;
/// otherwise `chosen` is left as it was.
fn search_spaced(cands: &Vec<(i32, i32)>, n: usize, k: usize, chosen: &mut Vec<(i32, i32)>) -> (found: bool)
    requires
        all_in_grid(64, 64, cands@),
        k <= cands@.len(),
        all_in_grid(64, 64, old(chosen)@),
        old(chosen)@.len() <= n,
    ensures
        match spaced_search(cands@, n as int, k as int, old(chosen)@) {
            Some(s) => found && final(chosen)@ == s,
            None => !found && final(chosen)@ == old(chosen)@,
        },
    decreases cands@.len() - k,
{
    if chosen.len() >= n {
        return true;
    }
    if k >= cands.len() {
        return false;
    }
    let c = cands[k];
    proof {
        assert(in_grid(64, 64, cands@[k as int]));
    }
    if far_from_spots(c, chosen) {
        let ghost before = chosen@;
        chosen.push(c);
        proof {
            assert forall|i: int| 0 <= i < chosen@.len() implies in_grid(64, 64, #[trigger] chosen@[i]) by {
                if i < before.len() {
                    assert(chosen@[i] == before[i]);
                }
            }
        }
        if search_spaced(cands, n, k + 1, chosen) {
            return true;
        }
        chosen.pop();
        proof {
            assert(chosen@ =~= before);
        }
    }
    search_spaced(cands, n, k + 1, chosen)
}

/// The greedy spread of start spots: the last candidate first, then
/// repeatedly the first remaining candidate whose nearest spot is farthest.
pub fn spread_starts(cands: Vec<(i32, i32)>, n: usize) -> (spots: Vec<(i32, i32)>)
    requires
        n >= 1,
        all_in_grid(64, 64, cands@),
        distinct_hexes(cands@),
    ensures
        spots@.len() == if n < cands@.len() {
            n as int
        } else {
            cands@.len() as int
        },
        distinct_hexes(spots@),
        forall|i: int| 0 <= i < spots@.len() ==> cands@.contains(#[trigger] spots@[i]),
        spots@ == spread(cands@, n as int),
{
    let ghost c0 = cands@;
    let mut pool = cands;
    let mut spots: Vec<(i32, i32)> = Vec::new();
    if pool.len() > 0 {
        let first = pool.pop().unwrap();
        spots.push(first);
        proof {
            assert(spots@ + pool@ =~= seq![c0.last()] + c0.drop_last());
        }
    }
    proof {
        assert forall|x: int, y: int|
            0 <= x < (spots@ + pool@).len() && 0 <= y < (spots@ + pool@).len() && x != y implies #[trigger] (spots@
                + pool@)[x] != #[trigger] (spots@ + pool@)[y] by {
            let sp = spots@ + pool@;
            if c0.len() > 0 {
                let xx = if x == 0 { c0.len() - 1 } else { x - 1 };
                let yy = if y == 0 { c0.len() - 1 } else { y - 1 };
                assert(sp[x] == c0[xx]);
                assert(sp[y] == c0[yy]);
            }
        }
        assert forall|i: int| 0 <= i < (spots@ + pool@).len() implies c0.contains(#[trigger] (spots@ + pool@)[i]) by {
            let sp = spots@ + pool@;
            if c0.len() > 0 {
                let xx = if i == 0 { c0.len() - 1 } else { i - 1 };
                assert(sp[i] == c0[xx]);
            }
        }
    }
    while spots.len() < n && pool.len() > 0
        invariant
            n >= 1,
            spots@.len() + pool@.len() == c0.len(),
            c0.len() > 0 ==> spots@.len() >= 1,
            distinct_hexes(spots@ + pool@),
            forall|i: int| 0 <= i < (spots@ + pool@).len() ==> c0.contains(#[trigger] (spots@ + pool@)[i]),
            all_in_grid(64, 64, c0),
            spots@.len() <= n,
            spread(c0, n as int) == spread_from(spots@, pool@, n as int),
        decreases pool@.len(),
    {
        proof {
            assert forall|i: int| 0 <= i < pool@.len() implies in_grid(64, 64, #[trigger] pool@[i]) by {
                assert((spots@ + pool@)[spots@.len() + i] == pool@[i]);
                let k = choose|k: int| 0 <= k < c0.len() && c0[k] == pool@[i];
                assert(in_grid(64, 64, c0[k]));
            }
            assert forall|i: int| 0 <= i < spots@.len() implies in_grid(64, 64, #[trigger] spots@[i]) by {
                assert((spots@ + pool@)[i] == spots@[i]);
                let k = choose|k: int| 0 <= k < c0.len() && c0[k] == spots@[i];
                assert(in_grid(64, 64, c0[k]));
            }
        }
        let mut bi: usize = 0;
        let mut bd: i32 = -1;
        let mut i: usize = 0;
        while i < pool.len()
            invariant
                all_in_grid(64, 64, pool@),
                all_in_grid(64, 64, spots@),
                i <= pool@.len(),
                pool@.len() > 0,
                bi < pool@.len(),
                i == 0 ==> bd == -1 && bi == 0,
                i > 0 ==> bi < i && bd == min_dist(pool@[bi as int], spots@),
                forall|j: int| 0 <= j < i ==> min_dist(#[trigger] pool@[j], spots@) <= bd,
                forall|j: int| 0 <= j < bi ==> min_dist(#[trigger] pool@[j], spots@) < bd,
            decreases pool@.len() - i,
        {
            let c = pool[i];
            proof {
                assert(in_grid(64, 64, pool@[i as int]));
            }
            let mut d: i32 = 99;
            let mut t: usize = 0;
            while t < spots.len()
                invariant
                    all_in_grid(64, 64, spots@),
                    in_grid(64, 64, c),
                    t <= spots@.len(),
                    t == 0 ==> d == 99,
                    t > 0 ==> d == min_dist(c, spots@.take(t as int)),
                decreases spots@.len() - t,
            {
                proof {
                    assert(in_grid(64, 64, spots@[t as int]));
                    lemma_dist_fits(c, spots@[t as int]);
                    assert(spots@.take(t + 1).drop_last() =~= spots@.take(t as int));
                }
                let e = hex_dist(c, spots[t]);
                if t == 0 || e < d {
                    d = e;
                }
                t += 1;
            }
            proof {
                assert(spots@.take(spots@.len() as int) =~= spots@);
                lemma_min_dist_nonneg(c, spots@);
            }
            if d > bd {
                bd = d;
                bi = i;
            }
            i += 1;
        }
        let ghost sp0 = spots@;
        let ghost pl0 = pool@;
        proof {
            assert(is_farthest(sp0, pl0, bi as int));
            let ci = choose|ci: int| is_farthest(sp0, pl0, ci);
            lemma_farthest_unique(sp0, pl0, bi as int, ci);
        }
        let c = pool.remove(bi);
        spots.push(c);
        proof {
            let sp = spots@ + pool@;
            let old_all = sp0 + pl0;
            assert(sp.len() == old_all.len());
            // position map from the new order to the old
            assert forall|x: int| 0 <= x < sp.len() implies #[trigger] sp[x] == old_all[
                if x < sp0.len() {
                    x
                } else if x == sp0.len() {
                    sp0.len() + bi
                } else if x - sp0.len() - 1 < bi {
                    x - 1
                } else {
                    x
                }
            ] by {
                if x < sp0.len() {
                    assert(sp[x] == spots@[x]);
                } else if x == sp0.len() {
                    assert(sp[x] == c);
                } else {
                    let j = x - sp0.len() - 1;
                    assert(sp[x] == pool@[j]);
                    if j < bi {
                        assert(pool@[j] == pl0[j]);
                    } else {
                        assert(pool@[j] == pl0[j + 1]);
                    }
                }
            }
            assert forall|x: int, y: int| 0 <= x < sp.len() && 0 <= y < sp.len() && x != y implies #[trigger] sp[x]
                != #[trigger] sp[y] by {
                let fx = if x < sp0.len() {
                    x
                } else if x == sp0.len() {
                    sp0.len() + bi
                } else if x - sp0.len() - 1 < bi {
                    x - 1
                } else {
                    x
                };
                let fy = if y < sp0.len() {
                    y
                } else if y == sp0.len() {
                    sp0.len() + bi
                } else if y - sp0.len() - 1 < bi {
                    y - 1
                } else {
                    y
                };
                assert(sp[x] == old_all[fx]);
                assert(sp[y] == old_all[fy]);
            }
            assert forall|x: int| 0 <= x < sp.len() implies c0.contains(#[trigger] sp[x]) by {
                let fx = if x < sp0.len() {
                    x
                } else if x == sp0.len() {
                    sp0.len() + bi
                } else if x - sp0.len() - 1 < bi {
                    x - 1
                } else {
                    x
                };
                assert(sp[x] == old_all[fx]);
            }
        }
    }
    proof {
        assert forall|x: int, y: int| 0 <= x < spots@.len() && 0 <= y < spots@.len() && x != y implies #[trigger] spots@[x]
            != #[trigger] spots@[y] by {
            assert((spots@ + pool@)[x] == spots@[x]);
            assert((spots@ + pool@)[y] == spots@[y]);
        }
        assert forall|x: int| 0 <= x < spots@.len() implies c0.contains(#[trigger] spots@[x]) by {
            assert((spots@ + pool@)[x] == spots@[x]);
        }
    }
    spots
}

impl Game {
    /// A board fresh from setup: no men, castles, graves or spent marks;
    /// water is unowned and bare; owned land is bare and is exactly the
    /// start spots, spot `k` going to seat `k`.
    pub open spec fn fresh_board(&self) -> bool {
        &&& forall|i: int|
            0 <= i < self.grid@.len() ==> {
                let h = #[trigger] self.grid@[i];
                &&& h.unit == 0 && !h.acted && !h.castle && !h.grave
                &&& h.water ==> h.owner == -1 && h.tree is None
                &&& -1 <= h.owner < self.players@.len()
                &&& h.owner != -1 ==> h.tree is None
            }
        &&& distinct_hexes(self.starts@)
        &&& self.starts@.len() <= self.players@.len()
        &&& forall|k: int|
            0 <= k < self.starts@.len() ==> self.inside(#[trigger] self.starts@[k]) && !self.hex_at(self.starts@[k]).water
                && self.hex_at(self.starts@[k]).owner == k
        &&& forall|p: (i32, i32)|
            self.inside(p) && #[trigger] self.hex_at(p).owner != -1 ==> self.starts@.contains(p)
    }

    /// The first trees: each unowned land hex of `land` in turn gets a tree
    /// one time in ten; on the coast six of ten such trees are palms, the
    /// rest pines.
    fn plant_trees(&mut self, land: &Vec<(i32, i32)>)
        requires
            old(self).dims_ok(),
            all_in_grid(old(self).cols as int, old(self).rows as int, land@),
            forall|u: int| 0 <= u < land@.len() ==> !old(self).hex_at(#[trigger] land@[u]).water,
        ensures
            final(self).same_but_map(old(self)),
            final(self).arch == old(self).arch,
            final(self).starts@ == old(self).starts@,
            final(self).grid@.len() == old(self).grid@.len(),
            forall|i: int|
                0 <= i < final(self).grid@.len() ==> #[trigger] final(self).grid@[i] == old(self).grid@[i] || (
                old(self).grid@[i].owner == -1 && !old(self).grid@[i].water && final(self).grid@[i] == Hex {
                    tree: final(self).grid@[i].tree,
                    ..old(self).grid@[i]
                }),
            palms_on_coast(old(self)) ==> palms_on_coast(final(self)),
            forall|q: (i32, i32)|
                old(self).inside(q) && #[trigger] final(self).hex_at(q) != old(self).hex_at(q) ==> land@.contains(q)
                    && old(self).hex_at(q).owner == -1 && planted(old(self), q, final(self).hex_at(q)),
    {
        let ghost pre = *self;
        let mut k: usize = 0;
        while k < land.len()
            invariant
                self.dims_ok(),
                self.same_but_map(&pre),
                self.arch == pre.arch,
                self.starts@ == pre.starts@,
                self.grid@.len() == pre.grid@.len(),
                all_in_grid(self.cols as int, self.rows as int, land@),
                forall|u: int| 0 <= u < land@.len() ==> !pre.hex_at(#[trigger] land@[u]).water,
                k <= land@.len(),
                forall|i: int|
                    0 <= i < self.grid@.len() ==> #[trigger] self.grid@[i] == pre.grid@[i] || (pre.grid@[i].owner == -1
                        && !pre.grid@[i].water && self.grid@[i] == Hex { tree: self.grid@[i].tree, ..pre.grid@[i] }),
                palms_on_coast(&pre) ==> palms_on_coast(self),
                forall|q: (i32, i32)|
                    pre.inside(q) && #[trigger] self.hex_at(q) != pre.hex_at(q) ==> land@.contains(q)
                        && pre.hex_at(q).owner == -1 && planted(&pre, q, self.hex_at(q)),
            decreases land@.len() - k,
        {
            let p = land[k];
            let ghost head = *self;
            proof {
                assert(in_grid(self.cols as int, self.rows as int, land@[k as int]));
            }
            let i = cell(self.cols, self.rows, p);
            if self.grid[i].owner == -1 {
                let r = self.roll();
                if !chance_above(r, 1, 10) {
                    let nb = self.neighbours(p.0, p.1);
                    proof {
                        lemma_nbrs(self.cols as int, self.rows as int, p.0, p.1);
                    }
                    let mut coast = false;
                    let mut j: usize = 0;
                    while j < nb.len()
                        invariant
                            self.dims_ok(),
                            forall|u: int| 0 <= u < nb@.len() ==> in_grid(self.cols as int, self.rows as int, #[trigger] nb@[u]),
                            j <= nb@.len(),
                            coast ==> exists|u: int| 0 <= u < j && self.hex_at(#[trigger] nb@[u]).water,
                        decreases nb@.len() - j,
                    {
                        let q = nb[j];
                        proof {
                            assert(in_grid(self.cols as int, self.rows as int, nb@[j as int]));
                        }
                        if self.grid[cell(self.cols, self.rows, q)].water {
                            coast = true;
                        }
                        j += 1;
                    }
                    let r2 = if coast {
                        self.roll()
                    } else {
                        0
                    };
                    let palm = match first_tree(r, coast, r2) {
                        Some(Tree::Palm) => true,
                        _ => false,
                    };
                    let mut h = self.grid[i];
                    h.tree = Some(
                        if palm {
                            Tree::Palm
                        } else {
                            Tree::Pine
                        },
                    );
                    let ghost before = self.grid@;
                    let ghost bg = *self;
                    self.grid.set(i, h);
                    proof {
                        assert(!pre.hex_at(land@[k as int]).water);
                        if palms_on_coast(&pre) {
                            assert forall|q: (i32, i32)|
                                self.inside(q) && #[trigger] self.hex_at(q).tree == Some(Tree::Palm) implies exists|n: (i32, i32)|
                                    #[trigger] self.adj(q, n) && self.hex_at(n).water by {
                                lemma_ix_bounds(self.cols as int, self.rows as int, q);
                                if q == p {
                                    assert(palm);
                                    let u = choose|u: int| 0 <= u < j && bg.hex_at(#[trigger] nb@[u]).water;
                                    assert(nb@.contains(nb@[u]));
                                    let n = nb@[u];
                                    lemma_ix_bounds(self.cols as int, self.rows as int, n);
                                    assert(bg.grid@[ix(self.cols as int, n)].water == pre.grid@[ix(self.cols as int, n)].water);
                                    assert(self.grid@[ix(self.cols as int, n)].water == bg.grid@[ix(self.cols as int, n)].water);
                                    assert(self.adj(q, n));
                                } else {
                                    if ix(self.cols as int, q) == i as int {
                                        crate::hexgrid::lemma_ix_inj(self.cols as int, self.rows as int, q, p);
                                    }
                                    assert(bg.hex_at(q) == self.hex_at(q));
                                    assert(head.hex_at(q) == self.hex_at(q));
                                    let n = choose|n: (i32, i32)| #[trigger] head.adj(q, n) && head.hex_at(n).water;
                                    lemma_ix_bounds(self.cols as int, self.rows as int, n);
                                    assert(self.grid@[ix(self.cols as int, n)].water == head.grid@[ix(self.cols as int, n)].water);
                                    assert(self.adj(q, n));
                                }
                            }
                        }
                        assert forall|q: (i32, i32)|
                            pre.inside(q) && #[trigger] self.hex_at(q) != pre.hex_at(q) implies land@.contains(q)
                                && pre.hex_at(q).owner == -1 && planted(&pre, q, self.hex_at(q)) by {
                            lemma_ix_bounds(self.cols as int, self.rows as int, q);
                            if q == p {
                                assert(land@[k as int] == q);
                                let hp = before[i as int];
                                assert(hp == pre.grid@[i as int] || hp == Hex { tree: hp.tree, ..pre.grid@[i as int] });
                                assert(self.hex_at(q) == Hex { tree: h.tree, ..pre.hex_at(q) });
                                if palm {
                                    let u = choose|u: int| 0 <= u < j && bg.hex_at(#[trigger] nb@[u]).water;
                                    assert(nb@.contains(nb@[u]));
                                    let n = nb@[u];
                                    lemma_ix_bounds(self.cols as int, self.rows as int, n);
                                    assert(bg.grid@[ix(self.cols as int, n)].water == pre.grid@[ix(self.cols as int, n)].water);
                                    assert(pre.adj(q, n));
                                }
                            } else {
                                if ix(self.cols as int, q) == i as int {
                                    crate::hexgrid::lemma_ix_inj(self.cols as int, self.rows as int, q, p);
                                }
                                assert(head.hex_at(q) == self.hex_at(q));
                            }
                        }
                        assert forall|u: int| 0 <= u < self.grid@.len() implies #[trigger] self.grid@[u] == pre.grid@[u] || (
                        pre.grid@[u].owner == -1 && !pre.grid@[u].water && self.grid@[u] == Hex { tree: self.grid@[u].tree, ..pre.grid@[u] }) by {
                            if u != i as int {
                                assert(self.grid@[u] == before[u]);
                            } else {
                                assert(before[u] == pre.grid@[u] || (pre.grid@[u].owner == -1 && !pre.grid@[u].water && before[u] == Hex { tree: before[u].tree, ..pre.grid@[u] }));
                            }
                        }
                    }
                }
            }
            proof {
                if self.grid@ == head.grid@ {
                    if palms_on_coast(&pre) {
                        lemma_palms_same(&head, self);
                    }
                    assert forall|q: (i32, i32)| #[trigger] self.hex_at(q) == head.hex_at(q) by {}
                }
            }
            k += 1;
        }
    }

    /// Generates the island: kind and outline, land and sea, start spots
    /// owned by seat order, and the first trees.
    pub fn gen(&mut self)
        requires
            old(self).dims_ok(),
            old(self).players_ok(),
            gen_side_ok(old(self).cols as int),
            gen_side_ok(old(self).rows as int),
        ensures
            final(self).same_but_map(old(self)),
            Game::arch_generated(final(self).arch@),
            final(self).dims_ok(),
            final(self).fresh_board(),
            palms_on_coast(final(self)),
            one_piece(final(self).cols as int, final(self).rows as int, land_mask(final(self))),
            count_true(land_mask(final(self))) >= 25 || final(self).arch@ == "Isle"@,
            count_true(land_mask(final(self))) > 0,
            exists|c: Seq<(i32, i32)>|
                #[trigger] starts_for(c, final(self).players@.len() as int) == final(self).starts@ && distinct_hexes(c)
                    && (forall|p: (i32, i32)| c.contains(p) <==> final(self).inside(p) && !final(self).hex_at(p).water)
                    && final(self).starts@.len() == if final(self).players@.len() < c.len() {
                    final(self).players@.len() as int
                } else {
                    c.len() as int
                },
            (exists|w: Seq<(i32, i32)>| #[trigger] spaced_land(final(self), w) && w.len() == final(self).players@.len())
                ==> spaced(final(self).starts@),
            exists|kind: Seq<char>, tries: Seq<Draws>, last: Draws|
                #[trigger] land_drawn(
                    final(self).cols as int,
                    final(self).rows as int,
                    kind,
                    tries,
                    last,
                    final(self).arch@,
                    land_mask(final(self)),
                ),
    {
        let ghost pre = *self;
        let land = self.pick_land();
        let ghost a0 = self.arch;
        let ghost c = self.cols as int;
        let ghost r = self.rows as int;
        let n = land.len();
        let mut g: Vec<Hex> = Vec::new();
        let mut i: usize = 0;
        while i < n
            invariant
                i <= n,
                n == land@.len(),
                g@.len() == i,
                forall|j: int| 0 <= j < i ==> #[trigger] g@[j] == if land@[j] {
                    land_hex()
                } else {
                    sea_hex()
                },
            decreases n - i,
        {
            if land[i] {
                g.push(Hex::land());
            } else {
                g.push(Hex::sea());
            }
            i += 1;
        }
        self.grid = g;
        let hexes = mask_to_hexes(self.cols, self.rows, &land);
        proof {
            assert forall|x: int, y: int| 0 <= x < hexes@.len() && 0 <= y < hexes@.len() && x != y implies #[trigger] hexes@[x]
                != #[trigger] hexes@[y] by {
                if x < y {
                    assert(lex_lt(hexes@[x], hexes@[y]));
                } else {
                    assert(lex_lt(hexes@[y], hexes@[x]));
                }
            }
            assert forall|k: int| 0 <= k < hexes@.len() implies in_grid(64, 64, #[trigger] hexes@[k]) by {
                assert(in_grid(c, r, hexes@[k]));
            }
        }
        let np = self.players.len();
        let ghost hs = hexes@;
        let spots = self.choose_starts(hexes, np);
        let ghost cw = choose|cw: Seq<(i32, i32)>| #[trigger] rearranged(cw, hs) && spots@ == starts_for(cw, np as int);
        proof {
            assert forall|p: (i32, i32)| cw.contains(p) <==> hs.contains(p) by {
                if cw.contains(p) {
                    let k = choose|k: int| 0 <= k < cw.len() && cw[k] == p;
                    assert(hs.contains(cw[k]));
                }
                if hs.contains(p) {
                    let k = choose|k: int| 0 <= k < hs.len() && hs[k] == p;
                    assert(cw.contains(hs[k]));
                }
            }
        }
        let ghost painted = self.grid@;
        let mut k: usize = 0;
        while k < spots.len()
            invariant
                self.same_but_map(&pre),
                Game::arch_generated(self.arch@),
                self.arch == a0,
                count_true(land@) >= 25 || a0@ == "Isle"@,
                count_true(land@) > 0,
                one_piece(c, r, land@),
                self.dims_ok(),
                self.players_ok(),
                c == self.cols,
                r == self.rows,
                np == self.players@.len(),
                spots@.len() <= np,
                distinct_hexes(spots@),
                forall|u: int| 0 <= u < spots@.len() ==> #[trigger] mask_set(c, r, land@).contains(spots@[u]),
                land@.len() == c * r,
                painted.len() == c * r,
                forall|j: int| 0 <= j < c * r ==> #[trigger] painted[j] == if land@[j] {
                    land_hex()
                } else {
                    sea_hex()
                },
                self.grid@.len() == c * r,
                k <= spots@.len(),
                forall|u: int|
                    0 <= u < k ==> self.grid@[ix(c, #[trigger] spots@[u])] == (Hex {
                        owner: u as i8,
                        ..painted[ix(c, spots@[u])]
                    }),
                forall|j: int|
                    0 <= j < c * r && (forall|u: int| 0 <= u < k ==> ix(c, #[trigger] spots@[u]) != j) ==> #[trigger] self.grid@[j]
                        == painted[j],
            decreases spots@.len() - k,
        {
            let p = spots[k];
            proof {
                assert(mask_set(c, r, land@).contains(spots@[k as int]));
            }
            let i = cell(self.cols, self.rows, p);
            let mut h = self.grid[i];
            h.owner = self.players[k];
            let ghost before = self.grid@;
            self.grid.set(i, h);
            proof {
                assert(self.players@[k as int] == k as i8);
                assert(before[i as int] == painted[i as int]) by {
                    assert forall|u: int| 0 <= u < k implies ix(c, #[trigger] spots@[u]) != i as int by {
                        assert(spots@[u] != spots@[k as int]);
                        assert(mask_set(c, r, land@).contains(spots@[u]));
                        if ix(c, spots@[u]) == i as int {
                            crate::hexgrid::lemma_ix_inj(c, r, spots@[u], spots@[k as int]);
                        }
                    }
                }
                assert forall|u: int|
                    0 <= u < k + 1 implies self.grid@[ix(c, #[trigger] spots@[u])] == (Hex {
                        owner: u as i8,
                        ..painted[ix(c, spots@[u])]
                    }) by {
                    if u < k {
                        assert(spots@[u] != spots@[k as int]);
                        assert(mask_set(c, r, land@).contains(spots@[u]));
                        assert(mask_set(c, r, land@).contains(spots@[k as int]));
                        if ix(c, spots@[u]) == i as int {
                            crate::hexgrid::lemma_ix_inj(c, r, spots@[u], spots@[k as int]);
                        }
                        lemma_ix_bounds(c, r, spots@[u]);
                        assert(self.grid@[ix(c, spots@[u])] == before[ix(c, spots@[u])]);
                        assert(before[ix(c, spots@[u])] == (Hex { owner: u as i8, ..painted[ix(c, spots@[u])] }));
                    } else {
                        assert(spots@[u] == p);
                        assert(self.grid@[i as int] == h);
                        assert(h == (Hex { owner: u as i8, ..painted[i as int] }));
                    }
                }
                assert forall|j: int|
                    0 <= j < c * r && (forall|u: int| 0 <= u < k + 1 ==> ix(c, #[trigger] spots@[u]) != j) implies #[trigger] self.grid@[j]
                        == painted[j] by {
                    assert(ix(c, spots@[k as int]) != j);
                }
            }
            k += 1;
        }
        self.starts = spots;
        let ghost owned = self.grid@;
        let trees_at = mask_to_hexes(self.cols, self.rows, &land);
        proof {
            assert forall|u: int| 0 <= u < trees_at@.len() implies !self.hex_at(#[trigger] trees_at@[u]).water by {
                let q = trees_at@[u];
                assert(trees_at@.contains(q));
                lemma_ix_bounds(c, r, q);
                assert(painted[ix(c, q)].water == false);
                if exists|w: int| 0 <= w < self.starts@.len() && ix(c, #[trigger] self.starts@[w]) == ix(c, q) {
                    let w = choose|w: int| 0 <= w < self.starts@.len() && ix(c, #[trigger] self.starts@[w]) == ix(c, q);
                    assert(self.grid@[ix(c, self.starts@[w])] == Hex { owner: w as i8, ..painted[ix(c, self.starts@[w])] });
                }
            }
        }
        proof {
            assert forall|q: (i32, i32)|
                self.inside(q) && #[trigger] self.hex_at(q).tree == Some(Tree::Palm) implies exists|n: (i32, i32)|
                    #[trigger] self.adj(q, n) && self.hex_at(n).water by {
                lemma_ix_bounds(c, r, q);
                let i = ix(c, q);
                if exists|w: int| 0 <= w < self.starts@.len() && ix(c, #[trigger] self.starts@[w]) == i {
                    let w = choose|w: int| 0 <= w < self.starts@.len() && ix(c, #[trigger] self.starts@[w]) == i;
                    assert(owned[ix(c, self.starts@[w])] == Hex { owner: w as i8, ..painted[ix(c, self.starts@[w])] });
                } else {
                    assert(owned[i] == painted[i]);
                }
            }
        }
        self.plant_trees(&trees_at);
        proof {
            assert forall|i: int| 0 <= i < self.grid@.len() implies {
                let h = #[trigger] self.grid@[i];
                &&& h.unit == 0 && !h.acted && !h.castle && !h.grave
                &&& h.water ==> h.owner == -1 && h.tree is None
                &&& -1 <= h.owner < self.players@.len()
                &&& h.owner != -1 ==> h.tree is None
            } by {
                if exists|w: int| 0 <= w < self.starts@.len() && ix(c, #[trigger] self.starts@[w]) == i {
                    let w = choose|w: int| 0 <= w < self.starts@.len() && ix(c, #[trigger] self.starts@[w]) == i;
                    assert(owned[ix(c, self.starts@[w])] == Hex { owner: w as i8, ..painted[ix(c, self.starts@[w])] });
                    assert(mask_set(c, r, land@).contains(self.starts@[w]));
                } else {
                    assert(owned[i] == painted[i]);
                }
            }
            assert forall|k: int|
                0 <= k < self.starts@.len() implies self.inside(#[trigger] self.starts@[k]) && !self.hex_at(self.starts@[k]).water
                    && self.hex_at(self.starts@[k]).owner == k by {
                assert(mask_set(c, r, land@).contains(self.starts@[k]));
                lemma_ix_bounds(c, r, self.starts@[k]);
                assert(owned[ix(c, self.starts@[k])] == Hex { owner: k as i8, ..painted[ix(c, self.starts@[k])] });
            }
            assert forall|p: (i32, i32)| self.inside(p) && #[trigger] self.hex_at(p).owner != -1 implies self.starts@.contains(p) by {
                lemma_ix_bounds(c, r, p);
                if !(exists|w: int| 0 <= w < self.starts@.len() && ix(c, #[trigger] self.starts@[w]) == ix(c, p)) {
                    assert(owned[ix(c, p)] == painted[ix(c, p)]);
                } else {
                    let w = choose|w: int| 0 <= w < self.starts@.len() && ix(c, #[trigger] self.starts@[w]) == ix(c, p);
                    assert(mask_set(c, r, land@).contains(self.starts@[w]));
                    crate::hexgrid::lemma_ix_inj(c, r, self.starts@[w], p);
                }
            }
        }
        proof {
            assert forall|i: int| 0 <= i < c * r implies self.grid@[i].water == !land@[i] by {
                assert(self.grid@[i].water == owned[i].water);
                if exists|w: int| 0 <= w < self.starts@.len() && ix(c, #[trigger] self.starts@[w]) == i {
                    let w = choose|w: int| 0 <= w < self.starts@.len() && ix(c, #[trigger] self.starts@[w]) == i;
                    assert(owned[ix(c, self.starts@[w])] == Hex { owner: w as i8, ..painted[ix(c, self.starts@[w])] });
                } else {
                    assert(owned[i] == painted[i]);
                }
            }
            assert(land_mask(self) =~= land@);
            assert(cw.len() == hs.len());
            let (kind, tries, last) = choose|kind: Seq<char>, tries: Seq<Draws>, last: Draws|
                #[trigger] land_drawn(c, r, kind, tries, last, a0@, land@);
            assert(land_drawn(c, r, kind, tries, last, self.arch@, land_mask(self)));
        }
        proof {
            assert forall|p: (i32, i32)| cw.contains(p) <==> self.inside(p) && !self.hex_at(p).water by {
                if self.inside(p) {
                    lemma_ix_bounds(c, r, p);
                    let i = ix(c, p);
                    assert(self.grid@[i].water == owned[i].water);
                    if exists|w: int| 0 <= w < self.starts@.len() && ix(c, #[trigger] self.starts@[w]) == i {
                        let w = choose|w: int| 0 <= w < self.starts@.len() && ix(c, #[trigger] self.starts@[w]) == i;
                        assert(owned[ix(c, self.starts@[w])] == Hex { owner: w as i8, ..painted[ix(c, self.starts@[w])] });
                    } else {
                        assert(owned[i] == painted[i]);
                    }
                }
            }
            if exists|w: Seq<(i32, i32)>| #[trigger] spaced_land(self, w) && w.len() == self.players@.len() {
                let w = choose|w: Seq<(i32, i32)>| #[trigger] spaced_land(self, w) && w.len() == self.players@.len();
                assert forall|j: int| 0 <= j < w.len() implies cw.contains(#[trigger] w[j]) by {
                    assert(self.inside(w[j]) && !self.hex_at(w[j]).water);
                }
                lemma_starts_spaced(cw, np as int, w);
            }
        }
    }
}

} // verus!
