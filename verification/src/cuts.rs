//! Cuts: how a territory falls apart when one of its hexes is lost.
use crate::game::{lex_lt, sorted_hexes, terr_shape, Game};
use crate::hexgrid::{
    adjacent, in_grid, ix, lemma_closed_holds_reachable, lemma_ix_bounds, lemma_ix_inj,
    lemma_reachable_ends, lemma_reachable_symmetric, lemma_reachable_trans, mask_set, reachable,
};
use crate::territory::{blank_mask, board_ok, cell, flood};
use vstd::prelude::*;

verus! {

/// The hexes of `hs` other than `t`.
pub open spec fn without(hs: Seq<(i32, i32)>, t: (i32, i32)) -> Set<(i32, i32)> {
    Set::new(|q: (i32, i32)| hs.contains(q) && q != t)
}

/// `p` is the first hex, in (column, row) order, of its piece of `rest`.
pub open spec fn piece_root(cols: int, rows: int, rest: Set<(i32, i32)>, p: (i32, i32)) -> bool {
    &&& rest.contains(p)
    &&& forall|q: (i32, i32)|
        rest.contains(q) && #[trigger] reachable(cols, rows, rest, q, p) ==> !lex_lt(q, p)
}

/// How many hexes of `s` are the first hex of their piece of `rest`; over
/// all of `rest` this is its number of pieces.
pub open spec fn roots_in(cols: int, rows: int, rest: Set<(i32, i32)>, s: Seq<(i32, i32)>) -> nat
    decreases s.len(),
{
    if s.len() == 0 {
        0
    } else {
        roots_in(cols, rows, rest, s.drop_last()) + if piece_root(cols, rows, rest, s.last()) {
            1nat
        } else {
            0nat
        }
    }
}

/// `rest` is in more than one piece: two of its hexes cannot reach each other.
pub open spec fn broken(cols: int, rows: int, rest: Set<(i32, i32)>) -> bool {
    exists|a: (i32, i32), b: (i32, i32)|
        rest.contains(a) && rest.contains(b) && !#[trigger] reachable(cols, rows, rest, a, b)
}

/// The hexes among the first `k` of `hs` whose loss breaks the others apart.
pub open spec fn chokes_upto(cols: int, rows: int, hs: Seq<(i32, i32)>, k: int) -> Seq<(i32, i32)>
    decreases k,
{
    if k <= 0 {
        seq![]
    } else if broken(cols, rows, without(hs, hs[k - 1])) {
        chokes_upto(cols, rows, hs, k - 1).push(hs[k - 1])
    } else {
        chokes_upto(cols, rows, hs, k - 1)
    }
}

impl Game {
    /// Pieces the territory at `(tx, ty)` falls into once that hex is lost,
    /// when it belongs to `victim`; 1 otherwise.
    pub open spec fn pieces_spec(&self, tx: i32, ty: i32, victim: i8) -> int {
        match self.terr_of((tx, ty)) {
            Some(ti) => if self.terrs@[ti as int].owner == victim {
                roots_in(
                    self.cols as int,
                    self.rows as int,
                    without(self.terrs@[ti as int].hexes@, (tx, ty)),
                    self.terrs@[ti as int].hexes@,
                ) as int
            } else {
                1
            },
            None => 1,
        }
    }

    /// The choke hexes of territory `ti`: those whose loss would cut it, for
    /// territories of at least four hexes.
    pub open spec fn chokes_spec(&self, ti: int) -> Seq<(i32, i32)> {
        let hs = self.terrs@[ti].hexes@;
        if hs.len() < 4 {
            seq![]
        } else {
            chokes_upto(self.cols as int, self.rows as int, hs, hs.len() as int)
        }
    }
}

/// A grid mask marking the hexes of `hs` other than `t`.
fn rest_mask(cols: i32, rows: i32, hs: &Vec<(i32, i32)>, t: (i32, i32)) -> (m: Vec<bool>)
    requires
        board_ok(cols as int, rows as int),
        forall|i: int| 0 <= i < hs@.len() ==> in_grid(cols as int, rows as int, #[trigger] hs@[i]),
    ensures
        m@.len() == cols * rows,
        forall|q: (i32, i32)|
            in_grid(cols as int, rows as int, q) ==> (#[trigger] m@[ix(cols as int, q)] <==> without(
                hs@,
                t,
            ).contains(q)),
        mask_set(cols as int, rows as int, m@) == without(hs@, t),
{
    let ghost c = cols as int;
    let ghost r = rows as int;
    proof {
        assert(0 < c * r <= 64 * 64) by (nonlinear_arith)
            requires
                board_ok(c, r),
        ;
    }
    let n = (cols * rows) as usize;
    let mut m = blank_mask(n);
    proof {
        assert forall|q: (i32, i32)| in_grid(c, r, q) implies (#[trigger] m@[ix(c, q)] <==> exists|j: int|
            0 <= j < 0 && #[trigger] hs@[j] == q && q != t) by {
            lemma_ix_bounds(c, r, q);
        }
    }
    let mut i: usize = 0;
    while i < hs.len()
        invariant
            board_ok(c, r),
            c == cols,
            r == rows,
            n == c * r,
            i <= hs@.len(),
            m@.len() == n,
            forall|j: int| 0 <= j < hs@.len() ==> in_grid(c, r, #[trigger] hs@[j]),
            forall|q: (i32, i32)|
                in_grid(c, r, q) ==> (#[trigger] m@[ix(c, q)] <==> exists|j: int|
                    0 <= j < i && #[trigger] hs@[j] == q && q != t),
        decreases hs@.len() - i,
    {
        let p = hs[i];
        if !(p.0 == t.0 && p.1 == t.1) {
            let k = cell(cols, rows, p);
            m.set(k, true);
            proof {
                assert forall|q: (i32, i32)| in_grid(c, r, q) implies (#[trigger] m@[ix(c, q)] <==> exists|j: int|
                    0 <= j < i + 1 && #[trigger] hs@[j] == q && q != t) by {
                    lemma_ix_bounds(c, r, q);
                    if ix(c, q) == ix(c, p) {
                        lemma_ix_inj(c, r, p, q);
                        assert(hs@[i as int] == q);
                    }
                }
            }
        } else {
            proof {
                assert forall|q: (i32, i32)| in_grid(c, r, q) implies (#[trigger] m@[ix(c, q)] <==> exists|j: int|
                    0 <= j < i + 1 && #[trigger] hs@[j] == q && q != t) by {
                    if exists|j: int| 0 <= j < i + 1 && #[trigger] hs@[j] == q && q != t {
                        let j = choose|j: int| 0 <= j < i + 1 && #[trigger] hs@[j] == q && q != t;
                        assert(j < i);
                    }
                }
            }
        }
        i += 1;
    }
    proof {
        assert forall|q: (i32, i32)| in_grid(c, r, q) implies (#[trigger] m@[ix(c, q)] <==> without(
            hs@,
            t,
        ).contains(q)) by {
            if without(hs@, t).contains(q) {
                let j = choose|j: int| 0 <= j < hs@.len() && hs@[j] == q;
                assert(hs@[j] == q);
            }
        }
        assert forall|q: (i32, i32)| mask_set(c, r, m@).contains(q) <==> without(hs@, t).contains(q) by {
            if without(hs@, t).contains(q) {
                let j = choose|j: int| 0 <= j < hs@.len() && hs@[j] == q;
                assert(in_grid(c, r, hs@[j]));
            }
        }
        assert(mask_set(c, r, m@) =~= without(hs@, t));
    }
    m
}

/// The entrywise union of two masks of one length.
pub fn or_masks(a: &Vec<bool>, b: &Vec<bool>) -> (m: Vec<bool>)
    requires
        a@.len() == b@.len(),
    ensures
        m@.len() == a@.len(),
        forall|i: int| 0 <= i < m@.len() ==> #[trigger] m@[i] == (a@[i] || b@[i]),
{
    let mut m: Vec<bool> = Vec::new();
    let mut i: usize = 0;
    while i < a.len()
        invariant
            a@.len() == b@.len(),
            i <= a@.len(),
            m@.len() == i,
            forall|j: int| 0 <= j < i ==> #[trigger] m@[j] == (a@[j] || b@[j]),
        decreases a@.len() - i,
    {
        m.push(a[i] || b[i]);
        i += 1;
    }
    m
}

/// A sorted list places every hex that comes before `hs[k]` before index `k`.
pub proof fn lemma_sorted_before(hs: Seq<(i32, i32)>, k: int, q: (i32, i32))
    requires
        sorted_hexes(hs),
        0 <= k < hs.len(),
        hs.contains(q),
        lex_lt(q, hs[k]),
    ensures
        exists|j: int| 0 <= j < k && #[trigger] hs[j] == q,
{
    let j = choose|j: int| 0 <= j < hs.len() && hs[j] == q;
    if j >= k {
        if j > k {
            assert(lex_lt(hs[k], hs[j]));
        }
        assert(false);
    }
    assert(hs[j] == q);
}

/// The hexes a flood from `s` marks are exactly those reachable from `s`.
pub proof fn lemma_flood_exact(c: int, r: int, allowed: Seq<bool>, comp: Seq<bool>, s: (i32, i32))
    requires
        board_ok(c, r),
        in_grid(c, r, s),
        comp.len() == c * r,
        comp[ix(c, s)],
        forall|i: int| 0 <= i < comp.len() && #[trigger] comp[i] ==> allowed[i],
        forall|p: (i32, i32), q: (i32, i32)|
            in_grid(c, r, p) && #[trigger] comp[ix(c, p)] && adjacent(c, r, p, q) && #[trigger] allowed[ix(c, q)]
                ==> comp[ix(c, q)],
        forall|p: (i32, i32)|
            in_grid(c, r, p) && #[trigger] comp[ix(c, p)] ==> reachable(c, r, mask_set(c, r, allowed), s, p),
    ensures
        forall|q: (i32, i32)|
            in_grid(c, r, q) ==> (#[trigger] comp[ix(c, q)] <==> reachable(c, r, mask_set(c, r, allowed), s, q)),
{
    let a = mask_set(c, r, allowed);
    let x = mask_set(c, r, comp);
    assert forall|q: (i32, i32)| in_grid(c, r, q) implies (#[trigger] comp[ix(c, q)] <==> reachable(c, r, a, s, q)) by {
        if reachable(c, r, a, s, q) {
            assert forall|p: (i32, i32), q2: (i32, i32)|
                #[trigger] x.contains(p) && adjacent(c, r, p, q2) && a.contains(q2) implies #[trigger] x.contains(q2) by {
                assert(comp[ix(c, p)]);
                assert(allowed[ix(c, q2)]);
            }
            lemma_closed_holds_reachable(c, r, a, x, s, q);
        }
    }
}

/// `seen` marks exactly the hexes in the pieces of the first `k` hexes of `hs`.
pub open spec fn seen_ok(
    c: int,
    r: int,
    rest: Set<(i32, i32)>,
    hs: Seq<(i32, i32)>,
    k: int,
    seen: Seq<bool>,
) -> bool {
    forall|q: (i32, i32)|
        in_grid(c, r, q) ==> (#[trigger] seen[ix(c, q)] <==> exists|j: int|
            0 <= j < k && rest.contains(hs[j]) && #[trigger] reachable(c, r, rest, hs[j], q))
}

/// A hex outside `rest` adds no piece.
pub proof fn lemma_scan_skip(c: int, r: int, rest: Set<(i32, i32)>, hs: Seq<(i32, i32)>, k: int, seen: Seq<bool>)
    requires
        0 <= k < hs.len(),
        !rest.contains(hs[k]),
        seen_ok(c, r, rest, hs, k, seen),
    ensures
        seen_ok(c, r, rest, hs, k + 1, seen),
        !piece_root(c, r, rest, hs[k]),
{
    assert forall|q: (i32, i32)| in_grid(c, r, q) implies (#[trigger] seen[ix(c, q)] <==> exists|j: int|
        0 <= j < k + 1 && rest.contains(hs[j]) && #[trigger] reachable(c, r, rest, hs[j], q)) by {
        if exists|j: int| 0 <= j < k + 1 && rest.contains(hs[j]) && #[trigger] reachable(c, r, rest, hs[j], q) {
            let j = choose|j: int| 0 <= j < k + 1 && rest.contains(hs[j]) && #[trigger] reachable(c, r, rest, hs[j], q);
            assert(j < k);
        }
    }
}

/// A hex already in a marked piece is not the first of its piece.
pub proof fn lemma_scan_seen(c: int, r: int, rest: Set<(i32, i32)>, hs: Seq<(i32, i32)>, k: int, seen: Seq<bool>)
    requires
        sorted_hexes(hs),
        0 <= k < hs.len(),
        in_grid(c, r, hs[k]),
        rest.contains(hs[k]),
        seen[ix(c, hs[k])],
        seen_ok(c, r, rest, hs, k, seen),
    ensures
        seen_ok(c, r, rest, hs, k + 1, seen),
        !piece_root(c, r, rest, hs[k]),
{
    let p = hs[k];
    let j0 = choose|j: int| 0 <= j < k && rest.contains(hs[j]) && #[trigger] reachable(c, r, rest, hs[j], p);
    assert(lex_lt(hs[j0], hs[k]));
    assert forall|q: (i32, i32)| in_grid(c, r, q) implies (#[trigger] seen[ix(c, q)] <==> exists|j: int|
        0 <= j < k + 1 && rest.contains(hs[j]) && #[trigger] reachable(c, r, rest, hs[j], q)) by {
        if exists|j: int| 0 <= j < k + 1 && rest.contains(hs[j]) && #[trigger] reachable(c, r, rest, hs[j], q) {
            let j = choose|j: int| 0 <= j < k + 1 && rest.contains(hs[j]) && #[trigger] reachable(c, r, rest, hs[j], q);
            if j == k {
                lemma_reachable_trans(c, r, rest, hs[j0], p, q);
                assert(reachable(c, r, rest, hs[j0], q));
            }
        }
    }
}

/// A hex not yet marked opens a new piece, which the flood from it marks.
pub proof fn lemma_scan_new(
    c: int,
    r: int,
    rest: Set<(i32, i32)>,
    hs: Seq<(i32, i32)>,
    k: int,
    seen: Seq<bool>,
    comp: Seq<bool>,
    next: Seq<bool>,
)
    requires
        board_ok(c, r),
        sorted_hexes(hs),
        0 <= k < hs.len(),
        forall|q: (i32, i32)| #[trigger] rest.contains(q) ==> hs.contains(q),
        in_grid(c, r, hs[k]),
        rest.contains(hs[k]),
        !seen[ix(c, hs[k])],
        seen_ok(c, r, rest, hs, k, seen),
        seen.len() == c * r,
        comp.len() == c * r,
        next.len() == c * r,
        forall|q: (i32, i32)| in_grid(c, r, q) ==> (#[trigger] comp[ix(c, q)] <==> reachable(c, r, rest, hs[k], q)),
        forall|i: int| 0 <= i < next.len() ==> #[trigger] next[i] == (seen[i] || comp[i]),
    ensures
        seen_ok(c, r, rest, hs, k + 1, next),
        piece_root(c, r, rest, hs[k]),
{
    let p = hs[k];
    assert forall|q: (i32, i32)| rest.contains(q) && #[trigger] reachable(c, r, rest, q, p) implies !lex_lt(q, p) by {
        if lex_lt(q, p) {
            lemma_sorted_before(hs, k, q);
            let j = choose|j: int| 0 <= j < k && #[trigger] hs[j] == q;
            assert(reachable(c, r, rest, hs[j], p));
        }
    }
    assert forall|q: (i32, i32)| in_grid(c, r, q) implies (#[trigger] next[ix(c, q)] <==> exists|j: int|
        0 <= j < k + 1 && rest.contains(hs[j]) && #[trigger] reachable(c, r, rest, hs[j], q)) by {
        lemma_ix_bounds(c, r, q);
        if comp[ix(c, q)] {
            assert(reachable(c, r, rest, hs[k], q));
        }
        if exists|j: int| 0 <= j < k + 1 && rest.contains(hs[j]) && #[trigger] reachable(c, r, rest, hs[j], q) {
            let j = choose|j: int| 0 <= j < k + 1 && rest.contains(hs[j]) && #[trigger] reachable(c, r, rest, hs[j], q);
            if j == k {
                assert(comp[ix(c, q)]);
            } else {
                assert(seen[ix(c, q)]);
            }
        }
    }
}

/// Number of pieces of the hexes of `hs` other than `t`.
fn count_pieces(cols: i32, rows: i32, hs: &Vec<(i32, i32)>, t: (i32, i32)) -> (n: usize)
    requires
        board_ok(cols as int, rows as int),
        sorted_hexes(hs@),
        forall|i: int| 0 <= i < hs@.len() ==> in_grid(cols as int, rows as int, #[trigger] hs@[i]),
    ensures
        n == roots_in(cols as int, rows as int, without(hs@, t), hs@),
        n <= hs@.len(),
{
    let ghost c = cols as int;
    let ghost r = rows as int;
    let allowed = rest_mask(cols, rows, hs, t);
    let ghost rest = without(hs@, t);
    proof {
        assert(0 < c * r <= 64 * 64) by (nonlinear_arith)
            requires
                board_ok(c, r),
        ;
        assert forall|q: (i32, i32)| #[trigger] rest.contains(q) implies in_grid(c, r, q) && hs@.contains(q) by {
            let j = choose|j: int| 0 <= j < hs@.len() && hs@[j] == q;
            assert(in_grid(c, r, hs@[j]));
        }
    }
    let n = (cols * rows) as usize;
    let mut seen = blank_mask(n);
    proof {
        assert forall|q: (i32, i32)| in_grid(c, r, q) implies (#[trigger] seen@[ix(c, q)] <==> exists|j: int|
            0 <= j < 0 && rest.contains(hs@[j]) && #[trigger] reachable(c, r, rest, hs@[j], q)) by {
            lemma_ix_bounds(c, r, q);
        }
    }
    let mut count: usize = 0;
    let mut k: usize = 0;
    while k < hs.len()
        invariant
            board_ok(c, r),
            c == cols,
            r == rows,
            n == c * r,
            rest == without(hs@, t),
            forall|q: (i32, i32)| #[trigger] rest.contains(q) ==> in_grid(c, r, q) && hs@.contains(q),
            allowed@.len() == n,
            mask_set(c, r, allowed@) == rest,
            forall|q: (i32, i32)|
                in_grid(c, r, q) ==> (#[trigger] allowed@[ix(c, q)] <==> rest.contains(q)),
            sorted_hexes(hs@),
            forall|j: int| 0 <= j < hs@.len() ==> in_grid(c, r, #[trigger] hs@[j]),
            k <= hs@.len(),
            seen@.len() == n,
            count <= k,
            count == roots_in(c, r, rest, hs@.take(k as int)),
            seen_ok(c, r, rest, hs@, k as int, seen@),
        decreases hs@.len() - k,
    {
        let p = hs[k];
        let ghost kk = k as int;
        proof {
            assert(hs@.take(kk + 1).drop_last() =~= hs@.take(kk));
            assert(hs@.take(kk + 1).last() == p);
            assert(hs@[kk] == p);
        }
        if !(p.0 == t.0 && p.1 == t.1) {
            let ip = cell(cols, rows, p);
            proof {
                assert(hs@.contains(p));
                assert(rest.contains(p));
            }
            if !seen[ip] {
                let comp = flood(cols, rows, &allowed, p);
                proof {
                    lemma_flood_exact(c, r, allowed@, comp@, p);
                }
                let next = or_masks(&seen, &comp);
                proof {
                    lemma_scan_new(c, r, rest, hs@, kk, seen@, comp@, next@);
                }
                seen = next;
                count += 1;
            } else {
                proof {
                    lemma_scan_seen(c, r, rest, hs@, kk, seen@);
                }
            }
        } else {
            proof {
                assert(!rest.contains(p));
                lemma_scan_skip(c, r, rest, hs@, kk, seen@);
            }
        }
        k += 1;
    }
    proof {
        assert(hs@.take(hs@.len() as int) =~= hs@);
    }
    count
}

impl Game {
    /// Into how many pieces the territory at `(tx, ty)` falls when that hex
    /// is lost, if `victim` owns it: 0 when nothing is left, 1 when it stays
    /// whole. A hex outside `victim`'s land counts as 1.
    pub fn split_pieces(&self, tx: i32, ty: i32, victim: i8) -> (n: usize)
        requires
            self.wf(),
        ensures
            n == self.pieces_spec(tx, ty, victim),
            n <= 4096,
    {
        proof {
            self.lemma_wf_sizes();
        }
        let ti = match self.terr_at(tx, ty) {
            Some(i) => i,
            None => {
                return 1;
            },
        };
        if self.terrs[ti].owner != victim {
            return 1;
        }
        proof {
            assert(terr_shape(self.cols as int, self.rows as int, self.players@.len() as int, self.terrs@[ti as int]));
        }
        count_pieces(self.cols, self.rows, &self.terrs[ti].hexes, (tx, ty))
    }
}

/// Whether losing `hs[k]` breaks the other hexes of `hs` apart.
fn breaks_at(cols: i32, rows: i32, hs: &Vec<(i32, i32)>, k: usize) -> (b: bool)
    requires
        board_ok(cols as int, rows as int),
        sorted_hexes(hs@),
        forall|i: int| 0 <= i < hs@.len() ==> in_grid(cols as int, rows as int, #[trigger] hs@[i]),
        2 <= hs@.len(),
        k < hs@.len(),
    ensures
        b == broken(cols as int, rows as int, without(hs@, hs@[k as int])),
{
    let ghost c = cols as int;
    let ghost r = rows as int;
    let p = hs[k];
    let allowed = rest_mask(cols, rows, hs, p);
    let ghost rest = without(hs@, p);
    let s = if k == 0 {
        hs[1]
    } else {
        hs[0]
    };
    proof {
        if k == 0 {
            assert(lex_lt(hs@[0], hs@[1]));
            assert(hs@[1] == s);
        } else {
            assert(lex_lt(hs@[0], hs@[k as int]));
            assert(hs@[0] == s);
        }
        assert(hs@.contains(s));
        assert(rest.contains(s));
        assert forall|q: (i32, i32)| #[trigger] rest.contains(q) implies in_grid(c, r, q) by {
            let j = choose|j: int| 0 <= j < hs@.len() && hs@[j] == q;
            assert(in_grid(c, r, hs@[j]));
        }
    }
    let comp = flood(cols, rows, &allowed, s);
    proof {
        lemma_flood_exact(c, r, allowed@, comp@, s);
    }
    let mut j: usize = 0;
    while j < hs.len()
        invariant
            board_ok(c, r),
            c == cols,
            r == rows,
            sorted_hexes(hs@),
            forall|i: int| 0 <= i < hs@.len() ==> in_grid(c, r, #[trigger] hs@[i]),
            j <= hs@.len(),
            k < hs@.len(),
            p == hs@[k as int],
            rest == without(hs@, p),
            rest.contains(s),
            forall|q: (i32, i32)| #[trigger] rest.contains(q) ==> in_grid(c, r, q),
            mask_set(c, r, allowed@) == rest,
            comp@.len() == c * r,
            forall|q: (i32, i32)| in_grid(c, r, q) ==> (#[trigger] comp@[ix(c, q)] <==> reachable(c, r, rest, s, q)),
            forall|i: int| 0 <= i < j && i != k ==> #[trigger] reachable(c, r, rest, s, hs@[i]),
        decreases hs@.len() - j,
    {
        if j != k {
            let q = hs[j];
            let iq = cell(cols, rows, q);
            if !comp[iq] {
                proof {
                    if q == p {
                        if (j as int) < (k as int) {
                            assert(lex_lt(hs@[j as int], hs@[k as int]));
                        } else {
                            assert(lex_lt(hs@[k as int], hs@[j as int]));
                        }
                    }
                    assert(hs@[j as int] == q);
                    assert(rest.contains(q));
                    assert(!reachable(c, r, rest, s, q));
                }
                return true;
            }
        }
        j += 1;
    }
    proof {
        assert forall|a: (i32, i32), b2: (i32, i32)|
            rest.contains(a) && rest.contains(b2) implies #[trigger] reachable(c, r, rest, a, b2) by {
            let ia = choose|i: int| 0 <= i < hs@.len() && hs@[i] == a;
            let ib = choose|i: int| 0 <= i < hs@.len() && hs@[i] == b2;
            assert(reachable(c, r, rest, s, hs@[ia]));
            assert(reachable(c, r, rest, s, hs@[ib]));
            lemma_reachable_symmetric(c, r, rest, s, a);
            lemma_reachable_trans(c, r, rest, a, s, b2);
        }
    }
    false
}

impl Game {
    /// The hexes of territory `ti` whose loss would cut it in two; none for
    /// territories of fewer than four hexes.
    pub fn choke_hexes(&self, ti: usize) -> (out: Vec<(i32, i32)>)
        requires
            self.wf(),
            ti < self.terrs@.len(),
        ensures
            out@ == self.chokes_spec(ti as int),
    {
        let ghost c = self.cols as int;
        let ghost r = self.rows as int;
        let hs = &self.terrs[ti].hexes;
        let mut out: Vec<(i32, i32)> = Vec::new();
        if hs.len() < 4 {
            return out;
        }
        proof {
            assert(terr_shape(c, r, self.players@.len() as int, self.terrs@[ti as int]));
        }
        let mut k: usize = 0;
        while k < hs.len()
            invariant
                board_ok(c, r),
                c == self.cols,
                r == self.rows,
                hs@ == self.terrs@[ti as int].hexes@,
                sorted_hexes(hs@),
                forall|i: int| 0 <= i < hs@.len() ==> in_grid(c, r, #[trigger] hs@[i]),
                4 <= hs@.len(),
                k <= hs@.len(),
                out@ == chokes_upto(c, r, hs@, k as int),
            decreases hs@.len() - k,
        {
            if breaks_at(self.cols, self.rows, hs, k) {
                out.push(hs[k]);
            }
            k += 1;
        }
        out
    }
}

/// The hexes among the first `k` of a sorted list that break the rest apart
/// are listed in order, each exactly when its loss breaks the rest.
proof fn lemma_chokes_upto(cols: int, rows: int, hs: Seq<(i32, i32)>, k: int)
    requires
        sorted_hexes(hs),
        0 <= k <= hs.len(),
    ensures
        sorted_hexes(chokes_upto(cols, rows, hs, k)),
        forall|j: int|
            0 <= j < chokes_upto(cols, rows, hs, k).len() ==> exists|i: int|
                0 <= i < k && hs[i] == #[trigger] chokes_upto(cols, rows, hs, k)[j],
        forall|p: (i32, i32)|
            #[trigger] chokes_upto(cols, rows, hs, k).contains(p) <==> (exists|i: int| 0 <= i < k && hs[i] == p) && broken(
                cols,
                rows,
                without(hs, p),
            ),
    decreases k,
{
    if k > 0 {
        lemma_chokes_upto(cols, rows, hs, k - 1);
        let prev = chokes_upto(cols, rows, hs, k - 1);
        let cur = chokes_upto(cols, rows, hs, k);
        let last = hs[k - 1];
        if broken(cols, rows, without(hs, last)) {
            assert(cur == prev.push(last));
            assert forall|a: int, b: int| 0 <= a < b < cur.len() implies lex_lt(#[trigger] cur[a], #[trigger] cur[b]) by {
                if b == cur.len() - 1 {
                    let i = choose|i: int| 0 <= i < k - 1 && hs[i] == #[trigger] prev[a];
                    assert(cur[a] == prev[a]);
                } else {
                    assert(cur[a] == prev[a] && cur[b] == prev[b]);
                }
            }
            assert forall|j: int| 0 <= j < cur.len() implies exists|i: int| 0 <= i < k && hs[i] == #[trigger] cur[j] by {
                if j < prev.len() {
                    assert(cur[j] == prev[j]);
                    let i = choose|i: int| 0 <= i < k - 1 && hs[i] == #[trigger] prev[j];
                } else {
                    assert(hs[k - 1] == cur[j]);
                }
            }
            assert forall|p: (i32, i32)|
                #[trigger] cur.contains(p) <==> (exists|i: int| 0 <= i < k && hs[i] == p) && broken(cols, rows, without(hs, p)) by {
                if cur.contains(p) {
                    let j = choose|j: int| 0 <= j < cur.len() && cur[j] == p;
                    if j < prev.len() {
                        assert(prev[j] == p);
                        assert(prev.contains(p));
                    }
                }
                if (exists|i: int| 0 <= i < k && hs[i] == p) && broken(cols, rows, without(hs, p)) {
                    let i = choose|i: int| 0 <= i < k && hs[i] == p;
                    if i < k - 1 {
                        assert(prev.contains(p));
                        let j = choose|j: int| 0 <= j < prev.len() && prev[j] == p;
                        assert(cur[j] == p);
                    } else {
                        assert(cur[cur.len() - 1] == p);
                    }
                }
            }
        } else {
            assert(cur == prev);
            assert forall|j: int| 0 <= j < cur.len() implies exists|i: int| 0 <= i < k && hs[i] == #[trigger] cur[j] by {
                let i = choose|i: int| 0 <= i < k - 1 && hs[i] == #[trigger] prev[j];
            }
            assert forall|p: (i32, i32)|
                #[trigger] cur.contains(p) <==> (exists|i: int| 0 <= i < k && hs[i] == p) && broken(cols, rows, without(hs, p)) by {
                if (exists|i: int| 0 <= i < k && hs[i] == p) && broken(cols, rows, without(hs, p)) {
                    let i = choose|i: int| 0 <= i < k && hs[i] == p;
                    if i == k - 1 {
                        assert(p == last);
                    }
                }
            }
        }
    }
}

impl Game {
    /// The choke hexes of a territory of at least four hexes are listed in
    /// (column, row) order, and a hex is among them exactly when it belongs
    /// to the territory and the other hexes no longer hang together without
    /// it; smaller territories have none.
    pub proof fn lemma_chokes_exact(&self, ti: int)
        requires
            self.wf(),
            0 <= ti < self.terrs@.len(),
        ensures
            sorted_hexes(self.chokes_spec(ti)),
            self.terrs@[ti].hexes@.len() < 4 ==> self.chokes_spec(ti).len() == 0,
            self.terrs@[ti].hexes@.len() >= 4 ==> forall|p: (i32, i32)|
                #[trigger] self.chokes_spec(ti).contains(p) <==> self.terrs@[ti].hexes@.contains(p) && broken(
                    self.cols as int,
                    self.rows as int,
                    without(self.terrs@[ti].hexes@, p),
                ),
    {
        let hs = self.terrs@[ti].hexes@;
        assert(terr_shape(self.cols as int, self.rows as int, self.players@.len() as int, self.terrs@[ti]));
        if hs.len() >= 4 {
            lemma_chokes_upto(self.cols as int, self.rows as int, hs, hs.len() as int);
            assert forall|p: (i32, i32)| #[trigger] hs.contains(p) <==> exists|i: int| 0 <= i < hs.len() && hs[i] == p by {}
        }
    }
}

/// A first hex of some piece lies among the listed ones when they count one.
proof fn lemma_root_of_count(cols: int, rows: int, rest: Set<(i32, i32)>, s: Seq<(i32, i32)>)
    requires
        roots_in(cols, rows, rest, s) >= 1,
    ensures
        exists|i: int| 0 <= i < s.len() && #[trigger] piece_root(cols, rows, rest, s[i]),
    decreases s.len(),
{
    if !piece_root(cols, rows, rest, s.last()) {
        lemma_root_of_count(cols, rows, rest, s.drop_last());
        let i = choose|i: int| 0 <= i < s.drop_last().len() && #[trigger] piece_root(cols, rows, rest, s.drop_last()[i]);
        assert(s[i] == s.drop_last()[i]);
    } else {
        assert(piece_root(cols, rows, rest, s[s.len() - 1]));
    }
}

/// Two first hexes of pieces lie among the listed ones when they count two.
proof fn lemma_roots_of_count(cols: int, rows: int, rest: Set<(i32, i32)>, s: Seq<(i32, i32)>)
    requires
        roots_in(cols, rows, rest, s) >= 2,
    ensures
        exists|i: int, j: int|
            0 <= i < j < s.len() && #[trigger] piece_root(cols, rows, rest, s[i]) && #[trigger] piece_root(
                cols,
                rows,
                rest,
                s[j],
            ),
    decreases s.len(),
{
    let d = s.drop_last();
    if roots_in(cols, rows, rest, d) >= 2 {
        lemma_roots_of_count(cols, rows, rest, d);
        let (i, j) = choose|i: int, j: int|
            0 <= i < j < d.len() && #[trigger] piece_root(cols, rows, rest, d[i]) && #[trigger] piece_root(cols, rows, rest, d[j]);
        assert(s[i] == d[i] && s[j] == d[j]);
    } else {
        lemma_root_of_count(cols, rows, rest, d);
        let i = choose|i: int| 0 <= i < d.len() && #[trigger] piece_root(cols, rows, rest, d[i]);
        assert(s[i] == d[i]);
        assert(piece_root(cols, rows, rest, s[s.len() - 1]));
    }
}

/// Listed first hexes are counted.
proof fn lemma_count_of_roots(cols: int, rows: int, rest: Set<(i32, i32)>, s: Seq<(i32, i32)>, i: int, j: int)
    requires
        -1 <= i < j < s.len(),
        i >= 0 ==> piece_root(cols, rows, rest, s[i]),
        piece_root(cols, rows, rest, s[j]),
    ensures
        roots_in(cols, rows, rest, s) >= if i >= 0 {
            2int
        } else {
            1int
        },
    decreases s.len(),
{
    let d = s.drop_last();
    if j < s.len() - 1 {
        assert(d[j] == s[j]);
        if i >= 0 {
            assert(d[i] == s[i]);
        }
        lemma_count_of_roots(cols, rows, rest, d, i, j);
    } else if i >= 0 {
        assert(d[i] == s[i]);
        lemma_count_of_roots(cols, rows, rest, d, -1, i);
    }
}

/// The first listed hex that reaches `a` is the first hex of its piece.
proof fn lemma_first_reacher(cols: int, rows: int, hs: Seq<(i32, i32)>, t: (i32, i32), a: (i32, i32), k: int)
    requires
        sorted_hexes(hs),
        forall|i: int| 0 <= i < hs.len() ==> in_grid(cols, rows, #[trigger] hs[i]),
        0 <= k <= hs.len(),
        forall|i: int| 0 <= i < k ==> !#[trigger] reachable(cols, rows, without(hs, t), hs[i], a),
        exists|i: int| k <= i < hs.len() && #[trigger] reachable(cols, rows, without(hs, t), hs[i], a),
    ensures
        exists|i: int|
            0 <= i < hs.len() && #[trigger] piece_root(cols, rows, without(hs, t), hs[i]) && reachable(
                cols,
                rows,
                without(hs, t),
                hs[i],
                a,
            ),
    decreases hs.len() - k,
{
    let rest = without(hs, t);
    if reachable(cols, rows, rest, hs[k], a) {
        lemma_reachable_ends(cols, rows, rest, hs[k], a);
        assert forall|q: (i32, i32)| rest.contains(q) && #[trigger] reachable(cols, rows, rest, q, hs[k]) implies !lex_lt(
            q,
            hs[k],
        ) by {
            lemma_reachable_trans(cols, rows, rest, q, hs[k], a);
            assert(hs.contains(q));
            let i = choose|i: int| 0 <= i < hs.len() && hs[i] == q;
            if i < k {
                assert(!reachable(cols, rows, rest, hs[i], a));
            } else if i > k {
                assert(lex_lt(hs[k], hs[i]));
            }
        }
        assert(piece_root(cols, rows, rest, hs[k]));
    } else {
        lemma_first_reacher(cols, rows, hs, t, a, k + 1);
    }
}

impl Game {
    /// Losing hex `p` of a territory of seat `o` cuts it into two or more
    /// pieces exactly when the territory's other hexes no longer hang
    /// together.
    pub proof fn lemma_pieces_iff_broken(&self, ti: int, p: (i32, i32))
        requires
            self.wf(),
            0 <= ti < self.terrs@.len(),
            self.terrs@[ti].hexes@.contains(p),
        ensures
            self.pieces_spec(p.0, p.1, self.terrs@[ti].owner) >= 2 <==> broken(
                self.cols as int,
                self.rows as int,
                without(self.terrs@[ti].hexes@, p),
            ),
    {
        let c = self.cols as int;
        let r = self.rows as int;
        let hs = self.terrs@[ti].hexes@;
        let rest = without(hs, p);
        self.lemma_member(ti, p);
        assert(terr_shape(c, r, self.players@.len() as int, self.terrs@[ti]));
        assert(self.pieces_spec(p.0, p.1, self.terrs@[ti].owner) == roots_in(c, r, rest, hs) as int);
        assert forall|q: (i32, i32)| #[trigger] rest.contains(q) implies in_grid(c, r, q) by {
            let i = choose|i: int| 0 <= i < hs.len() && hs[i] == q;
        }
        if roots_in(c, r, rest, hs) >= 2 {
            lemma_roots_of_count(c, r, rest, hs);
            let (i, j) = choose|i: int, j: int|
                0 <= i < j < hs.len() && #[trigger] piece_root(c, r, rest, hs[i]) && #[trigger] piece_root(c, r, rest, hs[j]);
            assert(lex_lt(hs[i], hs[j]));
            if reachable(c, r, rest, hs[i], hs[j]) {
                lemma_reachable_symmetric(c, r, rest, hs[i], hs[j]);
                assert(!lex_lt(hs[i], hs[j]));
            }
            assert(!reachable(c, r, rest, hs[i], hs[j]));
        }
        if broken(c, r, rest) {
            let (a, b) = choose|a: (i32, i32), b: (i32, i32)|
                rest.contains(a) && rest.contains(b) && !#[trigger] reachable(c, r, rest, a, b);
            let ia = choose|i: int| 0 <= i < hs.len() && hs[i] == a;
            let ib = choose|i: int| 0 <= i < hs.len() && hs[i] == b;
            let wa = seq![a];
            assert(crate::hexgrid::is_walk(c, r, rest, wa));
            assert(reachable(c, r, rest, hs[ia], a));
            let wb = seq![b];
            assert(crate::hexgrid::is_walk(c, r, rest, wb));
            assert(reachable(c, r, rest, hs[ib], b));
            lemma_first_reacher(c, r, hs, p, a, 0);
            lemma_first_reacher(c, r, hs, p, b, 0);
            let x = choose|i: int| 0 <= i < hs.len() && #[trigger] piece_root(c, r, rest, hs[i]) && reachable(c, r, rest, hs[i], a);
            let y = choose|i: int| 0 <= i < hs.len() && #[trigger] piece_root(c, r, rest, hs[i]) && reachable(c, r, rest, hs[i], b);
            if x == y {
                lemma_reachable_symmetric(c, r, rest, hs[x], a);
                lemma_reachable_trans(c, r, rest, a, hs[x], b);
            }
            if x < y {
                lemma_count_of_roots(c, r, rest, hs, x, y);
            } else if y < x {
                lemma_count_of_roots(c, r, rest, hs, y, x);
            }
        }
    }
}

} // verus!
