//! The computer opponents: what they look at and the moves they make.
use crate::cuts::without;
use crate::economy::lemma_savings_le_total;
use crate::game::{terr_indices, terr_shape, total_gold, Game, Terr};
use crate::hexgrid::{adjacent, fits_i32, in_grid, ix, lemma_ix_bounds, lemma_nbrs, nbrs};
use crate::rules::wage_spec;
use crate::territory::board_ok;
use vstd::prelude::*;

verus! {

/// Every listed index is a territory of owner `o`, and every territory of
/// `o` is listed.
pub proof fn lemma_terr_indices(ts: Seq<Terr>, o: i8)
    requires
        ts.len() <= usize::MAX,
    ensures
        forall|k: int|
            0 <= k < terr_indices(ts, o).len() ==> (#[trigger] terr_indices(ts, o)[k]) < ts.len()
                && ts[terr_indices(ts, o)[k] as int].owner == o,
        forall|i: int| 0 <= i < ts.len() && (#[trigger] ts[i]).owner == o ==> terr_indices(ts, o).contains(i as usize),
    decreases ts.len(),
{
    if ts.len() > 0 {
        let d = ts.drop_last();
        lemma_terr_indices(d, o);
        assert forall|i: int| 0 <= i < d.len() implies #[trigger] d[i] == ts[i] by {}
        if ts.last().owner == o {
            let s = terr_indices(d, o);
            assert forall|k: int| 0 <= k < terr_indices(ts, o).len() implies (#[trigger] terr_indices(ts, o)[k]) < ts.len()
                && ts[terr_indices(ts, o)[k] as int].owner == o by {
                if k < s.len() {
                    assert(terr_indices(ts, o)[k] == s[k]);
                    assert(d[s[k] as int] == ts[s[k] as int]);
                } else {
                    assert(terr_indices(ts, o)[k] == (ts.len() - 1) as usize);
                }
            }
            let n = (ts.len() - 1) as usize;
            assert(terr_indices(ts, o) == s.push(n));
            assert forall|i: int| 0 <= i < ts.len() && (#[trigger] ts[i]).owner == o implies terr_indices(ts, o).contains(i as usize) by {
                if i < ts.len() - 1 {
                    assert(d[i] == ts[i]);
                    let k = choose|k: int| 0 <= k < s.len() && s[k] == i as usize;
                    assert(s.push(n)[k] == i as usize);
                } else {
                    assert(s.push(n)[s.len() as int] == i as usize);
                }
            }
        } else {
            let s = terr_indices(d, o);
            assert forall|k: int| 0 <= k < terr_indices(ts, o).len() implies (#[trigger] terr_indices(ts, o)[k]) < ts.len()
                && ts[terr_indices(ts, o)[k] as int].owner == o by {
                assert(terr_indices(ts, o)[k] == s[k]);
                assert(d[s[k] as int] == ts[s[k] as int]);
            }
            assert forall|i: int| 0 <= i < ts.len() && (#[trigger] ts[i]).owner == o implies terr_indices(ts, o).contains(i as usize) by {
                assert(i < ts.len() - 1);
                assert(d[i] == ts[i]);
            }
        }
    }
}

impl Game {
    /// A hex listed by a territory of a well-formed game is land on the
    /// board, belongs to the territory's owner, and is found in that
    /// territory.
    pub proof fn lemma_member(&self, ti: int, p: (i32, i32))
        requires
            self.wf(),
            0 <= ti < self.terrs@.len(),
            self.terrs@[ti].hexes@.contains(p),
        ensures
            self.inside(p),
            !self.hex_at(p).water,
            self.hex_at(p).owner == self.terrs@[ti].owner,
            self.index_ok(p.0, p.1),
            self.terr_of(p) == Some(ti as usize),
            0 <= ix(self.cols as int, p) < self.grid@.len(),
            self.grid@.len() <= 4096,
            fits_i32(p.1 as int * self.cols as int + p.0 as int),
    {
        reveal(Game::terrs_partition);
        assert(self.terr_fits(self.terrs@[ti]));
        assert(self.land_of(self.terrs@[ti].owner).contains(p));
        self.lemma_inside_index(p);
        self.lemma_terr_of(ti, p);
    }

    /// On a well-formed board an on-board hex has a valid grid index.
    pub proof fn lemma_inside_index(&self, p: (i32, i32))
        requires
            self.dims_ok(),
            self.inside(p),
        ensures
            self.index_ok(p.0, p.1),
            0 <= ix(self.cols as int, p) < self.grid@.len(),
            self.grid@.len() <= 4096,
            fits_i32(p.1 as int * self.cols as int + p.0 as int),
    {
        let c = self.cols as int;
        let r = self.rows as int;
        assert(c * r <= 4096) by (nonlinear_arith)
            requires
                1 <= c <= 64,
                1 <= r <= 64,
        ;
        lemma_ix_bounds(c, r, p);
        assert(0 <= (p.1 as int) * c <= 64 * 64) by (nonlinear_arith)
            requires
                0 <= p.1 < r,
                1 <= c <= 64,
                r <= 64,
        ;
    }

    /// The neighbours of `(x, y)` that an attack from territory `ti` could
    /// aim at: outside the territory and not water.
    pub open spec fn targets_spec(&self, ti: int, x: i32, y: i32) -> Seq<(i32, i32)> {
        nbrs(self.cols as int, self.rows as int, x, y).filter(
            |q: (i32, i32)| !self.terrs@[ti].hexes@.contains(q) && !self.hex_at(q).water,
        )
    }

    /// The land neighbours of `(x, y)` outside territory `ti`, in the
    /// board's neighbour order.
    pub fn targets_around(&self, ti: usize, x: i32, y: i32) -> (out: Vec<(i32, i32)>)
        requires
            self.wf(),
            ti < self.terrs@.len(),
            self.inside((x, y)),
        ensures
            out@ == self.targets_spec(ti as int, x, y),
    {
        let ghost c = self.cols as int;
        let ghost r = self.rows as int;
        let nb = self.neighbours(x, y);
        proof {
            lemma_nbrs(c, r, x, y);
        }
        let ghost pred = |q: (i32, i32)| !self.terrs@[ti as int].hexes@.contains(q) && !self.hex_at(q).water;
        let mut out: Vec<(i32, i32)> = Vec::new();
        let mut j: usize = 0;
        while j < nb.len()
            invariant
                self.wf(),
                ti < self.terrs@.len(),
                nb@ == nbrs(c, r, x, y),
                c == self.cols,
                r == self.rows,
                forall|i: int| 0 <= i < nb@.len() ==> in_grid(c, r, #[trigger] nb@[i]),
                j <= nb@.len(),
                pred == (|q: (i32, i32)| !self.terrs@[ti as int].hexes@.contains(q) && !self.hex_at(q).water),
                out@ == nb@.take(j as int).filter(pred),
            decreases nb@.len() - j,
        {
            let q = nb[j];
            proof {
                assert(nb@.take(j + 1).drop_last() =~= nb@.take(j as int));
                assert(nb@.take(j + 1).last() == q);
                reveal(Seq::filter);
                assert(in_grid(c, r, nb@[j as int]));
                self.lemma_inside_index(q);
            }
            let inside = crate::game::has_hex(&self.terrs[ti].hexes, q);
            let i = Game::idx(self.cols, q.0, q.1);
            if !inside && !self.grid[i].water {
                out.push(q);
            }
            j += 1;
        }
        proof {
            assert(nb@.take(nb@.len() as int) =~= nb@);
        }
        out
    }
}

impl Game {
    /// Territory `ti` is covered by trees, men and castles, yet still has a
    /// hex where a man could stand.
    pub open spec fn crowded(&self, ti: int) -> bool {
        let hs = self.terrs@[ti].hexes@;
        &&& forall|p: (i32, i32)|
            #[trigger] hs.contains(p) ==> self.hex_at(p).tree is Some || self.hex_at(p).unit != 0
                || self.hex_at(p).castle
        &&& exists|p: (i32, i32)| #[trigger] hs.contains(p) && crate::game::hex_free(self.hex_at(p))
    }

    /// Some land hex next to territory `ti`, not held by `ai`, has no defence.
    pub open spec fn open_border(&self, ti: int, ai: i8) -> bool {
        let hs = self.terrs@[ti].hexes@;
        exists|p: (i32, i32), q: (i32, i32)|
            #![trigger hs.contains(p), self.adj(p, q)]
            hs.contains(p) && self.adj(p, q) && !self.hex_at(q).water && !hs.contains(q)
                && self.hex_at(q).owner != ai && self.defence_spec(q) < 1
    }

    /// An enemy man next to territory `ti` outranks the defence of the hex
    /// of the territory he stands beside.
    pub open spec fn threatened(&self, ti: int, ai: i8) -> bool {
        let hs = self.terrs@[ti].hexes@;
        exists|p: (i32, i32), q: (i32, i32)|
            #![trigger hs.contains(p), self.adj(p, q)]
            hs.contains(p) && self.adj(p, q) && self.hex_at(q).owner != -1 && self.hex_at(q).owner != ai
                && self.hex_at(q).unit != 0 && self.defence_spec(p) < self.hex_at(q).unit
    }

    /// Territory `ti` of seat `ai` wants another man.
    pub open spec fn needs_man_spec(&self, ti: int, ai: i8) -> bool {
        self.crowded(ti) || self.open_border(ti, ai) || self.threatened(ti, ai)
    }

    /// Whether territory `ti` of seat `ai` wants another man: it is crowded
    /// but has room, or a neighbouring hex lies open, or an enemy man
    /// outranks its defence somewhere.
    pub fn needs_man(&self, ti: usize, ai: i8) -> (b: bool)
        requires
            self.wf(),
            ti < self.terrs@.len(),
        ensures
            b == self.needs_man_spec(ti as int, ai),
    {
        let ghost c = self.cols as int;
        let ghost r = self.rows as int;
        let hexes = &self.terrs[ti].hexes;
        let ghost hs = hexes@;
        let ghost t = ti as int;
        proof {
            self.lemma_wf_sizes();
        }
        let crowded = self.crowded_exec(ti);
        if crowded {
            return true;
        }
        if self.open_border_exec(ti, ai) {
            return true;
        }
        self.threatened_exec(ti, ai)
    }

    fn crowded_exec(&self, ti: usize) -> (b: bool)
        requires
            self.wf(),
            ti < self.terrs@.len(),
        ensures
            b == self.crowded(ti as int),
    {
        let hexes = &self.terrs[ti].hexes;
        let ghost hs = hexes@;
        let ghost t = ti as int;
        proof {
            assert forall|i: int| 0 <= i < hs.len() implies self.inside(#[trigger] hs[i]) by {
                assert(hs.contains(hs[i]));
                self.lemma_member(t, hs[i]);
            }
        }
        let mut k: usize = 0;
        while k < hexes.len()
            invariant
                self.dims_ok(),
                forall|i: int| 0 <= i < hs.len() ==> self.inside(#[trigger] hs[i]),
                hs == hexes@,
                hs == self.terrs@[t].hexes@,
                t == ti as int,
                0 <= t < self.terrs@.len(),
                k <= hs.len(),
                forall|i: int|
                    0 <= i < k ==> self.hex_at(#[trigger] hs[i]).tree is Some || self.hex_at(hs[i]).unit != 0
                        || self.hex_at(hs[i]).castle,
            decreases hs.len() - k,
        {
            let p = hexes[k];
            proof {
                assert(self.inside(hs[k as int]));
                self.lemma_inside_index(p);
            }
            let h = self.grid[Game::idx(self.cols, p.0, p.1)];
            if !(h.tree.is_some() || h.unit != 0 || h.castle) {
                proof {
                    assert(hs.contains(hs[k as int]));
                    assert(!self.crowded(t));
                }
                return false;
            }
            k += 1;
        }
        proof {
            assert forall|p: (i32, i32)| #[trigger] hs.contains(p) implies self.hex_at(p).tree is Some
                || self.hex_at(p).unit != 0 || self.hex_at(p).castle by {
                let i = choose|i: int| 0 <= i < hs.len() && hs[i] == p;
            }
        }
        let mut k: usize = 0;
        while k < hexes.len()
            invariant
                self.dims_ok(),
                forall|i: int| 0 <= i < hs.len() ==> self.inside(#[trigger] hs[i]),
                hs == hexes@,
                hs == self.terrs@[t].hexes@,
                t == ti as int,
                0 <= t < self.terrs@.len(),
                k <= hs.len(),
                forall|i: int| 0 <= i < k ==> !crate::game::hex_free(self.hex_at(#[trigger] hs[i])),
                forall|p: (i32, i32)|
                    #[trigger] hs.contains(p) ==> self.hex_at(p).tree is Some || self.hex_at(p).unit != 0
                        || self.hex_at(p).castle,
            decreases hs.len() - k,
        {
            let p = hexes[k];
            proof {
                assert(self.inside(hs[k as int]));
                self.lemma_inside_index(p);
            }
            let h = self.grid[Game::idx(self.cols, p.0, p.1)];
            if h.unit == 0 && !h.castle && !h.grave {
                proof {
                    assert(hs.contains(hs[k as int]));
                }
                return true;
            }
            k += 1;
        }
        proof {
            assert forall|p: (i32, i32)| #[trigger] hs.contains(p) implies !crate::game::hex_free(self.hex_at(p)) by {
                let i = choose|i: int| 0 <= i < hs.len() && hs[i] == p;
            }
        }
        false
    }

    fn open_border_exec(&self, ti: usize, ai: i8) -> (b: bool)
        requires
            self.wf(),
            ti < self.terrs@.len(),
        ensures
            b == self.open_border(ti as int, ai),
    {
        let ghost c = self.cols as int;
        let ghost r = self.rows as int;
        let hexes = &self.terrs[ti].hexes;
        let ghost hs = hexes@;
        let ghost t = ti as int;
        let mut k: usize = 0;
        while k < hexes.len()
            invariant
                self.wf(),
                c == self.cols,
                r == self.rows,
                hs == hexes@,
                hs == self.terrs@[t].hexes@,
                t == ti as int,
                0 <= t < self.terrs@.len(),
                k <= hs.len(),
                forall|i: int, q: (i32, i32)|
                    0 <= i < k && #[trigger] self.adj(hs[i], q) ==> !(!self.hex_at(q).water && !hs.contains(q)
                        && self.hex_at(q).owner != ai && self.defence_spec(q) < 1),
            decreases hs.len() - k,
        {
            let p = hexes[k];
            proof {
                assert(hs.contains(p));
                self.lemma_member(t, p);
            }
            let nb = self.neighbours(p.0, p.1);
            proof {
                lemma_nbrs(c, r, p.0, p.1);
            }
            let mut j: usize = 0;
            while j < nb.len()
                invariant
                    self.wf(),
                    c == self.cols,
                    r == self.rows,
                    hs == hexes@,
                    hs == self.terrs@[t].hexes@,
                    t == ti as int,
                0 <= t < self.terrs@.len(),
                    k < hs.len(),
                    p == hs[k as int],
                    nb@ == nbrs(c, r, p.0, p.1),
                    forall|q: (i32, i32)| nb@.contains(q) <==> adjacent(c, r, p, q),
                    forall|i: int| 0 <= i < nb@.len() ==> in_grid(c, r, #[trigger] nb@[i]),
                    j <= nb@.len(),
                    forall|jj: int|
                        0 <= jj < j ==> !(!self.hex_at(#[trigger] nb@[jj]).water && !hs.contains(nb@[jj])
                            && self.hex_at(nb@[jj]).owner != ai && self.defence_spec(nb@[jj]) < 1),
                decreases nb@.len() - j,
            {
                let q = nb[j];
                proof {
                    assert(in_grid(c, r, nb@[j as int]));
                    self.lemma_inside_index(q);
                }
                let nh = self.grid[Game::idx(self.cols, q.0, q.1)];
                if !nh.water && !crate::game::has_hex(hexes, q) && nh.owner != ai {
                    if self.defence(q.0, q.1) < 1 {
                        proof {
                            assert(hs.contains(p));
                            assert(nb@.contains(q));
                            assert(self.adj(p, q));
                            assert(self.hex_at(q) == nh);
                            assert(hs.contains(p) && self.adj(p, q) && !self.hex_at(q).water && !hs.contains(q)
                                && self.hex_at(q).owner != ai && self.defence_spec(q) < 1);
                            assert(self.open_border(t, ai));
                        }
                        return true;
                    }
                }
                j += 1;
            }
            proof {
                assert forall|i: int, q: (i32, i32)|
                    0 <= i < k + 1 && #[trigger] self.adj(hs[i], q) implies !(!self.hex_at(q).water && !hs.contains(q)
                        && self.hex_at(q).owner != ai && self.defence_spec(q) < 1) by {
                    if i == k {
                        assert(nb@.contains(q));
                        let jj = choose|jj: int| 0 <= jj < nb@.len() && nb@[jj] == q;
                    }
                }
            }
            k += 1;
        }
        proof {
            assert forall|p: (i32, i32), q: (i32, i32)|
                hs.contains(p) && self.adj(p, q) implies !(!self.hex_at(q).water && !hs.contains(q)
                    && self.hex_at(q).owner != ai && self.defence_spec(q) < 1) by {
                let i = choose|i: int| 0 <= i < hs.len() && hs[i] == p;
                assert(self.adj(hs[i], q));
            }
        }
        false
    }

    fn threatened_exec(&self, ti: usize, ai: i8) -> (b: bool)
        requires
            self.wf(),
            ti < self.terrs@.len(),
        ensures
            b == self.threatened(ti as int, ai),
    {
        let ghost c = self.cols as int;
        let ghost r = self.rows as int;
        let hexes = &self.terrs[ti].hexes;
        let ghost hs = hexes@;
        let ghost t = ti as int;
        let mut k: usize = 0;
        while k < hexes.len()
            invariant
                self.wf(),
                c == self.cols,
                r == self.rows,
                hs == hexes@,
                hs == self.terrs@[t].hexes@,
                t == ti as int,
                0 <= t < self.terrs@.len(),
                k <= hs.len(),
                forall|i: int, q: (i32, i32)|
                    0 <= i < k && #[trigger] self.adj(hs[i], q) ==> !(self.hex_at(q).owner != -1 && self.hex_at(q).owner
                        != ai && self.hex_at(q).unit != 0 && self.defence_spec(hs[i]) < self.hex_at(q).unit),
            decreases hs.len() - k,
        {
            let p = hexes[k];
            proof {
                assert(hs.contains(p));
                self.lemma_member(t, p);
            }
            let nb = self.neighbours(p.0, p.1);
            proof {
                lemma_nbrs(c, r, p.0, p.1);
            }
            let mut j: usize = 0;
            while j < nb.len()
                invariant
                    self.wf(),
                    c == self.cols,
                    r == self.rows,
                    hs == hexes@,
                    hs == self.terrs@[t].hexes@,
                    t == ti as int,
                0 <= t < self.terrs@.len(),
                    k < hs.len(),
                    p == hs[k as int],
                    self.index_ok(p.0, p.1),
                    nb@ == nbrs(c, r, p.0, p.1),
                    forall|q: (i32, i32)| nb@.contains(q) <==> adjacent(c, r, p, q),
                    forall|i: int| 0 <= i < nb@.len() ==> in_grid(c, r, #[trigger] nb@[i]),
                    j <= nb@.len(),
                    forall|jj: int|
                        0 <= jj < j ==> !(self.hex_at(#[trigger] nb@[jj]).owner != -1 && self.hex_at(nb@[jj]).owner
                            != ai && self.hex_at(nb@[jj]).unit != 0 && self.defence_spec(p) < self.hex_at(
                            nb@[jj],
                        ).unit),
                decreases nb@.len() - j,
            {
                let q = nb[j];
                proof {
                    assert(in_grid(c, r, nb@[j as int]));
                    self.lemma_inside_index(q);
                }
                let nh = self.grid[Game::idx(self.cols, q.0, q.1)];
                if nh.owner != -1 && nh.owner != ai && nh.unit != 0 {
                    if self.defence(p.0, p.1) < nh.unit {
                        proof {
                            assert(hs.contains(p));
                            assert(nb@.contains(q));
                            assert(self.adj(p, q));
                            assert(self.hex_at(q) == nh);
                            assert(hs.contains(p) && self.adj(p, q) && self.hex_at(q).owner != -1 && self.hex_at(q).owner != ai
                                && self.hex_at(q).unit != 0 && self.defence_spec(p) < self.hex_at(q).unit);
                            assert(self.threatened(t, ai));
                        }
                        return true;
                    }
                }
                j += 1;
            }
            proof {
                assert forall|i: int, q: (i32, i32)|
                    0 <= i < k + 1 && #[trigger] self.adj(hs[i], q) implies !(self.hex_at(q).owner != -1
                        && self.hex_at(q).owner != ai && self.hex_at(q).unit != 0 && self.defence_spec(hs[i])
                        < self.hex_at(q).unit) by {
                    if i == k {
                        assert(nb@.contains(q));
                        let jj = choose|jj: int| 0 <= jj < nb@.len() && nb@[jj] == q;
                    }
                }
            }
            k += 1;
        }
        proof {
            assert forall|p: (i32, i32), q: (i32, i32)|
                hs.contains(p) && self.adj(p, q) implies !(self.hex_at(q).owner != -1 && self.hex_at(q).owner
                    != ai && self.hex_at(q).unit != 0 && self.defence_spec(p) < self.hex_at(q).unit) by {
                let i = choose|i: int| 0 <= i < hs.len() && hs[i] == p;
                assert(self.adj(hs[i], q));
            }
        }
        false
    }
}

/// Bonus, in whole points, for an attack that leaves the victim's
/// territory in `n` pieces: 12 for wiping it out, 6 per extra piece.
pub open spec fn split_bonus(n: int) -> int {
    if n == 0 {
        12
    } else {
        6 * (n - 1)
    }
}

/// The largest random draw, standing for one whole point.
pub open spec fn draw_unit() -> int {
    u64::MAX as int
}

/// The position of the first largest key, if any.
pub open spec fn is_first_max(keys: Seq<i128>, i: int) -> bool {
    &&& 0 <= i < keys.len()
    &&& forall|j: int| 0 <= j < keys.len() ==> #[trigger] keys[j] <= keys[i]
    &&& forall|j: int| 0 <= j < i ==> #[trigger] keys[j] < keys[i]
}

/// The first position holding the largest key; `None` when there are none.
pub fn first_max(keys: &Vec<i128>) -> (r: Option<usize>)
    ensures
        match r {
            Some(i) => is_first_max(keys@, i as int),
            None => keys@.len() == 0,
        },
{
    if keys.len() == 0 {
        return None;
    }
    let mut best: usize = 0;
    let mut j: usize = 1;
    while j < keys.len()
        invariant
            1 <= j <= keys@.len(),
            best < j,
            forall|k: int| 0 <= k < j ==> #[trigger] keys@[k] <= keys@[best as int],
            forall|k: int| 0 <= k < best ==> #[trigger] keys@[k] < keys@[best as int],
        decreases keys@.len() - j,
    {
        if keys[j] > keys[best] {
            best = j;
        }
        j += 1;
    }
    Some(best)
}

/// With draws worth at most `w` points, the winner of a draw-weighted
/// comparison scores within `w` points of every rival.
pub proof fn lemma_near_best(si: int, ri: int, sj: int, rj: int, w: int)
    requires
        0 <= ri <= draw_unit(),
        0 <= rj <= draw_unit(),
        0 <= w,
        sj * draw_unit() + w * rj <= si * draw_unit() + w * ri,
    ensures
        sj <= si + w,
{
    let m = draw_unit();
    assert(w * ri <= w * m) by (nonlinear_arith)
        requires
            0 <= w,
            ri <= m,
    ;
    assert(0 <= w * rj) by (nonlinear_arith)
        requires
            0 <= w,
            0 <= rj,
    ;
    assert(sj * m <= (si + w) * m) by (nonlinear_arith)
        requires
            sj * m + w * rj <= si * m + w * ri,
            w * ri <= w * m,
            0 <= w * rj,
    ;
    assert(sj <= si + w) by (nonlinear_arith)
        requires
            sj * m <= (si + w) * m,
            m > 0,
    ;
}

/// The key that ranks an option of score `s` with draw `r` of weight `w`.
fn draw_key(s: i64, r: u64, w: i64) -> (k: i128)
    requires
        -1000000000 <= s <= 1000000000,
        0 <= w <= 10,
    ensures
        k == s * draw_unit() + w * r,
{
    let m: i128 = 18446744073709551615;
    assert(-1000000000 * 18446744073709551615 <= (s as int) * 18446744073709551615 <= 1000000000 * 18446744073709551615) by (nonlinear_arith)
        requires
            -1000000000 <= s <= 1000000000,
    ;
    assert(0 <= (w as int) * (r as int) <= 10 * 18446744073709551615) by (nonlinear_arith)
        requires
            0 <= w <= 10,
            r <= 18446744073709551615,
    ;
    (s as i128) * m + (w as i128) * (r as i128)
}

impl Game {
    /// Score, in tenths of a point, of an attack on `t` by seat `ai` with
    /// aggression `aggro` tenths: wild land 3 (5 with a tree), a man 4 plus
    /// his rank, other enemy land 2; enemy targets are weighed by the
    /// aggression and earn the cut bonus, wild ones by its complement.
    pub open spec fn attack_score(&self, ai: i8, aggro: int, t: (i32, i32)) -> int {
        let th = self.hex_at(t);
        let base = if th.owner == -1 {
            if th.tree is Some {
                5int
            } else {
                3int
            }
        } else if th.unit != 0 {
            4 + th.unit
        } else {
            2int
        };
        if th.owner != -1 && th.owner != ai {
            base * aggro + 10 * split_bonus(self.pieces_spec(t.0, t.1, th.owner))
        } else {
            base * (20 - aggro)
        }
    }

    /// An attack on a hex of another seat earns, on top of its weighed
    /// base (2 for empty land, 4 plus the rank for a man), 12 points for
    /// wiping the victim's territory out and 6 points for each piece past
    /// the first that the loss leaves; in tenths of a point.
    pub proof fn lemma_cut_bonus(&self, ai: i8, aggro: int, t: (i32, i32))
        requires
            self.hex_at(t).owner != -1,
            self.hex_at(t).owner != ai,
        ensures
            ({
                let n = self.pieces_spec(t.0, t.1, self.hex_at(t).owner);
                let base = if self.hex_at(t).unit != 0 { 4 + self.hex_at(t).unit } else { 2int };
                &&& n == 0 ==> self.attack_score(ai, aggro, t) == base * aggro + 120
                &&& n >= 1 ==> self.attack_score(ai, aggro, t) == base * aggro + 60 * n - 60
            }),
    {
    }

    /// With aggression at least six tenths, taking an empty enemy hex
    /// whose loss splits the victim's territory in two or more pieces
    /// outscores taking any wild hex, a tree on it or not.
    pub proof fn lemma_cut_beats_wild(&self, ai: i8, aggro: int, cut: (i32, i32), wild: (i32, i32))
        requires
            6 <= aggro <= 20,
            self.hex_at(cut).owner != -1,
            self.hex_at(cut).owner != ai,
            self.hex_at(cut).unit == 0,
            self.pieces_spec(cut.0, cut.1, self.hex_at(cut).owner) >= 2,
            self.hex_at(wild).owner == -1,
        ensures
            self.attack_score(ai, aggro, cut) > self.attack_score(ai, aggro, wild),
    {
        self.lemma_cut_bonus(ai, aggro, cut);
    }

    /// The man on `f`, in a territory of seat `ai`, may take the land
    /// hex `t` next to him outside his territory.
    #[verifier::opaque]
    pub open spec fn ai_attack_ok(&self, ai: i8, f: (i32, i32), t: (i32, i32)) -> bool {
        &&& self.terr_of(f) matches Some(i) && {
            let hs = self.terrs@[i as int].hexes@;
            &&& self.terrs@[i as int].owner == ai
            &&& self.adj(f, t)
            &&& !hs.contains(t)
            &&& !self.hex_at(t).water
        }
        &&& self.attack_error(f, t) is None
    }

    fn attack_score_exec(&self, ai: i8, aggro: i64, t: (i32, i32)) -> (s: i64)
        requires
            self.wf(),
            self.inside(t),
            0 <= aggro <= 20,
        ensures
            s == self.attack_score(ai, aggro as int, t),
            -1000000 <= s <= 1000000,
    {
        proof {
            self.lemma_inside_index(t);
        }
        let th = self.grid[Game::idx(self.cols, t.0, t.1)];
        let base: i64 = if th.owner == -1 {
            if th.tree.is_some() {
                5
            } else {
                3
            }
        } else if th.unit != 0 {
            4 + th.unit as i64
        } else {
            2
        };
        proof {
            assert(th.unit <= 4) by {
                assert(crate::game::hex_ok(self.grid@[ix(self.cols as int, t)]));
            }
        }
        proof {
            assert(0 <= base * aggro <= 160 && 0 <= base * (20 - aggro) <= 160) by (nonlinear_arith)
                requires
                    2 <= base <= 8,
                    0 <= aggro <= 20,
            ;
        }
        if th.owner != -1 && th.owner != ai {
            let n = self.split_pieces(t.0, t.1, th.owner);
            let bonus: i64 = if n == 0 {
                12
            } else {
                6 * (n as i64 - 1)
            };
            base * aggro + 10 * bonus
        } else {
            base * (20 - aggro)
        }
    }

    /// Every attack seat `ai` may make now, in scan order (territory by
    /// territory, hex by hex, neighbour by neighbour), each with its score.
    pub fn attack_options(&self, ai: i8, aggro: i64) -> (v: Vec<((i32, i32), (i32, i32), i64)>)
        requires
            self.wf(),
            0 <= aggro <= 20,
        ensures
            self.options_sound(ai, aggro as int, v@),
            forall|f: (i32, i32), t: (i32, i32)|
                #[trigger] self.ai_attack_ok(ai, f, t) ==> listed(v@, f, t),
    {
        proof {
            self.lemma_wf_sizes();
            reveal(Game::options_sound);
        }
        let mut v: Vec<((i32, i32), (i32, i32), i64)> = Vec::new();
        let mut i: usize = 0;
        while i < self.terrs.len()
            invariant
                self.wf(),
                0 <= aggro <= 20,
                i <= self.terrs@.len(),
                self.options_sound(ai, aggro as int, v@),
                forall|f: (i32, i32), t: (i32, i32)|
                    #[trigger] self.ai_attack_ok(ai, f, t) && (self.terr_of(f).unwrap() as int) < i ==> listed(v@, f, t),
            decreases self.terrs@.len() - i,
        {
            let ghost before = v@;
            if self.terrs[i].owner == ai {
                self.scan_attacks(ai, aggro, i, &mut v);
            }
            proof {
                assert forall|f: (i32, i32), t: (i32, i32)|
                    #[trigger] self.ai_attack_ok(ai, f, t) && (self.terr_of(f).unwrap() as int) < i + 1 implies listed(v@, f, t) by {
                    reveal(Game::ai_attack_ok);
                    if self.terr_of(f).unwrap() as int == i as int {
                        assert(self.terrs@[i as int].owner == ai);
                    } else {
                        lemma_listed_grow(before, v@, f, t);
                    }
                }
            }
            i += 1;
        }
        proof {
            assert forall|f: (i32, i32), t: (i32, i32)| #[trigger] self.ai_attack_ok(ai, f, t) implies listed(v@, f, t) by {
                reveal(Game::ai_attack_ok);
                self.lemma_wf_sizes();
                crate::economy::lemma_terr_of_some(self, f);
            }
        }
        v
    }

    /// Adds the attacks from the hexes of territory `i` of seat `ai`.
    #[verifier::rlimit(80)]
    fn scan_attacks(&self, ai: i8, aggro: i64, i: usize, v: &mut Vec<((i32, i32), (i32, i32), i64)>)
        requires
            self.wf(),
            0 <= aggro <= 20,
            i < self.terrs@.len(),
            self.terrs@[i as int].owner == ai,
            self.options_sound(ai, aggro as int, old(v)@),
        ensures
            self.options_sound(ai, aggro as int, final(v)@),
            old(v)@.len() <= final(v)@.len(),
            forall|k: int| 0 <= k < old(v)@.len() ==> #[trigger] final(v)@[k] == old(v)@[k],
            forall|f: (i32, i32), t: (i32, i32)|
                #[trigger] self.ai_attack_ok(ai, f, t) && self.terr_of(f) == Some(i) ==> listed(final(v)@, f, t),
    {
        let ghost ti = i as int;
        let ghost v0 = v@;
        let hexes = &self.terrs[i].hexes;
        let ghost hs = hexes@;
        let mut k: usize = 0;
        while k < hexes.len()
            invariant
                self.wf(),
                0 <= aggro <= 20,
                ti == i as int,
                i < self.terrs@.len(),
                self.terrs@[ti].owner == ai,
                hs == hexes@,
                hs == self.terrs@[ti].hexes@,
                k <= hs.len(),
                v0.len() <= v@.len(),
                forall|j: int| 0 <= j < v0.len() ==> #[trigger] v@[j] == v0[j],
                self.options_sound(ai, aggro as int, v@),
                forall|kk: int, t: (i32, i32)|
                    0 <= kk < k && #[trigger] self.ai_attack_ok(ai, hs[kk], t) ==> listed(v@, hs[kk], t),
            decreases hs.len() - k,
        {
            let p = hexes[k];
            proof {
                assert(hs.contains(p));
                self.lemma_member(ti, p);
            }
            let ghost before = v@;
            self.scan_hex(ai, aggro, i, p, v);
            proof {
                assert forall|j: int| 0 <= j < v0.len() implies #[trigger] v@[j] == v0[j] by {
                    assert(v@[j] == before[j]);
                }
                assert forall|kk: int, t: (i32, i32)|
                    0 <= kk < k + 1 && #[trigger] self.ai_attack_ok(ai, hs[kk], t) implies listed(v@, hs[kk], t) by {
                    if kk < k {
                        lemma_listed_grow(before, v@, hs[kk], t);
                    }
                }
            }
            k += 1;
        }
        proof {
            assert forall|f: (i32, i32), t: (i32, i32)|
                #[trigger] self.ai_attack_ok(ai, f, t) && self.terr_of(f) == Some(i) implies listed(v@, f, t) by {
                self.lemma_wf_sizes();
                crate::economy::lemma_terr_of_some(self, f);
                let kk = choose|kk: int| 0 <= kk < hs.len() && hs[kk] == f;
                assert(self.ai_attack_ok(ai, hs[kk], t));
            }
        }
    }

    /// Adds the attacks of the man on `p`, a hex of territory `i` of seat `ai`.
    #[verifier::rlimit(40)]
    fn scan_hex(&self, ai: i8, aggro: i64, i: usize, p: (i32, i32), v: &mut Vec<((i32, i32), (i32, i32), i64)>)
        requires
            self.wf(),
            0 <= aggro <= 20,
            i < self.terrs@.len(),
            self.terrs@[i as int].owner == ai,
            self.terrs@[i as int].hexes@.contains(p),
            self.options_sound(ai, aggro as int, old(v)@),
        ensures
            self.options_sound(ai, aggro as int, final(v)@),
            old(v)@.len() <= final(v)@.len(),
            forall|k: int| 0 <= k < old(v)@.len() ==> #[trigger] final(v)@[k] == old(v)@[k],
            forall|t: (i32, i32)| #[trigger] self.ai_attack_ok(ai, p, t) ==> listed(final(v)@, p, t),
    {
        let ghost c = self.cols as int;
        let ghost r = self.rows as int;
        let ghost ti = i as int;
        let ghost v0 = v@;
        proof {
            self.lemma_member(ti, p);
        }
        let h = self.grid[Game::idx(self.cols, p.0, p.1)];
        if h.unit == 0 || h.acted {
            proof {
                assert forall|t: (i32, i32)| #[trigger] self.ai_attack_ok(ai, p, t) implies listed(v@, p, t) by {
                    reveal(Game::ai_attack_ok);
                    assert(self.hex_at(p) == h);
                }
            }
            return;
        }
        let tg = self.targets_around(i, p.0, p.1);
        proof {
            lemma_nbrs(c, r, p.0, p.1);
        }
        let ghost pred = |q: (i32, i32)| !self.terrs@[ti].hexes@.contains(q) && !self.hex_at(q).water;
        let mut j: usize = 0;
        while j < tg.len()
            invariant
                self.wf(),
                0 <= aggro <= 20,
                c == self.cols,
                r == self.rows,
                ti == i as int,
                i < self.terrs@.len(),
                self.terrs@[ti].owner == ai,
                self.terr_of(p) == Some(i),
                self.index_ok(p.0, p.1),
                self.inside(p),
                pred == (|q: (i32, i32)| !self.terrs@[ti].hexes@.contains(q) && !self.hex_at(q).water),
                tg@ == nbrs(c, r, p.0, p.1).filter(pred),
                forall|q: (i32, i32)| nbrs(c, r, p.0, p.1).contains(q) <==> adjacent(c, r, p, q),
                j <= tg@.len(),
                v0.len() <= v@.len(),
                forall|jj: int| 0 <= jj < v0.len() ==> #[trigger] v@[jj] == v0[jj],
                self.options_sound(ai, aggro as int, v@),
                forall|j2: int| 0 <= j2 < j && #[trigger] self.ai_attack_ok(ai, p, tg@[j2]) ==> listed(v@, p, tg@[j2]),
            decreases tg@.len() - j,
        {
            let t = tg[j];
            proof {
                nbrs(c, r, p.0, p.1).lemma_filter_pred(pred, j as int);
                nbrs(c, r, p.0, p.1).lemma_filter_contains_rev(pred, t);
                assert(tg@.contains(tg@[j as int]));
                assert(self.adj(p, t));
                crate::hexgrid::lemma_nbrs(c, r, p.0, p.1);
            }
            let ghost before = v@;
            let legal = self.can_attack(p.0, p.1, t.0, t.1).is_ok();
            if legal {
                let sc = self.attack_score_exec(ai, aggro, t);
                proof {
                    reveal(Game::ai_attack_ok);
                    assert(self.ai_attack_ok(ai, p, t));
                }
                v.push((p, t, sc));
                proof {
                    lemma_options_push(self, ai, aggro as int, before, (p, t, sc));
                    lemma_listed_last(before, (p, t, sc));
                }
            }
            proof {
                assert forall|jj: int| 0 <= jj < v0.len() implies #[trigger] v@[jj] == v0[jj] by {
                    assert(v@[jj] == before[jj]);
                }
                assert forall|j2: int| 0 <= j2 < j + 1 && #[trigger] self.ai_attack_ok(ai, p, tg@[j2]) implies listed(v@, p, tg@[j2]) by {
                    reveal(Game::ai_attack_ok);
                    if j2 < j {
                        lemma_listed_grow(before, v@, p, tg@[j2]);
                    }
                }
            }
            j += 1;
        }
        proof {
            assert forall|t: (i32, i32)| #[trigger] self.ai_attack_ok(ai, p, t) implies listed(v@, p, t) by {
                reveal(Game::ai_attack_ok);
                let nb = nbrs(c, r, p.0, p.1);
                assert(nb.contains(t));
                let m = choose|m: int| 0 <= m < nb.len() && nb[m] == t;
                nb.lemma_filter_contains(pred, m);
                let j2 = choose|j2: int| 0 <= j2 < tg@.len() && tg@[j2] == t;
                assert(self.ai_attack_ok(ai, p, tg@[j2]));
            }
        }
    }
}

impl Game {
    /// Each listed option is a legal attack of seat `ai` with its score.
    #[verifier::opaque]
    pub open spec fn options_sound(&self, ai: i8, aggro: int, v: Seq<((i32, i32), (i32, i32), i64)>) -> bool {
        forall|k: int|
            0 <= k < v.len() ==> self.ai_attack_ok(ai, (#[trigger] v[k]).0, v[k].1) && v[k].2 == self.attack_score(
                ai,
                aggro,
                v[k].1,
            ) && -1000000 <= v[k].2 <= 1000000
    }
}

/// The option list names the attack from `f` on `t`.
pub open spec fn listed(v: Seq<((i32, i32), (i32, i32), i64)>, f: (i32, i32), t: (i32, i32)) -> bool {
    exists|k: int| 0 <= k < v.len() && (#[trigger] v[k]).0 == f && v[k].1 == t
}

proof fn lemma_listed_grow(
    a: Seq<((i32, i32), (i32, i32), i64)>,
    b: Seq<((i32, i32), (i32, i32), i64)>,
    f: (i32, i32),
    t: (i32, i32),
)
    requires
        listed(a, f, t),
        a.len() <= b.len(),
        forall|k: int| 0 <= k < a.len() ==> #[trigger] b[k] == a[k],
    ensures
        listed(b, f, t),
{
    let k = choose|k: int| 0 <= k < a.len() && (#[trigger] a[k]).0 == f && a[k].1 == t;
    assert(b[k] == a[k]);
}

proof fn lemma_listed_last(a: Seq<((i32, i32), (i32, i32), i64)>, x: ((i32, i32), (i32, i32), i64))
    ensures
        listed(a.push(x), x.0, x.1),
        forall|k: int| 0 <= k < a.len() ==> #[trigger] a.push(x)[k] == a[k],
{
    assert(a.push(x)[a.len() as int] == x);
}

proof fn lemma_options_push(
    g: &Game,
    ai: i8,
    aggro: int,
    a: Seq<((i32, i32), (i32, i32), i64)>,
    x: ((i32, i32), (i32, i32), i64),
)
    requires
        g.options_sound(ai, aggro, a),
        g.ai_attack_ok(ai, x.0, x.1),
        x.2 == g.attack_score(ai, aggro, x.1),
        -1000000 <= x.2 <= 1000000,
    ensures
        g.options_sound(ai, aggro, a.push(x)),
{
    reveal(Game::options_sound);
    let b = a.push(x);
    assert forall|k: int| 0 <= k < b.len() implies g.ai_attack_ok(ai, (#[trigger] b[k]).0, b[k].1) && b[k].2
        == g.attack_score(ai, aggro, b[k].1) && -1000000 <= b[k].2 <= 1000000 by {
        if k < a.len() {
            assert(b[k] == a[k]);
        }
    }
}

impl Game {
    /// Draws `n` random numbers from the game's generator, in order.
    pub fn draws(&mut self, n: usize) -> (d: Vec<u64>)
        ensures
            final(self).same_except_rng(old(self)),
            d@.len() == n,
            n == 0 ==> *final(self) == *old(self),
    {
        let mut d: Vec<u64> = Vec::new();
        let mut k: usize = 0;
        while k < n
            invariant
                self.same_except_rng(old(self)),
                k == 0 ==> *self == *old(self),
                k <= n,
                d@.len() == k,
            decreases n - k,
        {
            let r = self.roll();
            d.push(r);
            k += 1;
        }
        d
    }

    /// The attack seat `ai` makes: among its legal attacks, the best by
    /// score (in tenths) plus a random draw worth up to one point, the first
    /// such in scan order on a tie. It scores within one point of every
    /// other legal attack; `None` when there is none.
    pub fn best_attack(&mut self, ai: i8, aggro: i64) -> (r: Option<((i32, i32), (i32, i32))>)
        requires
            old(self).wf(),
            0 <= aggro <= 20,
        ensures
            final(self).same_except_rng(old(self)),
            final(self).wf(),
            match r {
                Some((f, t)) => {
                    &&& old(self).ai_attack_ok(ai, f, t)
                    &&& forall|f2: (i32, i32), t2: (i32, i32)|
                        #[trigger] old(self).ai_attack_ok(ai, f2, t2) ==> old(self).attack_score(ai, aggro as int, t2)
                            <= old(self).attack_score(ai, aggro as int, t) + 10
                },
                None => forall|f2: (i32, i32), t2: (i32, i32)| !#[trigger] old(self).ai_attack_ok(ai, f2, t2),
            },
            r is None ==> *final(self) == *old(self),
    {
        let ghost pre = *self;
        let opts = self.attack_options(ai, aggro);
        let d = self.draws(opts.len());
        proof {
            self.lemma_wf_off_board(&pre);
            reveal(Game::options_sound);
        }
        let mut keys: Vec<i128> = Vec::new();
        let mut k: usize = 0;
        while k < opts.len()
            invariant
                k <= opts@.len(),
                d@.len() == opts@.len(),
                keys@.len() == k,
                pre.options_sound(ai, aggro as int, opts@),
                forall|j: int| 0 <= j < opts@.len() ==> -1000000 <= (#[trigger] opts@[j]).2 <= 1000000,
                forall|j: int| 0 <= j < k ==> #[trigger] keys@[j] == opts@[j].2 * draw_unit() + 10 * d@[j],
            decreases opts@.len() - k,
        {
            let key = draw_key(opts[k].2, d[k], 10);
            keys.push(key);
            k += 1;
        }
        match first_max(&keys) {
            None => {
                proof {
                    assert forall|f2: (i32, i32), t2: (i32, i32)| !#[trigger] pre.ai_attack_ok(ai, f2, t2) by {
                        if pre.ai_attack_ok(ai, f2, t2) {
                            assert(listed(opts@, f2, t2));
                        }
                    }
                }
                None
            },
            Some(i) => {
                let (f, t, _) = opts[i];
                proof {
                    assert(pre.ai_attack_ok(ai, opts@[i as int].0, opts@[i as int].1));
                    assert forall|f2: (i32, i32), t2: (i32, i32)|
                        #[trigger] pre.ai_attack_ok(ai, f2, t2) implies pre.attack_score(ai, aggro as int, t2)
                            <= pre.attack_score(ai, aggro as int, t) + 10 by {
                        assert(listed(opts@, f2, t2));
                        let j = choose|j: int| 0 <= j < opts@.len() && (#[trigger] opts@[j]).0 == f2 && opts@[j].1 == t2;
                        assert(keys@[j] <= keys@[i as int]);
                        lemma_near_best(opts@[i as int].2 as int, d@[i as int] as int, opts@[j].2 as int, d@[j] as int, 10);
                    }
                }
                Some((f, t))
            },
        }
    }
}

impl Game {
    /// The man on `f` of seat `ai` can chop the tree on the neighbouring hex
    /// `t` of his own territory (not its house).
    #[verifier::opaque]
    pub open spec fn chop_ok(&self, ai: i8, f: (i32, i32), t: (i32, i32)) -> bool {
        &&& self.terr_of(f) matches Some(i) && {
            let tr = self.terrs@[i as int];
            &&& tr.owner == ai
            &&& tr.hexes@.contains(t)
            &&& tr.capital != Some(t)
        }
        &&& self.hex_at(f).unit != 0
        &&& !self.hex_at(f).acted
        &&& self.adj(f, t)
        &&& self.hex_at(t).tree is Some
        &&& self.hex_at(t).unit == 0
        &&& !self.hex_at(t).castle
    }

    /// The man on `f`, in a territory of seat `ai`, may move to `t`.
    pub open spec fn ai_move_ok(&self, ai: i8, f: (i32, i32), t: (i32, i32)) -> bool {
        &&& self.terr_of(f) matches Some(i) && self.terrs@[i as int].owner == ai
        &&& self.move_result(f, t) is Ok
    }

    /// A chop is a legal move.
    pub proof fn lemma_chop_moves(&self, ai: i8, f: (i32, i32), t: (i32, i32))
        requires
            self.wf(),
            self.chop_ok(ai, f, t),
        ensures
            self.ai_move_ok(ai, f, t),
    {
        reveal(Game::chop_ok);
        crate::economy::lemma_terr_of_some(self, f);
        let i = self.terr_of(f).unwrap() as int;
        self.lemma_member(i, f);
        self.lemma_member(i, t);
    }

    /// The first chop of seat `ai` in scan order (territory by territory,
    /// hex by hex, neighbour by neighbour); `None` when no man of `ai` can chop.
    pub fn find_chop(&self, ai: i8) -> (r: Option<((i32, i32), (i32, i32))>)
        requires
            self.wf(),
        ensures
            match r {
                Some((f, t)) => self.chop_ok(ai, f, t),
                None => forall|f: (i32, i32), t: (i32, i32)| !#[trigger] self.chop_ok(ai, f, t),
            },
    {
        proof {
            self.lemma_wf_sizes();
        }
        let mut i: usize = 0;
        while i < self.terrs.len()
            invariant
                self.wf(),
                i <= self.terrs@.len(),
                forall|f: (i32, i32), t: (i32, i32)|
                    #[trigger] self.chop_ok(ai, f, t) ==> (self.terr_of(f).unwrap() as int) >= i,
            decreases self.terrs@.len() - i,
        {
            if self.terrs[i].owner == ai {
                match self.chop_in(ai, i) {
                    Some(m) => {
                        return Some(m);
                    },
                    None => {},
                }
            }
            proof {
                assert forall|f: (i32, i32), t: (i32, i32)|
                    #[trigger] self.chop_ok(ai, f, t) implies (self.terr_of(f).unwrap() as int) >= i + 1 by {
                    reveal(Game::chop_ok);
                    if self.terr_of(f).unwrap() as int == i as int {
                        assert(self.terrs@[i as int].owner == ai);
                    }
                }
            }
            i += 1;
        }
        proof {
            assert forall|f: (i32, i32), t: (i32, i32)| !#[trigger] self.chop_ok(ai, f, t) by {
                if self.chop_ok(ai, f, t) {
                    reveal(Game::chop_ok);
                    crate::economy::lemma_terr_of_some(self, f);
                }
            }
        }
        None
    }

    /// The first chop from the hexes of territory `i` of seat `ai`.
    #[verifier::rlimit(30)]
    fn chop_in(&self, ai: i8, i: usize) -> (r: Option<((i32, i32), (i32, i32))>)
        requires
            self.wf(),
            i < self.terrs@.len(),
            self.terrs@[i as int].owner == ai,
        ensures
            match r {
                Some((f, t)) => self.chop_ok(ai, f, t),
                None => forall|f: (i32, i32), t: (i32, i32)|
                    #[trigger] self.chop_ok(ai, f, t) ==> self.terr_of(f) != Some(i),
            },
    {
        let ghost c = self.cols as int;
        let ghost r = self.rows as int;
        let ghost ti = i as int;
        let hexes = &self.terrs[i].hexes;
        let ghost hs = hexes@;
        let mut k: usize = 0;
        while k < hexes.len()
            invariant
                self.wf(),
                c == self.cols,
                r == self.rows,
                ti == i as int,
                i < self.terrs@.len(),
                self.terrs@[ti].owner == ai,
                hs == hexes@,
                hs == self.terrs@[ti].hexes@,
                k <= hs.len(),
                forall|kk: int, t: (i32, i32)| 0 <= kk < k ==> !#[trigger] self.chop_ok(ai, hs[kk], t),
            decreases hs.len() - k,
        {
            let p = hexes[k];
            proof {
                assert(hs.contains(p));
            }
            match self.chop_target(ai, i, p) {
                Some(q) => {
                    return Some((p, q));
                },
                None => {},
            }
            proof {
                assert forall|kk: int, t: (i32, i32)| 0 <= kk < k + 1 implies !#[trigger] self.chop_ok(ai, hs[kk], t) by {
                    if kk == k {
                        assert(hs[kk] == p);
                    }
                }
            }
            k += 1;
        }
        proof {
            assert forall|f: (i32, i32), t: (i32, i32)|
                #[trigger] self.chop_ok(ai, f, t) implies self.terr_of(f) != Some(i) by {
                if self.terr_of(f) == Some(i) {
                    crate::economy::lemma_terr_of_some(self, f);
                    let kk = choose|kk: int| 0 <= kk < hs.len() && hs[kk] == f;
                    assert(!self.chop_ok(ai, hs[kk], t));
                }
            }
        }
        None
    }
}

impl Game {
    /// A tree the man on `p`, of territory `i` of seat `ai`, can chop: the
    /// first in the board's neighbour order.
    #[verifier::rlimit(40)]
    fn chop_target(&self, ai: i8, i: usize, p: (i32, i32)) -> (r: Option<(i32, i32)>)
        requires
            self.wf(),
            i < self.terrs@.len(),
            self.terrs@[i as int].owner == ai,
            self.terrs@[i as int].hexes@.contains(p),
        ensures
            match r {
                Some(q) => self.chop_ok(ai, p, q),
                None => forall|t: (i32, i32)| !#[trigger] self.chop_ok(ai, p, t),
            },
    {
        reveal(Game::chop_ok);
        let ghost c = self.cols as int;
        let ghost r = self.rows as int;
        let ghost ti = i as int;
        proof {
            self.lemma_member(ti, p);
        }
        let h = self.grid[Game::idx(self.cols, p.0, p.1)];
        if h.unit == 0 || h.acted {
            return None;
        }
        let hexes = &self.terrs[i].hexes;
        let nb = self.neighbours(p.0, p.1);
        proof {
            lemma_nbrs(c, r, p.0, p.1);
        }
        let mut j: usize = 0;
        while j < nb.len()
            invariant
                self.dims_ok(),
                c == self.cols,
                r == self.rows,
                ti == i as int,
                i < self.terrs@.len(),
                self.terrs@[ti].owner == ai,
                hexes@ == self.terrs@[ti].hexes@,
                self.terr_of(p) == Some(i),
                self.hex_at(p).unit != 0,
                !self.hex_at(p).acted,
                nb@ == nbrs(c, r, p.0, p.1),
                forall|q: (i32, i32)| nb@.contains(q) <==> adjacent(c, r, p, q),
                forall|jj: int| 0 <= jj < nb@.len() ==> in_grid(c, r, #[trigger] nb@[jj]),
                j <= nb@.len(),
                forall|jj: int| 0 <= jj < j ==> !#[trigger] self.chop_ok(ai, p, nb@[jj]),
            decreases nb@.len() - j,
        {
            reveal(Game::chop_ok);
            let q = nb[j];
            proof {
                assert(in_grid(c, r, nb@[j as int]));
                self.lemma_inside_index(q);
            }
            let qh = self.grid[Game::idx(self.cols, q.0, q.1)];
            let is_cap = match self.terrs[i].capital {
                Some(cp) => cp.0 == q.0 && cp.1 == q.1,
                None => false,
            };
            if crate::game::has_hex(hexes, q) && qh.tree.is_some() && qh.unit == 0 && !qh.castle && !is_cap {
                proof {
                    assert(nb@.contains(q));
                }
                return Some(q);
            }
            j += 1;
        }
        proof {
            assert forall|t: (i32, i32)| !#[trigger] self.chop_ok(ai, p, t) by {
                if self.chop_ok(ai, p, t) {
                    assert(nb@.contains(t));
                    let jj = choose|jj: int| 0 <= jj < nb@.len() && nb@[jj] == t;
                    assert(!self.chop_ok(ai, p, nb@[jj]));
                }
            }
        }
        None
    }
}

impl Game {
    /// Wild land among the hexes of `s`.
    pub open spec fn wild_count(&self, s: Seq<(i32, i32)>) -> int
        decreases s.len(),
    {
        if s.len() == 0 {
            0
        } else {
            self.wild_count(s.drop_last()) + if self.hex_at(s.last()).owner == -1 && !self.hex_at(s.last()).water {
                1int
            } else {
                0int
            }
        }
    }

    /// Hexes of `s` held by a seat other than `ai`.
    pub open spec fn enemy_count(&self, s: Seq<(i32, i32)>, ai: i8) -> int
        decreases s.len(),
    {
        if s.len() == 0 {
            0
        } else {
            self.enemy_count(s.drop_last(), ai) + if self.hex_at(s.last()).owner != -1 && self.hex_at(s.last()).owner != ai {
                1int
            } else {
                0int
            }
        }
    }

    /// A hex of territory `ti` where a peasant may be placed: free, and not
    /// the house.
    pub open spec fn spot_ok(&self, ti: int, p: (i32, i32)) -> bool {
        &&& self.terrs@[ti].hexes@.contains(p)
        &&& crate::game::hex_free(self.hex_at(p))
        &&& self.terrs@[ti].capital != Some(p)
    }

    /// How much seat `ai` likes a peasant on `p` of territory `ti`: two per
    /// wild neighbour, one per enemy neighbour, three for a choke hex.
    pub open spec fn spot_score(&self, ti: int, ai: i8, p: (i32, i32)) -> int {
        let nb = nbrs(self.cols as int, self.rows as int, p.0, p.1);
        2 * self.wild_count(nb) + self.enemy_count(nb, ai) + if self.chokes_spec(ti).contains(p) {
            3int
        } else {
            0int
        }
    }

    /// Wild and enemy neighbours of the on-board hex `p`.
    fn neighbour_counts(&self, ai: i8, p: (i32, i32)) -> (r: (i64, i64))
        requires
            self.dims_ok(),
            self.inside(p),
        ensures
            r.0 == self.wild_count(nbrs(self.cols as int, self.rows as int, p.0, p.1)),
            r.1 == self.enemy_count(nbrs(self.cols as int, self.rows as int, p.0, p.1), ai),
            0 <= r.0 <= 6,
            0 <= r.1 <= 6,
    {
        let ghost c = self.cols as int;
        let ghost r = self.rows as int;
        let nb = self.neighbours(p.0, p.1);
        proof {
            lemma_nbrs(c, r, p.0, p.1);
        }
        let mut w: i64 = 0;
        let mut e: i64 = 0;
        let mut j: usize = 0;
        while j < nb.len()
            invariant
                self.dims_ok(),
                c == self.cols,
                r == self.rows,
                nb@ == nbrs(c, r, p.0, p.1),
                nb@.len() <= 6,
                forall|jj: int| 0 <= jj < nb@.len() ==> in_grid(c, r, #[trigger] nb@[jj]),
                j <= nb@.len(),
                w == self.wild_count(nb@.take(j as int)),
                e == self.enemy_count(nb@.take(j as int), ai),
                0 <= w <= j,
                0 <= e <= j,
            decreases nb@.len() - j,
        {
            let q = nb[j];
            proof {
                assert(nb@.take(j + 1).drop_last() =~= nb@.take(j as int));
                assert(nb@.take(j + 1).last() == q);
                assert(in_grid(c, r, nb@[j as int]));
                self.lemma_inside_index(q);
            }
            let qh = self.grid[Game::idx(self.cols, q.0, q.1)];
            if qh.owner == -1 && !qh.water {
                w += 1;
            }
            if qh.owner != -1 && qh.owner != ai {
                e += 1;
            }
            j += 1;
        }
        proof {
            assert(nb@.take(nb@.len() as int) =~= nb@);
        }
        (w, e)
    }

    /// Every spot of territory `ti` for a peasant of seat `ai`, in the
    /// territory's hex order, with its score.
    #[verifier::rlimit(30)]
    pub fn spot_options(&self, ti: usize, ai: i8) -> (v: Vec<((i32, i32), i64)>)
        requires
            self.wf(),
            ti < self.terrs@.len(),
        ensures
            forall|k: int|
                0 <= k < v@.len() ==> self.spot_ok(ti as int, (#[trigger] v@[k]).0) && v@[k].1 == self.spot_score(
                    ti as int,
                    ai,
                    v@[k].0,
                ) && 0 <= v@[k].1 <= 30,
            forall|p: (i32, i32)|
                #[trigger] self.spot_ok(ti as int, p) ==> exists|k: int| 0 <= k < v@.len() && (#[trigger] v@[k]).0 == p,
    {
        let ghost t = ti as int;
        let choke = self.choke_hexes(ti);
        let hexes = &self.terrs[ti].hexes;
        let ghost hs = hexes@;
        let mut v: Vec<((i32, i32), i64)> = Vec::new();
        let mut k: usize = 0;
        while k < hexes.len()
            invariant
                self.wf(),
                t == ti as int,
                ti < self.terrs@.len(),
                hs == hexes@,
                hs == self.terrs@[t].hexes@,
                choke@ == self.chokes_spec(t),
                k <= hs.len(),
                forall|j: int|
                    0 <= j < v@.len() ==> self.spot_ok(t, (#[trigger] v@[j]).0) && v@[j].1 == self.spot_score(t, ai, v@[j].0)
                        && 0 <= v@[j].1 <= 30,
                forall|kk: int|
                    0 <= kk < k && #[trigger] self.spot_ok(t, hs[kk]) ==> exists|j: int|
                        0 <= j < v@.len() && (#[trigger] v@[j]).0 == hs[kk],
            decreases hs.len() - k,
        {
            let p = hexes[k];
            proof {
                assert(hs.contains(p));
                self.lemma_member(t, p);
            }
            let h = self.grid[Game::idx(self.cols, p.0, p.1)];
            let is_cap = match self.terrs[ti].capital {
                Some(cp) => cp.0 == p.0 && cp.1 == p.1,
                None => false,
            };
            if h.unit == 0 && !h.castle && !h.grave && !is_cap {
                let (w, e) = self.neighbour_counts(ai, p);
                let bonus: i64 = if crate::game::has_hex(&choke, p) {
                    3
                } else {
                    0
                };
                let ghost before = v@;
                v.push((p, 2 * w + e + bonus));
                proof {
                    assert(v@[before.len() as int].0 == p);
                    assert forall|j: int|
                        0 <= j < v@.len() implies self.spot_ok(t, (#[trigger] v@[j]).0) && v@[j].1 == self.spot_score(t, ai, v@[j].0)
                            && 0 <= v@[j].1 <= 30 by {
                        if j < before.len() {
                            assert(v@[j] == before[j]);
                        }
                    }
                    assert forall|kk: int|
                        0 <= kk < k + 1 && #[trigger] self.spot_ok(t, hs[kk]) implies exists|j: int|
                            0 <= j < v@.len() && (#[trigger] v@[j]).0 == hs[kk] by {
                        if kk < k {
                            let j = choose|j: int| 0 <= j < before.len() && (#[trigger] before[j]).0 == hs[kk];
                            assert(v@[j] == before[j]);
                        } else {
                            assert(v@[before.len() as int].0 == hs[kk]);
                        }
                    }
                }
            } else {
                proof {
                    assert(self.hex_at(p) == h);
                    assert(!self.spot_ok(t, hs[k as int]));
                }
            }
            k += 1;
        }
        proof {
            assert forall|p: (i32, i32)|
                #[trigger] self.spot_ok(t, p) implies exists|j: int| 0 <= j < v@.len() && (#[trigger] v@[j]).0 == p by {
                let kk = choose|kk: int| 0 <= kk < hs.len() && hs[kk] == p;
                assert(self.spot_ok(t, hs[kk]));
            }
        }
        v
    }

    /// Where seat `ai` places a peasant in territory `ti`: the best spot by
    /// score plus a random draw worth up to one point, the first such on a
    /// tie. It scores within one point of every other spot; `None` when the
    /// territory has no free hex besides its house.
    pub fn buy_spot(&mut self, ti: usize, ai: i8) -> (r: Option<(i32, i32)>)
        requires
            old(self).wf(),
            ti < old(self).terrs@.len(),
        ensures
            final(self).same_except_rng(old(self)),
            final(self).wf(),
            match r {
                Some(p) => {
                    &&& old(self).spot_ok(ti as int, p)
                    &&& forall|q: (i32, i32)|
                        #[trigger] old(self).spot_ok(ti as int, q) ==> old(self).spot_score(ti as int, ai, q)
                            <= old(self).spot_score(ti as int, ai, p) + 1
                },
                None => forall|q: (i32, i32)| !#[trigger] old(self).spot_ok(ti as int, q),
            },
    {
        let ghost pre = *self;
        let opts = self.spot_options(ti, ai);
        let d = self.draws(opts.len());
        proof {
            self.lemma_wf_off_board(&pre);
        }
        let mut keys: Vec<i128> = Vec::new();
        let mut k: usize = 0;
        while k < opts.len()
            invariant
                k <= opts@.len(),
                d@.len() == opts@.len(),
                keys@.len() == k,
                forall|j: int| 0 <= j < opts@.len() ==> 0 <= (#[trigger] opts@[j]).1 <= 30,
                forall|j: int| 0 <= j < k ==> #[trigger] keys@[j] == opts@[j].1 * draw_unit() + 1 * d@[j],
            decreases opts@.len() - k,
        {
            let key = draw_key(opts[k].1, d[k], 1);
            keys.push(key);
            k += 1;
        }
        match first_max(&keys) {
            None => {
                proof {
                    assert forall|q: (i32, i32)| !#[trigger] pre.spot_ok(ti as int, q) by {
                        if pre.spot_ok(ti as int, q) {
                            let j = choose|j: int| 0 <= j < opts@.len() && (#[trigger] opts@[j]).0 == q;
                        }
                    }
                }
                None
            },
            Some(i) => {
                let (p, _) = opts[i];
                proof {
                    assert forall|q: (i32, i32)|
                        #[trigger] pre.spot_ok(ti as int, q) implies pre.spot_score(ti as int, ai, q)
                            <= pre.spot_score(ti as int, ai, p) + 1 by {
                        let j = choose|j: int| 0 <= j < opts@.len() && (#[trigger] opts@[j]).0 == q;
                        assert(keys@[j] <= keys@[i as int]);
                        lemma_near_best(opts@[i as int].1 as int, d@[i as int] as int, opts@[j].1 as int, d@[j] as int, 1);
                    }
                }
                Some(p)
            },
        }
    }
}

impl Game {
    /// Only the board, the territories and the generator may differ.
    pub open spec fn board_frame(&self, pre: &Game) -> bool {
        &&& self.same_setup(pre)
        &&& self.round == pre.round
        &&& self.current == pre.current
        &&& self.log@ == pre.log@
        &&& self.sel == pre.sel
        &&& self.focus == pre.focus
    }

    /// `post` is `pre` after seat `ai` moved a man of its own.
    pub open spec fn moved_by(pre: &Game, post: &Game, ai: i8) -> bool {
        exists|f: (i32, i32), t: (i32, i32)|
            #[trigger] pre.ai_move_ok(ai, f, t) && post.grid@ == pre.moved_grid(f, t) && post.terrs@ == pre.terrs@
    }

    /// `post` is `pre` after seat `ai` took a hex.
    pub open spec fn attacked_by(pre: &Game, post: &Game, ai: i8) -> bool {
        exists|f: (i32, i32), t: (i32, i32)|
            #[trigger] pre.ai_attack_ok(ai, f, t) && post.grid@ == pre.attacked_grid(f, t, ai) && post.recounted(
                pre.terrs@,
            )
    }

    /// `post` is `pre` after seat `ai` bought a peasant or a castle.
    pub open spec fn bought_by(pre: &Game, post: &Game, ai: i8) -> bool {
        exists|p: (i32, i32), castle: bool|
            #[trigger] pre.buy_result(p, castle, ai) is Ok && {
                let ti = pre.terr_of(p).unwrap() as int;
                let t = pre.terrs@[ti];
                &&& post.grid@ == pre.grid@.update(
                    ix(pre.cols as int, p),
                    crate::economy::bought_hex(pre.hex_at(p), castle),
                )
                &&& post.terrs@ == pre.terrs@.update(
                    ti,
                    Terr { savings: (t.savings - crate::economy::buy_cost(castle)) as i64, ..t },
                )
            }
    }

    /// `post` is `pre` after one legal action of seat `ai`: a move or
    /// combine of its own men, a conquest, or a purchase.
    pub open spec fn one_action(pre: &Game, post: &Game, ai: i8) -> bool {
        &&& post.wf()
        &&& post.board_frame(pre)
        &&& Game::moved_by(pre, post, ai) || Game::attacked_by(pre, post, ai) || Game::bought_by(pre, post, ai)
    }
}

impl Game {
    /// `post` is `pre` after seat `ai` moved a man or bought something.
    pub open spec fn plain_action(pre: &Game, post: &Game, ai: i8) -> bool {
        &&& post.wf()
        &&& post.board_frame(pre)
        &&& Game::moved_by(pre, post, ai) || Game::bought_by(pre, post, ai)
    }
}

impl Game {
    /// `post` is `pre` after a purchase on `p` (a castle when `castle`):
    /// the hex holds it and its territory paid for it.
    pub open spec fn bought_on(pre: &Game, post: &Game, p: (i32, i32), castle: bool) -> bool {
        let ti = pre.terr_of(p).unwrap() as int;
        let t = pre.terrs@[ti];
        &&& pre.terr_of(p) is Some
        &&& post.grid@ == pre.grid@.update(ix(pre.cols as int, p), crate::economy::bought_hex(pre.hex_at(p), castle))
        &&& post.terrs@ == pre.terrs@.update(
            ti,
            Terr { savings: (t.savings - crate::economy::buy_cost(castle)) as i64, ..t },
        )
    }

    /// `post` is `pre` after seat `ai` took, with a legal attack, a hex
    /// that scores within ten of the best legal attack.
    pub open spec fn took_best(pre: &Game, post: &Game, ai: i8, aggro: int) -> bool {
        exists|f: (i32, i32), t: (i32, i32)|
            #[trigger] pre.ai_attack_ok(ai, f, t) && (forall|f2: (i32, i32), t2: (i32, i32)|
                #[trigger] pre.ai_attack_ok(ai, f2, t2) ==> pre.attack_score(ai, aggro, t2) <= pre.attack_score(ai, aggro, t)
                    + 10) && post.grid@ == pre.attacked_grid(f, t, ai) && post.recounted(pre.terrs@)
    }

    /// Territory `ti` is a largest territory of seat `ai` that buys a
    /// peasant.
    pub open spec fn largest_buyer(&self, ti: int, ai: i8, easy: bool) -> bool {
        &&& 0 <= ti < self.terrs@.len()
        &&& self.buy_wanted(ti, ai, easy)
        &&& forall|tj: int|
            0 <= tj < self.terrs@.len() && #[trigger] self.buy_wanted(tj, ai, easy) ==> self.terrs@[tj].hexes@.len()
                <= self.terrs@[ti].hexes@.len()
    }

    /// `p` is a buying spot of territory `ti` within one of the best.
    pub open spec fn near_best_spot(&self, ti: int, ai: i8, p: (i32, i32)) -> bool {
        &&& self.spot_ok(ti, p)
        &&& forall|q: (i32, i32)| #[trigger] self.spot_ok(ti, q) ==> self.spot_score(ti, ai, q) <= self.spot_score(ti, ai, p) + 1
    }

    /// `post` is `pre` after a largest buying territory of seat `ai` bought a
    /// peasant on a near-best spot.
    pub open spec fn bought_man(pre: &Game, post: &Game, ai: i8, easy: bool) -> bool {
        exists|ti: int, p: (i32, i32)|
            #[trigger] pre.near_best_spot(ti, ai, p) && pre.largest_buyer(ti, ai, easy) && pre.terr_of(p) == Some(
                ti as usize,
            ) && Game::bought_on(pre, post, p, false)
    }

    /// `post` is `pre` after a combining territory of seat `ai` moved its
    /// strongest fresh man onto the next strongest.
    pub open spec fn joined_top(pre: &Game, post: &Game, ai: i8, easy: bool) -> bool {
        exists|ti: int, a: (i32, i32), b: (i32, i32)|
            #[trigger] pre.top_pair(ti, a, b) && 0 <= ti < pre.terrs@.len() && pre.combine_wanted(ti, ai, easy)
                && post.grid@ == pre.moved_grid(a, b) && post.terrs@ == pre.terrs@
    }

    /// `post` is `pre` after seat `ai` built a castle on a castle spot.
    pub open spec fn built_castle(pre: &Game, post: &Game, ai: i8) -> bool {
        exists|ti: int, p: (i32, i32)|
            0 <= ti < pre.terrs@.len() && #[trigger] pre.castle_spot(ti, p, ai) && Game::bought_on(pre, post, p, true)
    }

    /// `post` is `pre` after the building phases of seat `ai`, in their
    /// order: a purchase when a territory buys, else a combine, else a
    /// castle.
    pub open spec fn built_in_order(pre: &Game, post: &Game, ai: i8, easy: bool) -> bool {
        &&& pre.can_buy(ai, easy) ==> Game::bought_man(pre, post, ai, easy)
        &&& !pre.can_buy(ai, easy) && pre.can_combine(ai, easy) ==> Game::joined_top(pre, post, ai, easy)
        &&& !pre.can_buy(ai, easy) && !pre.can_combine(ai, easy) && pre.can_castle(ai) ==> Game::built_castle(pre, post, ai)
    }
}

/// A purchase on a board reads nothing of the generator.
proof fn lemma_bought_on_same(pre: &Game, s: &Game, post: &Game, p: (i32, i32), castle: bool)
    requires
        s.cols == pre.cols,
        s.grid@ == pre.grid@,
        s.terrs@ == pre.terrs@,
        Game::bought_on(s, post, p, castle),
    ensures
        Game::bought_on(pre, post, p, castle),
{
    assert(s.terr_of(p) == pre.terr_of(p));
    assert(s.hex_at(p) == pre.hex_at(p));
}

/// The first territory of `order` (largest first) that buys is a largest
/// buying territory.
proof fn lemma_first_buyer_largest(pre: &Game, ai: i8, easy: bool, tis: Seq<usize>, order: Seq<usize>, k: int)
    requires
        0 <= k < order.len(),
        forall|j: int| 0 <= j < k ==> !pre.buy_wanted(#[trigger] order[j] as int, ai, easy),
        forall|j: int| 0 <= j < tis.len() ==> order.contains(#[trigger] tis[j]),
        forall|i: int, j: int|
            0 <= i < j < order.len() ==> pre.terrs@[#[trigger] order[i] as int].hexes@.len()
                >= pre.terrs@[#[trigger] order[j] as int].hexes@.len(),
        forall|j: int| 0 <= j < order.len() ==> #[trigger] order[j] < pre.terrs@.len(),
        tis == terr_indices(pre.terrs@, ai),
        pre.terrs@.len() <= usize::MAX,
        pre.buy_wanted(order[k] as int, ai, easy),
    ensures
        pre.largest_buyer(order[k] as int, ai, easy),
{
    let ti = order[k] as int;
    lemma_terr_indices(pre.terrs@, ai);
    assert forall|tj: int|
        0 <= tj < pre.terrs@.len() && #[trigger] pre.buy_wanted(tj, ai, easy) implies pre.terrs@[tj].hexes@.len()
            <= pre.terrs@[ti].hexes@.len() by {
        assert(pre.terrs@[tj].owner == ai);
        assert(tis.contains(tj as usize));
        let a = choose|a: int| 0 <= a < tis.len() && tis[a] == tj as usize;
        assert(order.contains(tis[a]));
        let b = choose|b: int| 0 <= b < order.len() && order[b] == tj as usize;
        if b < k {
            assert(!pre.buy_wanted(order[b] as int, ai, easy));
        } else if b > k {
            assert(pre.terrs@[order[k] as int].hexes@.len() >= pre.terrs@[order[b] as int].hexes@.len());
        }
    }
}

/// A near-best purchase found on a board that differs only in the
/// generator is one on the first board too.
proof fn lemma_bought_man(pre: &Game, s: &Game, post: &Game, ai: i8, easy: bool, ti: int)
    requires
        s.cols == pre.cols,
        s.rows == pre.rows,
        s.grid@ == pre.grid@,
        s.terrs@ == pre.terrs@,
        pre.largest_buyer(ti, ai, easy),
        exists|p: (i32, i32)|
            #[trigger] s.near_best_spot(ti, ai, p) && s.terr_of(p) == Some(ti as usize)
                && Game::bought_on(s, post, p, false),
    ensures
        Game::bought_man(pre, post, ai, easy),
{
    let sp = choose|p: (i32, i32)|
        #[trigger] s.near_best_spot(ti, ai, p) && s.terr_of(p) == Some(ti as usize) && Game::bought_on(s, post, p, false);
    pre.lemma_spot_same(s, ti, ai, sp);
    assert forall|q: (i32, i32)| #[trigger] pre.spot_ok(ti, q) implies pre.spot_score(ti, ai, q) <= pre.spot_score(ti, ai, sp) + 1 by {
        pre.lemma_spot_same(s, ti, ai, q);
        assert(s.spot_ok(ti, q));
    }
    assert(pre.near_best_spot(ti, ai, sp));
    assert(s.terr_of(sp) == pre.terr_of(sp));
    lemma_bought_on_same(pre, s, post, sp, false);
}

/// A combine found on a board that differs only in the generator is one on
/// the first board too.
proof fn lemma_joined_same(pre: &Game, s: &Game, post: &Game, ai: i8, easy: bool)
    requires
        pre.wf(),
        s.same_except_rng(pre),
        Game::joined_top(s, post, ai, easy),
    ensures
        Game::joined_top(pre, post, ai, easy),
{
    let (ti, a, b) = choose|ti: int, a: (i32, i32), b: (i32, i32)|
        #[trigger] s.top_pair(ti, a, b) && 0 <= ti < s.terrs@.len() && s.combine_wanted(ti, ai, easy)
            && post.grid@ == s.moved_grid(a, b) && post.terrs@ == s.terrs@;
    pre.lemma_combine_same(s, ti, ai, easy);
    assert forall|q: (i32, i32)| #[trigger] pre.fresh_man(ti, q) == s.fresh_man(ti, q) by {
        assert(pre.hex_at(q) == s.hex_at(q));
    }
    assert(pre.top_pair(ti, a, b));
    assert(pre.moved_grid(a, b) == s.moved_grid(a, b));
}

/// A castle found on a board that differs only in the generator is one on
/// the first board too.
proof fn lemma_castled_same(pre: &Game, s: &Game, post: &Game, ai: i8)
    requires
        s.same_except_rng(pre),
        Game::built_castle(s, post, ai),
    ensures
        Game::built_castle(pre, post, ai),
{
    let (ti, p) = choose|ti: int, p: (i32, i32)|
        0 <= ti < s.terrs@.len() && #[trigger] s.castle_spot(ti, p, ai) && Game::bought_on(s, post, p, true);
    pre.lemma_castle_same(s, ti, p, ai);
    lemma_bought_on_same(pre, s, post, p, true);
    assert(pre.castle_spot(ti, p, ai));
}

/// The building phases found on a board that differs only in the
/// generator are those of the first board too.
proof fn lemma_built_same(pre: &Game, s: &Game, post: &Game, ai: i8, easy: bool)
    requires
        pre.wf(),
        s.same_except_rng(pre),
        Game::built_in_order(s, post, ai, easy),
    ensures
        Game::built_in_order(pre, post, ai, easy),
{
    pre.lemma_wants_same(s, ai, easy);
    if pre.can_buy(ai, easy) {
        let (ti, p) = choose|ti: int, p: (i32, i32)|
            #[trigger] s.near_best_spot(ti, ai, p) && s.largest_buyer(ti, ai, easy) && s.terr_of(p) == Some(ti as usize)
                && Game::bought_on(s, post, p, false);
        assert forall|tj: int|
            0 <= tj < pre.terrs@.len() && #[trigger] pre.buy_wanted(tj, ai, easy) implies pre.terrs@[tj].hexes@.len()
                <= pre.terrs@[ti].hexes@.len() by {
            assert(s.buy_wanted(tj, ai, easy));
        }
        assert(pre.largest_buyer(ti, ai, easy));
        lemma_bought_man(pre, s, post, ai, easy, ti);
    } else if pre.can_combine(ai, easy) {
        lemma_joined_same(pre, s, post, ai, easy);
    } else if pre.can_castle(ai) {
        lemma_castled_same(pre, s, post, ai);
    }
}

/// A board that changes only at the hexes `a` and `b` of seat `ai`, and
/// keeps them the seat's.
pub open spec fn changes_only_own(pre: &Game, post: &Game, a: (i32, i32), b: (i32, i32), ai: i8) -> bool {
    &&& pre.inside(a) && pre.hex_at(a).owner == ai && post.hex_at(a).owner == ai
    &&& pre.inside(b) && post.hex_at(b).owner == ai
    &&& post.grid@.len() == pre.grid@.len()
    &&& forall|q: (i32, i32)| pre.inside(q) && q != a && q != b ==> #[trigger] post.hex_at(q) == pre.hex_at(q)
}

/// One step of a computer seat keeps every hex the seat held as its own,
/// and leaves every hex that it does not hold afterwards exactly as it was.
#[verifier::rlimit(60)]
pub proof fn lemma_step_keeps_land(pre: &Game, post: &Game, ai: i8)
    requires
        pre.wf(),
        Game::step_ok(pre, post, ai),
    ensures
        forall|q: (i32, i32)| pre.inside(q) && pre.hex_at(q).owner == ai ==> #[trigger] post.hex_at(q).owner == ai,
        forall|q: (i32, i32)| pre.inside(q) && #[trigger] post.hex_at(q).owner != ai ==> post.hex_at(q) == pre.hex_at(q),
{
    let c = pre.cols as int;
    let r = pre.rows as int;
    if post.same_except_rng(pre) && post.wf() {
        assert forall|q: (i32, i32)| pre.inside(q) implies #[trigger] post.hex_at(q) == pre.hex_at(q) by {}
        return;
    }
    assert(Game::one_action(pre, post, ai));
    let mut a = (0i32, 0i32);
    let mut b = (0i32, 0i32);
    if Game::moved_by(pre, post, ai) {
        let (f, t) = choose|f: (i32, i32), t: (i32, i32)|
            #[trigger] pre.ai_move_ok(ai, f, t) && post.grid@ == pre.moved_grid(f, t) && post.terrs@ == pre.terrs@;
        crate::economy::lemma_terr_of_some(pre, f);
        let i = pre.terr_of(f).unwrap() as int;
        pre.lemma_member(i, f);
        pre.lemma_member(i, t);
        lemma_ix_bounds(c, r, f);
        lemma_ix_bounds(c, r, t);
        assert forall|q: (i32, i32)| pre.inside(q) && q != f && q != t implies #[trigger] post.hex_at(q) == pre.hex_at(q) by {
            lemma_ix_bounds(c, r, q);
            if ix(c, q) == ix(c, f) {
                crate::hexgrid::lemma_ix_inj(c, r, q, f);
            }
            if ix(c, q) == ix(c, t) {
                crate::hexgrid::lemma_ix_inj(c, r, q, t);
            }
        }
        a = f;
        b = t;
    } else if Game::attacked_by(pre, post, ai) {
        let (f, t) = choose|f: (i32, i32), t: (i32, i32)|
            #[trigger] pre.ai_attack_ok(ai, f, t) && post.grid@ == pre.attacked_grid(f, t, ai) && post.recounted(pre.terrs@);
        reveal(Game::ai_attack_ok);
        crate::economy::lemma_terr_of_some(pre, f);
        let i = pre.terr_of(f).unwrap() as int;
        pre.lemma_member(i, f);
        assert(pre.adj(f, t));
        assert(pre.inside(t));
        assert(f != t);
        lemma_ix_bounds(c, r, f);
        lemma_ix_bounds(c, r, t);
        if ix(c, f) == ix(c, t) {
            crate::hexgrid::lemma_ix_inj(c, r, f, t);
        }
        assert forall|q: (i32, i32)| pre.inside(q) && q != f && q != t implies #[trigger] post.hex_at(q) == pre.hex_at(q) by {
            lemma_ix_bounds(c, r, q);
            if ix(c, q) == ix(c, f) {
                crate::hexgrid::lemma_ix_inj(c, r, q, f);
            }
            if ix(c, q) == ix(c, t) {
                crate::hexgrid::lemma_ix_inj(c, r, q, t);
            }
        }
        a = f;
        b = t;
    } else {
        let (p, castle) = choose|p: (i32, i32), castle: bool|
            #[trigger] pre.buy_result(p, castle, ai) is Ok && {
                let ti = pre.terr_of(p).unwrap() as int;
                let t = pre.terrs@[ti];
                &&& post.grid@ == pre.grid@.update(ix(pre.cols as int, p), crate::economy::bought_hex(pre.hex_at(p), castle))
                &&& post.terrs@ == pre.terrs@.update(
                    ti,
                    Terr { savings: (t.savings - crate::economy::buy_cost(castle)) as i64, ..t },
                )
            };
        crate::economy::lemma_terr_of_some(pre, p);
        let i = pre.terr_of(p).unwrap() as int;
        pre.lemma_member(i, p);
        lemma_ix_bounds(c, r, p);
        assert forall|q: (i32, i32)| pre.inside(q) && q != p && q != p implies #[trigger] post.hex_at(q) == pre.hex_at(q) by {
            lemma_ix_bounds(c, r, q);
            if ix(c, q) == ix(c, p) {
                crate::hexgrid::lemma_ix_inj(c, r, q, p);
            }
        }
        a = p;
        b = p;
    }
    assert(changes_only_own(pre, post, a, b, ai));
}

/// A move or a purchase reads nothing of the generator.
proof fn lemma_plain_transfer(pre: &Game, s: &Game, post: &Game, ai: i8)
    requires
        s.same_except_rng(pre),
        Game::plain_action(s, post, ai),
    ensures
        Game::plain_action(pre, post, ai),
{
    if Game::moved_by(s, post, ai) {
        let (f, t) = choose|f: (i32, i32), t: (i32, i32)|
            #[trigger] s.ai_move_ok(ai, f, t) && post.grid@ == s.moved_grid(f, t) && post.terrs@ == s.terrs@;
        assert(pre.ai_move_ok(ai, f, t));
        assert(Game::moved_by(pre, post, ai));
    } else {
        let (p, castle) = choose|p: (i32, i32), castle: bool|
            #[trigger] s.buy_result(p, castle, ai) is Ok && {
                let ti = s.terr_of(p).unwrap() as int;
                let t = s.terrs@[ti];
                &&& post.grid@ == s.grid@.update(
                    ix(s.cols as int, p),
                    crate::economy::bought_hex(s.hex_at(p), castle),
                )
                &&& post.terrs@ == s.terrs@.update(
                    ti,
                    Terr { savings: (t.savings - crate::economy::buy_cost(castle)) as i64, ..t },
                )
            };
        assert(pre.buy_result(p, castle, ai) is Ok);
        assert(Game::bought_by(pre, post, ai));
    }
}

impl Game {
    /// The fresh men of territory `ti`.
    pub open spec fn fresh_man(&self, ti: int, p: (i32, i32)) -> bool {
        &&& self.terrs@[ti].hexes@.contains(p)
        &&& self.hex_at(p).unit != 0
        &&& !self.hex_at(p).acted
    }

    /// The two strongest fresh men of territory `ti`: the first of highest
    /// rank, then the first of highest rank among the others; `None` when
    /// it has fewer than two.
    pub fn top_two(&self, ti: usize) -> (r: Option<((i32, i32), (i32, i32))>)
        requires
            self.wf(),
            ti < self.terrs@.len(),
        ensures
            match r {
                Some((a, b)) => {
                    &&& self.fresh_man(ti as int, a)
                    &&& self.fresh_man(ti as int, b)
                    &&& a != b
                    &&& forall|q: (i32, i32)| #[trigger] self.fresh_man(ti as int, q) ==> self.hex_at(q).unit <= self.hex_at(a).unit
                    &&& forall|q: (i32, i32)|
                        #[trigger] self.fresh_man(ti as int, q) && q != a ==> self.hex_at(q).unit <= self.hex_at(b).unit
                },
                None => forall|q1: (i32, i32), q2: (i32, i32)|
                    #[trigger] self.fresh_man(ti as int, q1) && #[trigger] self.fresh_man(ti as int, q2) ==> q1 == q2,
            },
    {
        let ghost t = ti as int;
        let hexes = &self.terrs[ti].hexes;
        let ghost hs = hexes@;
        proof {
            assert(crate::game::terr_shape(self.cols as int, self.rows as int, self.players@.len() as int, self.terrs@[t]));
        }
        let n = hexes.len();
        match self.best_man(ti, n) {
            None => {
                proof {
                    assert forall|q1: (i32, i32), q2: (i32, i32)|
                        #[trigger] self.fresh_man(t, q1) && #[trigger] self.fresh_man(t, q2) implies q1 == q2 by {
                        let k = choose|k: int| 0 <= k < hs.len() && hs[k] == q1;
                        assert(self.fresh_man(t, hs[k]));
                    }
                }
                None
            },
            Some(ia) => {
                match self.best_man(ti, ia) {
                    None => {
                        proof {
                            assert forall|q1: (i32, i32), q2: (i32, i32)|
                                #[trigger] self.fresh_man(t, q1) && #[trigger] self.fresh_man(t, q2) implies q1 == q2 by {
                                let k1 = choose|k: int| 0 <= k < hs.len() && hs[k] == q1;
                                let k2 = choose|k: int| 0 <= k < hs.len() && hs[k] == q2;
                                assert(self.fresh_man(t, hs[k1]));
                                assert(self.fresh_man(t, hs[k2]));
                            }
                        }
                        None
                    },
                    Some(ib) => {
                        let a = hexes[ia];
                        let b = hexes[ib];
                        proof {
                            if ia < ib {
                                assert(crate::game::lex_lt(hs[ia as int], hs[ib as int]));
                            } else {
                                assert(crate::game::lex_lt(hs[ib as int], hs[ia as int]));
                            }
                            assert forall|q: (i32, i32)| #[trigger] self.fresh_man(t, q) implies self.hex_at(q).unit
                                <= self.hex_at(a).unit by {
                                let k = choose|k: int| 0 <= k < hs.len() && hs[k] == q;
                                assert(self.fresh_man(t, hs[k]));
                            }
                            assert forall|q: (i32, i32)| #[trigger] self.fresh_man(t, q) && q != a implies self.hex_at(q).unit
                                <= self.hex_at(b).unit by {
                                let k = choose|k: int| 0 <= k < hs.len() && hs[k] == q;
                                assert(self.fresh_man(t, hs[k]));
                            }
                        }
                        Some((a, b))
                    },
                }
            },
        }
    }

    /// The first fresh man of highest rank in territory `ti`, other than
    /// the one at position `skip`.
    fn best_man(&self, ti: usize, skip: usize) -> (r: Option<usize>)
        requires
            self.wf(),
            ti < self.terrs@.len(),
        ensures
            match r {
                Some(i) => {
                    &&& i < self.terrs@[ti as int].hexes@.len()
                    &&& i != skip
                    &&& self.fresh_man(ti as int, self.terrs@[ti as int].hexes@[i as int])
                    &&& forall|k: int|
                        0 <= k < self.terrs@[ti as int].hexes@.len() && k != skip && #[trigger] self.fresh_man(
                            ti as int,
                            self.terrs@[ti as int].hexes@[k],
                        ) ==> self.hex_at(self.terrs@[ti as int].hexes@[k]).unit <= self.hex_at(
                            self.terrs@[ti as int].hexes@[i as int],
                        ).unit
                },
                None => forall|k: int|
                    0 <= k < self.terrs@[ti as int].hexes@.len() && k != skip ==> !#[trigger] self.fresh_man(
                        ti as int,
                        self.terrs@[ti as int].hexes@[k],
                    ),
            },
    {
        let ghost t = ti as int;
        let hexes = &self.terrs[ti].hexes;
        let ghost hs = hexes@;
        proof {
            assert forall|i: int| 0 <= i < hs.len() implies self.inside(#[trigger] hs[i]) by {
                assert(hs.contains(hs[i]));
                self.lemma_member(t, hs[i]);
            }
        }
        let mut best: Option<usize> = None;
        let mut best_unit: u8 = 0;
        let mut k: usize = 0;
        while k < hexes.len()
            invariant
                self.dims_ok(),
                t == ti as int,
                ti < self.terrs@.len(),
                hs == hexes@,
                hs == self.terrs@[t].hexes@,
                forall|i: int| 0 <= i < hs.len() ==> self.inside(#[trigger] hs[i]),
                k <= hs.len(),
                match best {
                    Some(i) => {
                        &&& i < k
                        &&& i != skip
                        &&& self.fresh_man(t, hs[i as int])
                        &&& best_unit == self.hex_at(hs[i as int]).unit
                        &&& forall|kk: int|
                            0 <= kk < k && kk != skip && #[trigger] self.fresh_man(t, hs[kk]) ==> self.hex_at(hs[kk]).unit
                                <= best_unit
                    },
                    None => forall|kk: int| 0 <= kk < k && kk != skip ==> !#[trigger] self.fresh_man(t, hs[kk]),
                },
            decreases hs.len() - k,
        {
            let p = hexes[k];
            proof {
                assert(self.inside(hs[k as int]));
                self.lemma_inside_index(p);
                assert(hs.contains(p));
            }
            let h = self.grid[Game::idx(self.cols, p.0, p.1)];
            if k != skip && h.unit != 0 && !h.acted {
                let better = match best {
                    None => true,
                    Some(_) => h.unit > best_unit,
                };
                if better {
                    best = Some(k);
                    best_unit = h.unit;
                }
            }
            k += 1;
        }
        best
    }
}

impl Game {
    /// The territories `tis` ordered by size, largest first, keeping the
    /// given order among equals.
    fn by_size(&self, tis: &Vec<usize>) -> (out: Vec<usize>)
        requires
            forall|j: int| 0 <= j < tis@.len() ==> #[trigger] tis@[j] < self.terrs@.len(),
        ensures
            out@.len() == tis@.len(),
            forall|j: int| 0 <= j < out@.len() ==> #[trigger] out@[j] < self.terrs@.len(),
            forall|j: int| 0 <= j < tis@.len() ==> out@.contains(#[trigger] tis@[j]),
            forall|j: int| 0 <= j < out@.len() ==> tis@.contains(#[trigger] out@[j]),
            forall|i: int, j: int|
                0 <= i < j < out@.len() ==> self.terrs@[#[trigger] out@[i] as int].hexes@.len()
                    >= self.terrs@[#[trigger] out@[j] as int].hexes@.len(),
    {
        let mut out: Vec<usize> = Vec::new();
        let mut k: usize = 0;
        while k < tis.len()
            invariant
                forall|j: int| 0 <= j < tis@.len() ==> #[trigger] tis@[j] < self.terrs@.len(),
                k <= tis@.len(),
                out@.len() == k,
                forall|j: int| 0 <= j < out@.len() ==> #[trigger] out@[j] < self.terrs@.len(),
                forall|j: int| 0 <= j < k ==> out@.contains(#[trigger] tis@[j]),
                forall|j: int| 0 <= j < out@.len() ==> tis@.contains(#[trigger] out@[j]),
                forall|i: int, j: int|
                    0 <= i < j < out@.len() ==> self.terrs@[#[trigger] out@[i] as int].hexes@.len()
                        >= self.terrs@[#[trigger] out@[j] as int].hexes@.len(),
            decreases tis@.len() - k,
        {
            let e = tis[k];
            let size = self.terrs[e].hexes.len();
            let mut pos = out.len();
            while pos > 0 && self.terrs[out[pos - 1]].hexes.len() < size
                invariant
                    pos <= out@.len(),
                    forall|j: int| 0 <= j < out@.len() ==> #[trigger] out@[j] < self.terrs@.len(),
                    forall|m: int| pos <= m < out@.len() ==> self.terrs@[#[trigger] out@[m] as int].hexes@.len() < size,
                decreases pos,
            {
                pos -= 1;
            }
            let ghost before = out@;
            out.insert(pos, e);
            proof {
                assert forall|j: int| 0 <= j < out@.len() implies #[trigger] out@[j] < self.terrs@.len() by {
                    if j < pos {
                        assert(out@[j] == before[j]);
                    } else if j > pos {
                        assert(out@[j] == before[j - 1]);
                    }
                }
                assert forall|j: int| 0 <= j < k + 1 implies out@.contains(#[trigger] tis@[j]) by {
                    if j == k {
                        assert(out@[pos as int] == e);
                    } else {
                        let m = choose|m: int| 0 <= m < before.len() && before[m] == tis@[j];
                        if m < pos {
                            assert(out@[m] == before[m]);
                        } else {
                            assert(out@[m + 1] == before[m]);
                        }
                    }
                }
                assert forall|j: int| 0 <= j < out@.len() implies tis@.contains(#[trigger] out@[j]) by {
                    if j < pos {
                        assert(out@[j] == before[j]);
                        assert(tis@.contains(before[j]));
                    } else if j > pos {
                        assert(out@[j] == before[j - 1]);
                        assert(tis@.contains(before[j - 1]));
                    } else {
                        assert(out@[j] == tis@[k as int]);
                    }
                }
                assert forall|i: int, j: int| 0 <= i < j < out@.len() implies self.terrs@[#[trigger] out@[i] as int].hexes@.len()
                    >= self.terrs@[#[trigger] out@[j] as int].hexes@.len() by {
                    if i < pos {
                        assert(out@[i] == before[i]);
                    } else if i > pos {
                        assert(out@[i] == before[i - 1]);
                    }
                    if j < pos {
                        assert(out@[j] == before[j]);
                    } else if j > pos {
                        assert(out@[j] == before[j - 1]);
                    }
                    if i == pos {
                        assert(self.terrs@[before[j - 1] as int].hexes@.len() < size);
                    } else if j == pos {
                        if i < pos && pos > 0 {
                            assert(self.terrs@[before[pos - 1] as int].hexes@.len() >= size);
                            if i < pos - 1 {
                                assert(self.terrs@[before[i] as int].hexes@.len() >= self.terrs@[before[pos - 1] as int].hexes@.len());
                            }
                        }
                    }
                }
            }
            k += 1;
        }
        out
    }

    /// An enemy man of rank two or more stands next to `p`.
    pub open spec fn danger_spec(&self, ai: i8, p: (i32, i32)) -> bool {
        exists|q: (i32, i32)|
            #[trigger] self.adj(p, q) && self.hex_at(q).owner != -1 && self.hex_at(q).owner != ai && self.hex_at(q).unit >= 2
    }

    fn danger_at(&self, ai: i8, p: (i32, i32)) -> (b: bool)
        requires
            self.dims_ok(),
            self.inside(p),
        ensures
            b == self.danger_spec(ai, p),
    {
        let ghost c = self.cols as int;
        let ghost r = self.rows as int;
        let nb = self.neighbours(p.0, p.1);
        proof {
            lemma_nbrs(c, r, p.0, p.1);
        }
        let mut j: usize = 0;
        while j < nb.len()
            invariant
                self.dims_ok(),
                c == self.cols,
                r == self.rows,
                nb@ == nbrs(c, r, p.0, p.1),
                forall|q: (i32, i32)| nb@.contains(q) <==> adjacent(c, r, p, q),
                forall|jj: int| 0 <= jj < nb@.len() ==> in_grid(c, r, #[trigger] nb@[jj]),
                j <= nb@.len(),
                forall|jj: int|
                    0 <= jj < j ==> !(self.hex_at(#[trigger] nb@[jj]).owner != -1 && self.hex_at(nb@[jj]).owner != ai
                        && self.hex_at(nb@[jj]).unit >= 2),
            decreases nb@.len() - j,
        {
            let q = nb[j];
            proof {
                assert(in_grid(c, r, nb@[j as int]));
                self.lemma_inside_index(q);
            }
            let qh = self.grid[Game::idx(self.cols, q.0, q.1)];
            if qh.owner != -1 && qh.owner != ai && qh.unit >= 2 {
                proof {
                    assert(nb@.contains(q));
                    assert(self.adj(p, q));
                }
                return true;
            }
            j += 1;
        }
        proof {
            assert forall|q: (i32, i32)| #[trigger] self.adj(p, q) implies !(self.hex_at(q).owner != -1
                && self.hex_at(q).owner != ai && self.hex_at(q).unit >= 2) by {
                assert(nb@.contains(q));
                let jj = choose|jj: int| 0 <= jj < nb@.len() && nb@[jj] == q;
            }
        }
        false
    }

    /// Buying: territories of seat `ai`, largest first, that can afford a
    /// peasant and still pay the next wages (on easy with a margin of
    /// four), or that earn nothing but hold ten gold, and that want a man,
    /// buy one on their best spot.
    #[verifier::rlimit(50)]
    fn step_buy(&mut self, ai: i8, easy: bool) -> (acted: bool)
        requires
            old(self).wf(),
        ensures
            final(self).wf(),
            acted ==> Game::plain_action(old(self), final(self), ai),
            !acted ==> final(self).same_except_rng(old(self)),
            acted <==> old(self).can_buy(ai, easy),
            acted ==> Game::bought_man(old(self), final(self), ai, easy),
    {
        let ghost pre = *self;
        proof {
            self.lemma_wf_sizes();
            lemma_terr_indices(self.terrs@, ai);
        }
        let tis = self.terrs_of(ai);
        let order = self.by_size(&tis);
        let mut k: usize = 0;
        while k < order.len()
            invariant
                pre == *old(self),
                pre.wf(),
                self.wf(),
                self.same_except_rng(&pre),
                k <= order@.len(),
                forall|j: int| 0 <= j < order@.len() ==> #[trigger] order@[j] < self.terrs@.len(),
                forall|j: int| 0 <= j < k ==> !pre.buy_wanted(#[trigger] order@[j] as int, ai, easy),
                forall|j: int| 0 <= j < tis@.len() ==> order@.contains(#[trigger] tis@[j]),
                forall|i: int, j: int|
                    0 <= i < j < order@.len() ==> pre.terrs@[#[trigger] order@[i] as int].hexes@.len()
                        >= pre.terrs@[#[trigger] order@[j] as int].hexes@.len(),
                tis@ == terr_indices(pre.terrs@, ai),
            decreases order@.len() - k,
        {
            let ghost s = *self;
            proof {
                pre.lemma_wants_same(&s, ai, easy);
            }
            if self.try_buy(order[k], ai, easy) {
                proof {
                    lemma_plain_transfer(&pre, &s, self, ai);
                    pre.lemma_wf_sizes();
                    lemma_first_buyer_largest(&pre, ai, easy, tis@, order@, k as int);
                    lemma_bought_man(&pre, &s, self, ai, easy, order@[k as int] as int);
                }
                return true;
            }
            k += 1;
        }
        proof {
            assert forall|ti: int| 0 <= ti < pre.terrs@.len() && #[trigger] pre.buy_wanted(ti, ai, easy) implies false by {
                assert(terr_indices(pre.terrs@, ai).contains(ti as usize));
                let m = choose|m: int| 0 <= m < tis@.len() && tis@[m] == ti as usize;
                assert(order@.contains(tis@[m]));
                let jj = choose|jj: int| 0 <= jj < order@.len() && order@[jj] == ti as usize;
                assert(!pre.buy_wanted(order@[jj] as int, ai, easy));
            }
        }
        false
    }

    /// Territory `ti` buys a peasant for seat `ai` on its best spot when
    /// its treasury allows it and it wants a man.
    #[verifier::rlimit(90)]
    fn try_buy(&mut self, ti: usize, ai: i8, easy: bool) -> (acted: bool)
        requires
            old(self).wf(),
            ti < old(self).terrs@.len(),
        ensures
            final(self).wf(),
            acted ==> Game::plain_action(old(self), final(self), ai),
            !acted ==> final(self).same_except_rng(old(self)),
            acted <==> old(self).buy_wanted(ti as int, ai, easy),
            acted ==> exists|p: (i32, i32)|
                #[trigger] old(self).near_best_spot(ti as int, ai, p) && old(self).terr_of(p) == Some(ti)
                    && Game::bought_on(old(self), final(self), p, false),
    {
        let ghost pre = *self;
        proof {
            self.lemma_wf_sizes();
            assert(self.terr_on_board(ti as int));
            assert(crate::game::terr_shape(self.cols as int, self.rows as int, self.players@.len() as int, self.terrs@[ti as int]));
            lemma_savings_le_total(self.terrs@, ti as int);
            reveal_strlit("man");
            reveal_strlit("castle");
        }
        let wages = self.terr_wages(ti);
        let income = self.terr_income(ti);
        let buf: i64 = if easy {
            4
        } else {
            0
        };
        let sav = self.terrs[ti].savings;
        if sav - crate::rules::BUY_PEASANT + income < wages + crate::rules::wage(1) + buf {
            if income > 0 || sav < crate::rules::BUY_PEASANT {
                return false;
            }
        }
        if !self.needs_man(ti, ai) {
            return false;
        }
        let spot = self.buy_spot(ti, ai);
        match spot {
            Some(sp) => {
                let ghost s = *self;
                match self.buy(sp.0, sp.1, "man", ai) {
                    Ok(_) => {
                        proof {
                            let castle = "man"@ == "castle"@;
                            assert(s.buy_result(sp, castle, ai) is Ok);
                            assert(Game::bought_by(&s, self, ai));
                            lemma_plain_transfer(&pre, &s, self, ai);
                            pre.lemma_terr_of(ti as int, sp);
                            assert(s.terr_of(sp) == pre.terr_of(sp));
                            assert(pre.spot_ok(ti as int, sp));
                            assert("man"@.len() == 3 && "castle"@.len() == 6);
                            assert(Game::bought_on(&s, self, sp, false));
                            lemma_bought_on_same(&pre, &s, self, sp, false);
                            assert(pre.near_best_spot(ti as int, ai, sp));
                        }
                        true
                    },
                    Err(_) => {
                        proof {
                            pre.lemma_terr_of(ti as int, sp);
                            assert(s.terr_of(sp) == pre.terr_of(sp));
                            assert("man"@.len() == 3 && "castle"@.len() == 6);
                            assert(s.buy_result(sp, false, ai) is Err);
                        }
                        false
                    },
                }
            },
            None => false,
        }
    }

    /// Combining: in each territory of seat `ai`, its two strongest fresh
    /// men join when the sum is at most a Baron (on easy at most a
    /// Spearman) and the treasury plus income covers the new wages.
    fn step_combine(&mut self, ai: i8, easy: bool) -> (acted: bool)
        requires
            old(self).wf(),
        ensures
            final(self).wf(),
            acted ==> Game::plain_action(old(self), final(self), ai),
            !acted ==> *final(self) == *old(self),
            acted <==> old(self).can_combine(ai, easy),
            acted ==> Game::joined_top(old(self), final(self), ai, easy),
    {
        let ghost pre = *self;
        proof {
            self.lemma_wf_sizes();
            lemma_terr_indices(self.terrs@, ai);
        }
        let tis = self.terrs_of(ai);
        let mut k: usize = 0;
        while k < tis.len()
            invariant
                pre == *old(self),
                self.wf(),
                *self == pre,
                k <= tis@.len(),
                tis@ == terr_indices(pre.terrs@, ai),
                forall|j: int| 0 <= j < tis@.len() ==> (#[trigger] tis@[j]) < pre.terrs@.len() && pre.terrs@[tis@[j] as int].owner == ai,
                forall|jj: int| 0 <= jj < k ==> !pre.combine_wanted(#[trigger] tis@[jj] as int, ai, easy),
            decreases tis@.len() - k,
        {
            if self.try_combine(tis[k], ai, easy) {
                proof {
                    let ti = tis@[k as int] as int;
                    let (a, b) = choose|a: (i32, i32), b: (i32, i32)|
                        #[trigger] pre.top_pair(ti, a, b) && self.grid@ == pre.moved_grid(a, b) && self.terrs@ == pre.terrs@;
                    assert(pre.top_pair(ti, a, b));
                }
                return true;
            }
            k += 1;
        }
        proof {
            assert forall|ti: int| 0 <= ti < pre.terrs@.len() && #[trigger] pre.combine_wanted(ti, ai, easy) implies false by {
                assert(terr_indices(pre.terrs@, ai).contains(ti as usize));
                let jj = choose|jj: int| 0 <= jj < tis@.len() && tis@[jj] == ti as usize;
                assert(!pre.combine_wanted(tis@[jj] as int, ai, easy));
            }
        }
        false
    }

    /// Territory `ti` of seat `ai` joins its two strongest fresh men when
    /// the rules of combining allow it.
    #[verifier::rlimit(30)]
    fn try_combine(&mut self, ti: usize, ai: i8, easy: bool) -> (acted: bool)
        requires
            old(self).wf(),
            ti < old(self).terrs@.len(),
            old(self).terrs@[ti as int].owner == ai,
        ensures
            final(self).wf(),
            acted ==> Game::plain_action(old(self), final(self), ai),
            !acted ==> *final(self) == *old(self),
            acted <==> old(self).combine_wanted(ti as int, ai, easy),
            acted ==> exists|a: (i32, i32), b: (i32, i32)|
                #[trigger] old(self).top_pair(ti as int, a, b) && final(self).grid@ == old(self).moved_grid(a, b)
                    && final(self).terrs@ == old(self).terrs@,
    {
        let ghost pre = *self;
        proof {
            self.lemma_wf_sizes();
            assert(self.terr_on_board(ti as int));
            assert(crate::game::terr_shape(self.cols as int, self.rows as int, self.players@.len() as int, self.terrs@[ti as int]));
            lemma_savings_le_total(self.terrs@, ti as int);
        }
        let wages = self.terr_wages(ti);
        let income = self.terr_income(ti);
        match self.top_two(ti) {
            None => {
                proof {
                    if pre.combine_wanted(ti as int, ai, easy) {
                        let (a, b) = choose|a: (i32, i32), b: (i32, i32)| #[trigger] pre.top_pair(ti as int, a, b) && {
                            let ua = pre.hex_at(a).unit as int;
                            let ub = pre.hex_at(b).unit as int;
                            &&& ua + ub <= 4
                            &&& (ua + ub > ua || !easy)
                            &&& !(easy && ua + ub > 2)
                            &&& pre.terrs@[ti as int].savings + pre.income_of(ti as int) >= pre.wages_of(ti as int)
                                - wage_spec(ua as u8) - wage_spec(ub as u8) + wage_spec((ua + ub) as u8)
                        };
                        assert(pre.fresh_man(ti as int, a) && pre.fresh_man(ti as int, b));
                    }
                }
                false
            },
            Some((am, bm)) => {
                proof {
                    self.lemma_member(ti as int, am);
                    self.lemma_member(ti as int, bm);
                    assert(crate::game::hex_ok(self.grid@[ix(self.cols as int, am)]));
                    assert(crate::game::hex_ok(self.grid@[ix(self.cols as int, bm)]));
                }
                let a = self.grid[Game::idx(self.cols, am.0, am.1)].unit;
                let b = self.grid[Game::idx(self.cols, bm.0, bm.1)].unit;
                if a + b <= 4 && (a + b > a || !easy) && !(easy && a + b > 2) {
                    let after = wages - crate::rules::wage(a) - crate::rules::wage(b) + crate::rules::wage(a + b);
                    if self.terrs[ti].savings + income >= after {
                        match self.do_move(am.0, am.1, bm.0, bm.1) {
                            Ok(_) => {
                                proof {
                                    assert(pre.ai_move_ok(ai, am, bm));
                                    assert(Game::moved_by(&pre, self, ai));
                                    assert(pre.top_pair(ti as int, am, bm));
                                }
                                return true;
                            },
                            Err(_) => {
                                proof {
                                    assert(pre.move_result(am, bm) is Ok);
                                }
                            },
                        }
                    }
                }
                proof {
                    if pre.combine_wanted(ti as int, ai, easy) {
                        let (a, b) = choose|a: (i32, i32), b: (i32, i32)| #[trigger] pre.top_pair(ti as int, a, b) && {
                            let ua = pre.hex_at(a).unit as int;
                            let ub = pre.hex_at(b).unit as int;
                            &&& ua + ub <= 4
                            &&& (ua + ub > ua || !easy)
                            &&& !(easy && ua + ub > 2)
                            &&& pre.terrs@[ti as int].savings + pre.income_of(ti as int) >= pre.wages_of(ti as int)
                                - wage_spec(ua as u8) - wage_spec(ub as u8) + wage_spec((ua + ub) as u8)
                        };
                        pre.lemma_top_pair_units(ti as int, a, b, am, bm);
                    }
                }
                false
            },
        }
    }

    /// Castles: a territory of seat `ai` with at least 45 gold builds one on
    /// its first clear, empty hex (not the house) next to an enemy man of
    /// rank two or more.
    fn step_castle(&mut self, ai: i8) -> (acted: bool)
        requires
            old(self).wf(),
        ensures
            final(self).wf(),
            acted ==> Game::plain_action(old(self), final(self), ai),
            !acted ==> *final(self) == *old(self),
            acted <==> old(self).can_castle(ai),
            acted ==> Game::built_castle(old(self), final(self), ai),
    {
        let ghost pre = *self;
        proof {
            self.lemma_wf_sizes();
            lemma_terr_indices(self.terrs@, ai);
        }
        let tis = self.terrs_of(ai);
        let mut k: usize = 0;
        while k < tis.len()
            invariant
                pre == *old(self),
                self.wf(),
                *self == pre,
                k <= tis@.len(),
                tis@ == terr_indices(pre.terrs@, ai),
                forall|j: int| 0 <= j < tis@.len() ==> (#[trigger] tis@[j]) < pre.terrs@.len() && pre.terrs@[tis@[j] as int].owner == ai,
                forall|jj: int, p: (i32, i32)| 0 <= jj < k && #[trigger] pre.castle_spot(tis@[jj] as int, p, ai) ==> false,
            decreases tis@.len() - k,
        {
            let ti = tis[k];
            if self.terrs[ti].savings >= 45 {
                let n = self.terrs[ti].hexes.len();
                let mut j: usize = 0;
                while j < n
                    invariant
                        pre == *old(self),
                        self.wf(),
                        *self == pre,
                        ti < pre.terrs@.len(),
                        pre.terrs@[ti as int].owner == ai,
                        pre.terrs@[ti as int].savings >= 45,
                        n == pre.terrs@[ti as int].hexes@.len(),
                        j <= n,
                        forall|jj: int| 0 <= jj < j ==> !#[trigger] pre.castle_spot(ti as int, pre.terrs@[ti as int].hexes@[jj], ai),
                    decreases n - j,
                {
                    if self.try_castle(ti, j, ai) {
                        proof {
                            assert(pre.castle_spot(ti as int, pre.terrs@[ti as int].hexes@[j as int], ai));
                            assert(Game::built_castle(&pre, self, ai));
                        }
                        return true;
                    }
                    j += 1;
                }
                proof {
                    assert forall|p: (i32, i32)| #[trigger] pre.castle_spot(ti as int, p, ai) implies false by {
                        let m = choose|m: int| 0 <= m < n && pre.terrs@[ti as int].hexes@[m] == p;
                        assert(!pre.castle_spot(ti as int, pre.terrs@[ti as int].hexes@[m], ai));
                    }
                }
            }
            k += 1;
        }
        proof {
            assert forall|ti: int, p: (i32, i32)| 0 <= ti < pre.terrs@.len() && #[trigger] pre.castle_spot(ti, p, ai) implies false by {
                assert(terr_indices(pre.terrs@, ai).contains(ti as usize));
                let jj = choose|jj: int| 0 <= jj < tis@.len() && tis@[jj] == ti as usize;
                assert(pre.castle_spot(tis@[jj] as int, p, ai));
            }
        }
        false
    }

    /// Seat `ai` builds a castle on hex `j` of territory `ti` when it is
    /// clear, empty, not the house, and next to a strong enemy man.
    #[verifier::rlimit(30)]
    fn try_castle(&mut self, ti: usize, j: usize, ai: i8) -> (acted: bool)
        requires
            old(self).wf(),
            ti < old(self).terrs@.len(),
            j < old(self).terrs@[ti as int].hexes@.len(),
            old(self).terrs@[ti as int].owner == ai,
            old(self).terrs@[ti as int].savings >= 45,
        ensures
            final(self).wf(),
            acted ==> Game::plain_action(old(self), final(self), ai),
            !acted ==> *final(self) == *old(self),
            acted <==> old(self).castle_spot(ti as int, old(self).terrs@[ti as int].hexes@[j as int], ai),
            acted ==> Game::bought_on(old(self), final(self), old(self).terrs@[ti as int].hexes@[j as int], true),
    {
        let ghost pre = *self;
        let p = self.terrs[ti].hexes[j];
        proof {
            assert(self.terrs@[ti as int].hexes@.contains(p));
            self.lemma_member(ti as int, p);
        }
        let h = self.grid[Game::idx(self.cols, p.0, p.1)];
        let is_cap = match self.terrs[ti].capital {
            Some(cp) => cp.0 == p.0 && cp.1 == p.1,
            None => false,
        };
        if !(h.unit != 0 || h.castle || h.tree.is_some() || h.grave || is_cap) && self.danger_at(ai, p) {
            match self.buy(p.0, p.1, "castle", ai) {
                Ok(_) => {
                    proof {
                        let castle = "castle"@ == "castle"@;
                        assert((p.0, p.1) == p);
                        assert(pre.buy_result(p, castle, ai) is Ok);
                        assert(Game::bought_by(&pre, self, ai));
                        assert(self.board_frame(&pre));
                        pre.lemma_terr_of(ti as int, p);
                        assert(Game::bought_on(&pre, self, p, true));
                    }
                    return true;
                },
                Err(_) => {
                    proof {
                        reveal_strlit("castle");
                        assert(pre.buy_result(p, true, ai) is Ok);
                    }
                },
            }
        }
        false
    }

    /// One action of computer seat `ai` (aggression `aggro` tenths), in
    /// order of preference: chop a tree, make the best attack, buy a man,
    /// combine men, build a castle. It acts exactly when one of these
    /// applies, and then by the first that does; whatever it does is a
    /// legal action of `ai`; when it returns `false` it did nothing.
    #[verifier::rlimit(40)]
    pub fn ai_step(&mut self, ai: i8, aggro: i64) -> (acted: bool)
        requires
            old(self).wf(),
            0 <= aggro <= 20,
        ensures
            final(self).wf(),
            acted ==> Game::one_action(old(self), final(self), ai),
            !acted ==> final(self).same_except_rng(old(self)),
            acted <==> old(self).can_chop(ai) || old(self).can_take(ai) || old(self).can_buy(
                ai,
                old(self).difficulty@ == "easy"@,
            ) || old(self).can_combine(ai, old(self).difficulty@ == "easy"@) || old(self).can_castle(ai),
            old(self).can_chop(ai) ==> exists|f: (i32, i32), t: (i32, i32)|
                #[trigger] old(self).chop_ok(ai, f, t) && final(self).grid@ == old(self).moved_grid(f, t)
                    && final(self).terrs@ == old(self).terrs@,
            !old(self).can_chop(ai) && old(self).can_take(ai) ==> Game::took_best(old(self), final(self), ai, aggro as int),
            !old(self).can_chop(ai) && !old(self).can_take(ai) ==> Game::built_in_order(
                old(self),
                final(self),
                ai,
                old(self).difficulty@ == "easy"@,
            ),
            Game::ai_chose(old(self), final(self), ai, aggro as int),
            Game::step_ok(old(self), final(self), ai),
    {
        let ghost pre = *self;
        // 1) chop income-denying trees
        match self.find_chop(ai) {
            Some((f, t)) => {
                proof {
                    self.lemma_chop_moves(ai, f, t);
                }
                match self.do_move(f.0, f.1, t.0, t.1) {
                    Ok(_) => {
                        proof {
                            assert(pre.ai_move_ok(ai, f, t));
                            assert(Game::moved_by(&pre, self, ai));
                        }
                        return true;
                    },
                    Err(_) => {},
                }
            },
            None => {},
        }
        // 2) the best attack
        match self.best_attack(ai, aggro) {
            Some((f, t)) => {
                let ghost s = *self;
                proof {
                    reveal(Game::ai_attack_ok);
                    crate::economy::lemma_terr_of_some(&pre, f);
                    pre.lemma_member(pre.terr_of(f).unwrap() as int, f);
                    self.lemma_inside_index(f);
                }
                proof {
                    pre.lemma_defence_same(&s);
                    assert(pre.adj(f, t));
                    assert(s.defence_spec(t) == pre.defence_spec(t));
                    assert(s.attack_error(f, t) == pre.attack_error(f, t));
                }
                match self.do_attack(f.0, f.1, t.0, t.1, ai) {
                    Ok(_) => {
                        proof {
                            assert(self.grid@ == pre.attacked_grid(f, t, ai));
                            assert(Game::attacked_by(&pre, self, ai));
                            assert(Game::took_best(&pre, self, ai, aggro as int));
                        }
                        return true;
                    },
                    Err(_) => {},
                }
            },
            None => {},
        }
        let ghost s1 = *self;
        let easy = crate::text::str_eq(&self.difficulty, "easy");
        if self.step_build(ai, easy) {
            proof {
                lemma_plain_transfer(&pre, &s1, self, ai);
                lemma_built_same(&pre, &s1, self, ai, easy);
            }
            return true;
        }
        false
    }

    /// The phases after chopping and attacking: buying, combining, and
    /// building castles, the first that applies.
    fn step_build(&mut self, ai: i8, easy: bool) -> (acted: bool)
        requires
            old(self).wf(),
        ensures
            final(self).wf(),
            acted ==> Game::plain_action(old(self), final(self), ai),
            !acted ==> final(self).same_except_rng(old(self)),
            acted <==> old(self).can_buy(ai, easy) || old(self).can_combine(ai, easy) || old(self).can_castle(ai),
            acted ==> Game::built_in_order(old(self), final(self), ai, easy),
    {
        let ghost pre = *self;
        // 3) buy only with a purpose and only if the next payday survives
        if self.step_buy(ai, easy) {
            return true;
        }
        // 4) combine if the next payday covers it
        let ghost s2 = *self;
        proof {
            pre.lemma_wants_same(&s2, ai, easy);
        }
        if self.step_combine(ai, easy) {
            proof {
                lemma_plain_transfer(&pre, &s2, self, ai);
                lemma_joined_same(&pre, &s2, self, ai, easy);
            }
            return true;
        }
        // 5) castle threatened rich borders
        let ghost s3 = *self;
        proof {
            pre.lemma_wants_same(&s3, ai, easy);
        }
        if self.step_castle(ai) {
            proof {
                lemma_plain_transfer(&pre, &s3, self, ai);
                lemma_castled_same(&pre, &s3, self, ai);
            }
            return true;
        }
        false
    }
}

/// Gold counts agree on games with the same board.
proof fn lemma_counts_same(a: &Game, b: &Game, hs: Seq<(i32, i32)>)
    requires
        a.cols == b.cols,
        a.grid@ == b.grid@,
    ensures
        crate::game::clear_count(a, hs) == crate::game::clear_count(b, hs),
        crate::game::wage_sum(a, hs) == crate::game::wage_sum(b, hs),
    decreases hs.len(),
{
    if hs.len() > 0 {
        lemma_counts_same(a, b, hs.drop_last());
    }
}

impl Game {
    /// The treasury of territory `ti` allows a peasant: after paying for
    /// it and earning the income it still covers the wages and one more
    /// peasant's (on easy with four to spare), or the territory earns
    /// nothing but holds the price.
    pub open spec fn can_afford_man(&self, ti: int, easy: bool) -> bool {
        let sav = self.terrs@[ti].savings as int;
        let inc = self.income_of(ti);
        let w = self.wages_of(ti);
        let buf: int = if easy {
            4
        } else {
            0
        };
        sav - crate::rules::BUY_PEASANT + inc >= w + wage_spec(1) + buf || (inc <= 0 && sav
            >= crate::rules::BUY_PEASANT)
    }

    /// Territory `ti` of seat `ai` buys a peasant in the buying phase: its
    /// treasury allows it, it wants a man, it has a spot, and ten gold.
    pub open spec fn buy_wanted(&self, ti: int, ai: i8, easy: bool) -> bool {
        &&& self.terrs@[ti].owner == ai
        &&& self.can_afford_man(ti, easy)
        &&& self.needs_man_spec(ti, ai)
        &&& exists|p: (i32, i32)| #[trigger] self.spot_ok(ti, p)
        &&& self.terrs@[ti].savings >= crate::rules::BUY_PEASANT
    }

    /// `a` and `b` are the two strongest fresh men of territory `ti`.
    pub open spec fn top_pair(&self, ti: int, a: (i32, i32), b: (i32, i32)) -> bool {
        &&& self.fresh_man(ti, a)
        &&& self.fresh_man(ti, b)
        &&& a != b
        &&& forall|q: (i32, i32)| #[trigger] self.fresh_man(ti, q) ==> self.hex_at(q).unit <= self.hex_at(a).unit
        &&& forall|q: (i32, i32)| #[trigger] self.fresh_man(ti, q) && q != a ==> self.hex_at(q).unit <= self.hex_at(b).unit
    }

    /// Territory `ti` of seat `ai` joins its two strongest fresh men in the
    /// combining phase: the sum is at most a Baron (on easy at most a
    /// Spearman) and the treasury plus income covers the new wages.
    pub open spec fn combine_wanted(&self, ti: int, ai: i8, easy: bool) -> bool {
        &&& self.terrs@[ti].owner == ai
        &&& exists|a: (i32, i32), b: (i32, i32)| #[trigger] self.top_pair(ti, a, b) && {
            let ua = self.hex_at(a).unit as int;
            let ub = self.hex_at(b).unit as int;
            &&& ua + ub <= 4
            &&& (ua + ub > ua || !easy)
            &&& !(easy && ua + ub > 2)
            &&& self.terrs@[ti].savings + self.income_of(ti) >= self.wages_of(ti) - wage_spec(ua as u8) - wage_spec(
                ub as u8,
            ) + wage_spec((ua + ub) as u8)
        }
    }

    /// Hex `p` of territory `ti` of seat `ai` gets a castle in the castle
    /// phase: the treasury holds 45 gold, the hex is clear, empty and not
    /// the house, and a strong enemy man stands next to it.
    pub open spec fn castle_spot(&self, ti: int, p: (i32, i32), ai: i8) -> bool {
        let t = self.terrs@[ti];
        let h = self.hex_at(p);
        &&& t.owner == ai
        &&& t.savings >= 45
        &&& t.hexes@.contains(p)
        &&& h.unit == 0 && !h.castle && h.tree is None && !h.grave
        &&& t.capital != Some(p)
        &&& self.danger_spec(ai, p)
    }

    /// Some man of seat `ai` can chop a tree.
    pub open spec fn can_chop(&self, ai: i8) -> bool {
        exists|f: (i32, i32), t: (i32, i32)| #[trigger] self.chop_ok(ai, f, t)
    }

    /// Some man of seat `ai` can take a hex.
    pub open spec fn can_take(&self, ai: i8) -> bool {
        exists|f: (i32, i32), t: (i32, i32)| #[trigger] self.ai_attack_ok(ai, f, t)
    }

    /// Some territory of seat `ai` buys a peasant.
    pub open spec fn can_buy(&self, ai: i8, easy: bool) -> bool {
        exists|ti: int| 0 <= ti < self.terrs@.len() && #[trigger] self.buy_wanted(ti, ai, easy)
    }

    /// Some territory of seat `ai` combines men.
    pub open spec fn can_combine(&self, ai: i8, easy: bool) -> bool {
        exists|ti: int| 0 <= ti < self.terrs@.len() && #[trigger] self.combine_wanted(ti, ai, easy)
    }

    /// Some territory of seat `ai` builds a castle.
    pub open spec fn can_castle(&self, ai: i8) -> bool {
        exists|ti: int, p: (i32, i32)| 0 <= ti < self.terrs@.len() && #[trigger] self.castle_spot(ti, p, ai)
    }

    /// Two pairs of strongest fresh men of a territory have the same ranks.
    proof fn lemma_top_pair_units(&self, ti: int, a: (i32, i32), b: (i32, i32), a2: (i32, i32), b2: (i32, i32))
        requires
            self.top_pair(ti, a, b),
            self.top_pair(ti, a2, b2),
        ensures
            self.hex_at(a).unit == self.hex_at(a2).unit,
            self.hex_at(b).unit == self.hex_at(b2).unit,
    {
        assert(self.hex_at(a).unit <= self.hex_at(a2).unit);
        assert(self.hex_at(a2).unit <= self.hex_at(a).unit);
        if a != a2 {
            assert(self.hex_at(a).unit <= self.hex_at(b2).unit);
            assert(self.hex_at(a2).unit <= self.hex_at(b).unit);
        } else {
            assert(self.hex_at(b).unit <= self.hex_at(b2).unit);
            assert(self.hex_at(b2).unit <= self.hex_at(b).unit);
        }
    }

    /// Seat `ai` finds nothing to do: no chop, no attack, no purchase, no
    /// combine and no castle.
    pub open spec fn ai_done(&self, ai: i8) -> bool {
        let easy = self.difficulty@ == "easy"@;
        !(self.can_chop(ai) || self.can_take(ai) || self.can_buy(ai, easy) || self.can_combine(ai, easy)
            || self.can_castle(ai))
    }

    /// Whether seat `ai` finds something to do reads nothing of the
    /// generator.
    #[verifier::rlimit(40)]
    proof fn lemma_done_same(&self, other: &Game, ai: i8)
        requires
            self.wf(),
            other.same_except_rng(self),
        ensures
            other.ai_done(ai) == self.ai_done(ai),
    {
        let easy = self.difficulty@ == "easy"@;
        self.lemma_wants_same(other, ai, easy);
        self.lemma_defence_same(other);
        reveal(Game::chop_ok);
        reveal(Game::ai_attack_ok);
        if self.can_chop(ai) {
            let (f, t) = choose|f: (i32, i32), t: (i32, i32)| #[trigger] self.chop_ok(ai, f, t);
            assert(other.chop_ok(ai, f, t));
        }
        if other.can_chop(ai) {
            let (f, t) = choose|f: (i32, i32), t: (i32, i32)| #[trigger] other.chop_ok(ai, f, t);
            assert(self.chop_ok(ai, f, t));
        }
        if self.can_take(ai) {
            let (f, t) = choose|f: (i32, i32), t: (i32, i32)| #[trigger] self.ai_attack_ok(ai, f, t);
            assert(self.adj(f, t));
            assert(other.defence_spec(t) == self.defence_spec(t));
            assert(other.attack_error(f, t) == self.attack_error(f, t));
            assert(other.ai_attack_ok(ai, f, t));
        }
        if other.can_take(ai) {
            let (f, t) = choose|f: (i32, i32), t: (i32, i32)| #[trigger] other.ai_attack_ok(ai, f, t);
            assert(self.adj(f, t));
            assert(other.defence_spec(t) == self.defence_spec(t));
            assert(other.attack_error(f, t) == self.attack_error(f, t));
            assert(self.ai_attack_ok(ai, f, t));
        }
    }

    /// Whether a territory wants a man reads only the board and the
    /// territories.
    /// Wild and enemy counts read only the board.
    proof fn lemma_nb_counts_same(&self, other: &Game, s: Seq<(i32, i32)>, ai: i8)
        requires
            other.cols == self.cols,
            other.grid@ == self.grid@,
        ensures
            other.wild_count(s) == self.wild_count(s),
            other.enemy_count(s, ai) == self.enemy_count(s, ai),
        decreases s.len(),
    {
        if s.len() > 0 {
            self.lemma_nb_counts_same(other, s.drop_last(), ai);
        }
    }

    /// A buying spot and its score read only the board and the
    /// territories.
    proof fn lemma_spot_same(&self, other: &Game, ti: int, ai: i8, p: (i32, i32))
        requires
            other.cols == self.cols,
            other.rows == self.rows,
            other.grid@ == self.grid@,
            other.terrs@ == self.terrs@,
        ensures
            other.spot_ok(ti, p) == self.spot_ok(ti, p),
            other.spot_score(ti, ai, p) == self.spot_score(ti, ai, p),
    {
        self.lemma_nb_counts_same(other, nbrs(self.cols as int, self.rows as int, p.0, p.1), ai);
        assert(other.chokes_spec(ti) == self.chokes_spec(ti));
    }

    proof fn lemma_needs_man_same(&self, other: &Game, ti: int, ai: i8)
        requires
            self.wf(),
            0 <= ti < self.terrs@.len(),
            other.cols == self.cols,
            other.rows == self.rows,
            other.grid@ == self.grid@,
            other.terrs@ == self.terrs@,
        ensures
            other.needs_man_spec(ti, ai) == self.needs_man_spec(ti, ai),
    {
        self.lemma_defence_same(other);
        let hs = self.terrs@[ti].hexes@;
        if self.open_border(ti, ai) {
            let (p, q) = choose|p: (i32, i32), q: (i32, i32)|
                #![trigger hs.contains(p), self.adj(p, q)]
                hs.contains(p) && self.adj(p, q) && !self.hex_at(q).water && !hs.contains(q)
                    && self.hex_at(q).owner != ai && self.defence_spec(q) < 1;
            assert(other.defence_spec(q) == self.defence_spec(q));
            assert(other.adj(p, q));
        }
        if other.open_border(ti, ai) {
            let (p, q) = choose|p: (i32, i32), q: (i32, i32)|
                #![trigger hs.contains(p), other.adj(p, q)]
                hs.contains(p) && other.adj(p, q) && !other.hex_at(q).water && !hs.contains(q)
                    && other.hex_at(q).owner != ai && other.defence_spec(q) < 1;
            assert(other.defence_spec(q) == self.defence_spec(q));
            assert(self.adj(p, q));
        }
        if self.threatened(ti, ai) {
            let (p, q) = choose|p: (i32, i32), q: (i32, i32)|
                #![trigger hs.contains(p), self.adj(p, q)]
                hs.contains(p) && self.adj(p, q) && self.hex_at(q).owner != -1 && self.hex_at(q).owner != ai
                    && self.hex_at(q).unit != 0 && self.defence_spec(p) < self.hex_at(q).unit;
            self.lemma_member(ti, p);
            assert(other.defence_spec(p) == self.defence_spec(p));
            assert(other.adj(p, q));
        }
        if other.threatened(ti, ai) {
            let (p, q) = choose|p: (i32, i32), q: (i32, i32)|
                #![trigger hs.contains(p), other.adj(p, q)]
                hs.contains(p) && other.adj(p, q) && other.hex_at(q).owner != -1 && other.hex_at(q).owner != ai
                    && other.hex_at(q).unit != 0 && other.defence_spec(p) < other.hex_at(q).unit;
            self.lemma_member(ti, p);
            assert(other.defence_spec(p) == self.defence_spec(p));
            assert(self.adj(p, q));
        }
        assert(other.crowded(ti) == self.crowded(ti));
    }

    proof fn lemma_buy_same(&self, other: &Game, ti: int, ai: i8, easy: bool)
        requires
            self.wf(),
            0 <= ti < self.terrs@.len(),
            other.cols == self.cols,
            other.rows == self.rows,
            other.grid@ == self.grid@,
            other.terrs@ == self.terrs@,
        ensures
            other.buy_wanted(ti, ai, easy) == self.buy_wanted(ti, ai, easy),
    {
        self.lemma_needs_man_same(other, ti, ai);
        lemma_counts_same(self, other, self.terrs@[ti].hexes@);
        assert forall|p: (i32, i32)| #[trigger] other.spot_ok(ti, p) == self.spot_ok(ti, p) by {}
        if exists|p: (i32, i32)| #[trigger] self.spot_ok(ti, p) {
            let p = choose|p: (i32, i32)| #[trigger] self.spot_ok(ti, p);
            assert(other.spot_ok(ti, p));
        }
        if exists|p: (i32, i32)| #[trigger] other.spot_ok(ti, p) {
            let p = choose|p: (i32, i32)| #[trigger] other.spot_ok(ti, p);
            assert(self.spot_ok(ti, p));
        }
        assert(other.income_of(ti) == self.income_of(ti));
        assert(other.wages_of(ti) == self.wages_of(ti));
        assert(other.buy_wanted(ti, ai, easy) == self.buy_wanted(ti, ai, easy));
    }

    proof fn lemma_combine_same(&self, other: &Game, ti: int, ai: i8, easy: bool)
        requires
            self.wf(),
            0 <= ti < self.terrs@.len(),
            other.cols == self.cols,
            other.rows == self.rows,
            other.grid@ == self.grid@,
            other.terrs@ == self.terrs@,
        ensures
            other.combine_wanted(ti, ai, easy) == self.combine_wanted(ti, ai, easy),
    {
        lemma_counts_same(self, other, self.terrs@[ti].hexes@);
        assert(other.income_of(ti) == self.income_of(ti));
        assert(other.wages_of(ti) == self.wages_of(ti));
        assert forall|a: (i32, i32), b: (i32, i32)| #[trigger] other.top_pair(ti, a, b) == self.top_pair(ti, a, b) by {
            if self.top_pair(ti, a, b) {
                assert forall|q: (i32, i32)| #[trigger] other.fresh_man(ti, q) implies other.hex_at(q).unit
                    <= other.hex_at(a).unit by {
                    assert(self.fresh_man(ti, q));
                }
                assert forall|q: (i32, i32)| #[trigger] other.fresh_man(ti, q) && q != a implies other.hex_at(
                    q,
                ).unit <= other.hex_at(b).unit by {
                    assert(self.fresh_man(ti, q));
                }
            }
            if other.top_pair(ti, a, b) {
                assert forall|q: (i32, i32)| #[trigger] self.fresh_man(ti, q) implies self.hex_at(q).unit
                    <= self.hex_at(a).unit by {
                    assert(other.fresh_man(ti, q));
                }
                assert forall|q: (i32, i32)| #[trigger] self.fresh_man(ti, q) && q != a implies self.hex_at(q).unit
                    <= self.hex_at(b).unit by {
                    assert(other.fresh_man(ti, q));
                }
            }
        }
        if self.combine_wanted(ti, ai, easy) {
            let (a, b) = choose|a: (i32, i32), b: (i32, i32)| #[trigger] self.top_pair(ti, a, b) && {
                let ua = self.hex_at(a).unit as int;
                let ub = self.hex_at(b).unit as int;
                &&& ua + ub <= 4
                &&& (ua + ub > ua || !easy)
                &&& !(easy && ua + ub > 2)
                &&& self.terrs@[ti].savings + self.income_of(ti) >= self.wages_of(ti) - wage_spec(ua as u8)
                    - wage_spec(ub as u8) + wage_spec((ua + ub) as u8)
            };
            assert(other.top_pair(ti, a, b));
        }
        if other.combine_wanted(ti, ai, easy) {
            let (a, b) = choose|a: (i32, i32), b: (i32, i32)| #[trigger] other.top_pair(ti, a, b) && {
                let ua = other.hex_at(a).unit as int;
                let ub = other.hex_at(b).unit as int;
                &&& ua + ub <= 4
                &&& (ua + ub > ua || !easy)
                &&& !(easy && ua + ub > 2)
                &&& other.terrs@[ti].savings + other.income_of(ti) >= other.wages_of(ti) - wage_spec(ua as u8)
                    - wage_spec(ub as u8) + wage_spec((ua + ub) as u8)
            };
            assert(self.top_pair(ti, a, b));
        }
    }

    proof fn lemma_castle_same(&self, other: &Game, ti: int, p: (i32, i32), ai: i8)
        requires
            other.cols == self.cols,
            other.rows == self.rows,
            other.grid@ == self.grid@,
            other.terrs@ == self.terrs@,
        ensures
            other.castle_spot(ti, p, ai) == self.castle_spot(ti, p, ai),
    {
            if self.danger_spec(ai, p) {
            let q = choose|q: (i32, i32)|
                #[trigger] self.adj(p, q) && self.hex_at(q).owner != -1 && self.hex_at(q).owner != ai && self.hex_at(q).unit >= 2;
            assert(other.adj(p, q));
        }
        if other.danger_spec(ai, p) {
            let q = choose|q: (i32, i32)|
                #[trigger] other.adj(p, q) && other.hex_at(q).owner != -1 && other.hex_at(q).owner != ai && other.hex_at(q).unit >= 2;
            assert(self.adj(p, q));
        }
    }

    /// What the buying, combining and castle phases decide reads only the
    /// board and the territories.
    proof fn lemma_wants_same(&self, other: &Game, ai: i8, easy: bool)
        requires
            self.wf(),
            other.cols == self.cols,
            other.rows == self.rows,
            other.grid@ == self.grid@,
            other.terrs@ == self.terrs@,
        ensures
            other.can_buy(ai, easy) == self.can_buy(ai, easy),
            other.can_combine(ai, easy) == self.can_combine(ai, easy),
            other.can_castle(ai) == self.can_castle(ai),
            forall|ti: int| 0 <= ti < self.terrs@.len() ==> #[trigger] other.buy_wanted(ti, ai, easy) == self.buy_wanted(ti, ai, easy),
            forall|ti: int| 0 <= ti < self.terrs@.len() ==> #[trigger] other.combine_wanted(ti, ai, easy) == self.combine_wanted(ti, ai, easy),
    {
        assert forall|ti: int| 0 <= ti < self.terrs@.len() implies #[trigger] other.buy_wanted(ti, ai, easy) == self.buy_wanted(ti, ai, easy) by {
            self.lemma_buy_same(other, ti, ai, easy);
        }
        assert forall|ti: int| 0 <= ti < self.terrs@.len() implies #[trigger] other.combine_wanted(ti, ai, easy) == self.combine_wanted(ti, ai, easy) by {
            self.lemma_combine_same(other, ti, ai, easy);
        }
        if self.can_castle(ai) {
            let (ti, p) = choose|ti: int, p: (i32, i32)| 0 <= ti < self.terrs@.len() && #[trigger] self.castle_spot(ti, p, ai);
            self.lemma_castle_same(other, ti, p, ai);
        }
        if other.can_castle(ai) {
            let (ti, p) = choose|ti: int, p: (i32, i32)| 0 <= ti < other.terrs@.len() && #[trigger] other.castle_spot(ti, p, ai);
            self.lemma_castle_same(other, ti, p, ai);
        }
        if self.can_buy(ai, easy) {
            let ti = choose|ti: int| 0 <= ti < self.terrs@.len() && #[trigger] self.buy_wanted(ti, ai, easy);
            assert(other.buy_wanted(ti, ai, easy));
        }
        if other.can_buy(ai, easy) {
            let ti = choose|ti: int| 0 <= ti < other.terrs@.len() && #[trigger] other.buy_wanted(ti, ai, easy);
            assert(self.buy_wanted(ti, ai, easy));
        }
        if self.can_combine(ai, easy) {
            let ti = choose|ti: int| 0 <= ti < self.terrs@.len() && #[trigger] self.combine_wanted(ti, ai, easy);
            assert(other.combine_wanted(ti, ai, easy));
        }
        if other.can_combine(ai, easy) {
            let ti = choose|ti: int| 0 <= ti < other.terrs@.len() && #[trigger] other.combine_wanted(ti, ai, easy);
            assert(self.combine_wanted(ti, ai, easy));
        }
    }
}

impl Game {
    /// The chokes seat `ai` guards at the start of its turn, each with its
    /// territory: those of the first `a` territories of `tis`, territory by
    /// territory, each territory's in the order of its choke list.
    pub open spec fn guard_plan(g: &Game, tis: Seq<usize>, a: int) -> Seq<(usize, (i32, i32))>
        decreases a,
    {
        if a <= 0 {
            Seq::empty()
        } else {
            let ti = tis[a - 1];
            Game::guard_plan(g, tis, a - 1) + g.chokes_spec(ti as int).map_values(|c: (i32, i32)| (ti, c))
        }
    }

    /// The first man of territory `ti`, from position `j` of its hexes on,
    /// who is fresh, not on `c`, and not on a choke of `used`.
    pub open spec fn first_guard(g: &Game, ti: int, used: Seq<(i32, i32)>, c: (i32, i32), j: int) -> Option<(i32, i32)>
        decreases g.terrs@[ti].hexes@.len() - j,
    {
        let hs = g.terrs@[ti].hexes@;
        if j < 0 || j >= hs.len() {
            None
        } else {
            let m = hs[j];
            if !used.contains(m) && m != c && g.hex_at(m).unit != 0 && !g.hex_at(m).acted {
                Some(m)
            } else {
                Game::first_guard(g, ti, used, c, j + 1)
            }
        }
    }

    /// `b` is `a` with at most its board changed.
    pub open spec fn board_only(a: &Game, b: &Game) -> bool {
        &&& b.same_setup(a)
        &&& b.terrs@ == a.terrs@
        &&& b.log@ == a.log@
        &&& b.round == a.round
        &&& b.current == a.current
        &&& b.sel == a.sel
        &&& b.focus == a.focus
        &&& b.rng == a.rng
    }

    /// Guarding choke `c` of territory `ti` from `a` to `b`, the chokes
    /// filled so far going from `used` to `used2`: an empty, clear choke
    /// gets the first man `first_guard` names, who moves there.
    pub open spec fn guard_step(
        a: &Game,
        b: &Game,
        ti: int,
        c: (i32, i32),
        used: Seq<(i32, i32)>,
        used2: Seq<(i32, i32)>,
    ) -> bool {
        let h = a.hex_at(c);
        if h.unit != 0 || h.castle || h.grave || h.tree is Some {
            *b == *a && used2 == used
        } else {
            match Game::first_guard(a, ti, used, c, 0) {
                Some(m) => if a.move_result(m, c) is Ok {
                    Game::board_only(a, b) && b.grid@ == a.moved_grid(m, c) && used2 == used.push(c)
                } else {
                    *b == *a && used2 == used
                },
                None => *b == *a && used2 == used,
            }
        }
    }

    /// `sts` go from `g0` through the guarding steps of `plan`, the filled
    /// chokes through `useds`.
    pub open spec fn guard_trace(
        g0: &Game,
        plan: Seq<(usize, (i32, i32))>,
        sts: Seq<Game>,
        useds: Seq<Seq<(i32, i32)>>,
    ) -> bool {
        &&& sts.len() == plan.len() + 1
        &&& useds.len() == plan.len() + 1
        &&& sts[0] == *g0
        &&& useds[0] == Seq::<(i32, i32)>::empty()
        &&& forall|k: int|
            0 <= k < plan.len() ==> #[trigger] Game::guard_step(
                &sts[k],
                &sts[k + 1],
                plan[k].0 as int,
                plan[k].1,
                useds[k],
                useds[k + 1],
            )
    }

    /// `b` is `a` after seat `ai` guarded its chokes: every choke of each of
    /// its territories, in order, went through `guard_step`.
    pub open spec fn guarded(a: &Game, b: &Game, ai: i8) -> bool {
        let tis = terr_indices(a.terrs@, ai);
        exists|sts: Seq<Game>, useds: Seq<Seq<(i32, i32)>>|
            #[trigger] Game::guard_trace(a, Game::guard_plan(a, tis, tis.len() as int), sts, useds) && sts.last() == *b
    }
}

impl Game {
    /// `post` is `pre` after computer seat `ai` took a whole turn: the turn
    /// started, then legal actions of `ai` followed until it found nothing
    /// more to do or sixty steps were spent. The first `k` steps guard the
    /// choke hexes as `guarded` describes; each later step is the one
    /// `ai_chose` describes.
    pub open spec fn ai_turn(pre: &Game, post: &Game, ai: i8) -> bool {
        exists|mid: Game, tr: Seq<Game>, k: int|
            #![trigger Game::turn_started(pre, &mid, ai), Game::trace_ok(tr, ai), Game::chosen_from(tr, ai, k)]
            Game::turn_started(pre, &mid, ai) && Game::trace_ok(tr, ai) && tr[0] == mid && tr.last() == *post
                && (post.ai_done(ai) || tr.len() > 60) && Game::chosen_from(tr, ai, k) && Game::guarded(&mid, &tr[k], ai)
    }

    /// The aggression of computer seat `ai`, in tenths.
    pub open spec fn aggro_of(ai: i8) -> int {
        if ai == 1 {
            10
        } else {
            6
        }
    }

    /// From step `k` of `tr` on, every step is the choice of seat `ai`.
    pub open spec fn chosen_from(tr: Seq<Game>, ai: i8, k: int) -> bool {
        &&& 0 <= k < tr.len()
        &&& forall|i: int| k <= i < tr.len() - 1 ==> #[trigger] Game::ai_chose(&tr[i], &tr[i + 1], ai, Game::aggro_of(ai))
    }

    /// `b` is `a` after one step of computer seat `ai` with aggression
    /// `aggro`: a chop when one is possible, else the best attack within
    /// ten, else the building phases in their order; nothing but draws
    /// when there is nothing to do.
    pub open spec fn ai_chose(a: &Game, b: &Game, ai: i8, aggro: int) -> bool {
        &&& a.ai_done(ai) ==> b.same_except_rng(a)
        &&& a.can_chop(ai) ==> exists|f: (i32, i32), t: (i32, i32)|
            #[trigger] a.chop_ok(ai, f, t) && b.grid@ == a.moved_grid(f, t) && b.terrs@ == a.terrs@
        &&& !a.can_chop(ai) && a.can_take(ai) ==> Game::took_best(a, b, ai, aggro)
        &&& !a.can_chop(ai) && !a.can_take(ai) ==> Game::built_in_order(a, b, ai, a.difficulty@ == "easy"@)
    }

    /// `a` with play passed to `seat`: it is to play, and the round ticks
    /// over when play comes back to the first seat.
    pub open spec fn passed_to(a: &Game, seat: i8) -> Game {
        Game {
            current: seat,
            round: if seat == 0 {
                (a.round + 1) as u32
            } else {
                a.round
            },
            ..*a
        }
    }

    /// `sts` are the states of play going round from `pre`: the selection
    /// dropped, then each seat after `pre`'s in turn, a computer seat,
    /// taking its whole turn.
    pub open spec fn computer_rotation(pre: &Game, sts: Seq<Game>) -> bool {
        let n = pre.players@.len() as int;
        let s = pre.seat_pos();
        &&& sts.len() >= 1
        &&& sts[0] == (Game { sel: None, ..*pre })
        &&& forall|i: int|
            0 <= i < sts.len() - 1 ==> #[trigger] Game::ai_turn(
                &Game::passed_to(&sts[i], ((s + i + 1) % n) as i8),
                &sts[i + 1],
                ((s + i + 1) % n) as i8,
            )
    }

    /// How a rotation from `pre` through the computer turns `sts` ends in
    /// `post`: the next seat, a human one, starts its turn; or the last
    /// computer turn left a winner.
    pub open spec fn rotation_end(pre: &Game, sts: Seq<Game>, post: &Game) -> bool {
        let n = pre.players@.len() as int;
        let h = ((pre.seat_pos() + sts.len()) % n) as i8;
        ||| pre.humans@.contains(h) && Game::turn_started(&Game::passed_to(&sts.last(), h), post, h)
        ||| sts.len() > 1 && *post == sts.last() && post.winner_spec() is Some
    }
}

impl Game {
    /// From `a` to `b` seat `ai` made one legal action, or only drew
    /// random numbers.
    pub open spec fn step_ok(a: &Game, b: &Game, ai: i8) -> bool {
        Game::one_action(a, b, ai) || (b.same_except_rng(a) && b.wf())
    }

    /// Each state of `tr` follows from the one before by a step of seat `ai`.
    pub open spec fn trace_ok(tr: Seq<Game>, ai: i8) -> bool {
        &&& tr.len() >= 1
        &&& forall|i: int| 0 <= i < tr.len() - 1 ==> #[trigger] Game::step_ok(&tr[i], &tr[i + 1], ai)
    }

    /// Seat `ai` played from `pre` to `post` by legal actions alone.
    pub open spec fn ai_played(pre: &Game, post: &Game, ai: i8) -> bool {
        exists|tr: Seq<Game>| #[trigger] Game::trace_ok(tr, ai) && tr[0] == *pre && tr.last() == *post
    }
}

proof fn lemma_trace_push(tr: Seq<Game>, ai: i8, x: Game)
    requires
        Game::trace_ok(tr, ai),
        Game::step_ok(&tr.last(), &x, ai),
    ensures
        Game::trace_ok(tr.push(x), ai),
        tr.push(x)[0] == tr[0],
        tr.push(x).last() == x,
{
    let t2 = tr.push(x);
    assert forall|i: int| 0 <= i < t2.len() - 1 implies #[trigger] Game::step_ok(&t2[i], &t2[i + 1], ai) by {
        if i < tr.len() - 1 {
            assert(t2[i] == tr[i] && t2[i + 1] == tr[i + 1]);
        } else {
            assert(t2[i] == tr.last());
        }
    }
}

/// A step of the computer keeps the frame and creates no gold.
proof fn lemma_step_frame(a: &Game, b: &Game, ai: i8)
    requires
        a.wf(),
        Game::step_ok(a, b, ai),
    ensures
        b.wf(),
        b.board_frame(a),
        total_gold(b.terrs@) <= total_gold(a.terrs@),
{
    if Game::one_action(a, b, ai) {
        if Game::bought_by(a, b, ai) {
            let (p, castle) = choose|p: (i32, i32), castle: bool|
                #[trigger] a.buy_result(p, castle, ai) is Ok && {
                    let ti = a.terr_of(p).unwrap() as int;
                    let t = a.terrs@[ti];
                    &&& b.grid@ == a.grid@.update(
                        ix(a.cols as int, p),
                        crate::economy::bought_hex(a.hex_at(p), castle),
                    )
                    &&& b.terrs@ == a.terrs@.update(
                        ti,
                        Terr { savings: (t.savings - crate::economy::buy_cost(castle)) as i64, ..t },
                    )
                };
            crate::economy::lemma_terr_of_some(a, p);
            let ti = a.terr_of(p).unwrap() as int;
            let t = a.terrs@[ti];
            crate::economy::lemma_total_gold_update(
                a.terrs@,
                ti,
                Terr { savings: (t.savings - crate::economy::buy_cost(castle)) as i64, ..t },
            );
        }
    }
}

/// Along a trace of seat `ai` the frame holds and no gold is created.
proof fn lemma_trace_frame(tr: Seq<Game>, ai: i8, k: int)
    requires
        Game::trace_ok(tr, ai),
        tr[0].wf(),
        0 <= k < tr.len(),
    ensures
        tr[k].wf(),
        tr[k].board_frame(&tr[0]),
        total_gold(tr[k].terrs@) <= total_gold(tr[0].terrs@),
    decreases k,
{
    if k > 0 {
        lemma_trace_frame(tr, ai, k - 1);
        let i = k - 1;
        assert(Game::step_ok(&tr[i], &tr[i + 1], ai));
        assert(tr[i + 1] == tr[k]);
        lemma_step_frame(&tr[k - 1], &tr[k], ai);
    }
}

impl Game {
    /// The choke hexes of a territory are among its hexes.
    pub proof fn lemma_chokes_listed(&self, ti: int, c: int, r: int, k: int)
        requires
            0 <= ti < self.terrs@.len(),
            k <= self.terrs@[ti].hexes@.len(),
        ensures
            forall|j: int|
                0 <= j < crate::cuts::chokes_upto(c, r, self.terrs@[ti].hexes@, k).len() ==> self.terrs@[ti].hexes@.contains(
                    #[trigger] crate::cuts::chokes_upto(c, r, self.terrs@[ti].hexes@, k)[j],
                ),
        decreases k,
    {
        let hs = self.terrs@[ti].hexes@;
        if k > 0 {
            self.lemma_chokes_listed(ti, c, r, k - 1);
            let prev = crate::cuts::chokes_upto(c, r, hs, k - 1);
            let cur = crate::cuts::chokes_upto(c, r, hs, k);
            assert(hs.contains(hs[k - 1]));
            assert forall|j: int| 0 <= j < cur.len() implies hs.contains(#[trigger] cur[j]) by {
                if j < prev.len() {
                    assert(cur[j] == prev[j]);
                } else {
                    assert(cur[j] == hs[k - 1]);
                }
            }
        }
    }

    /// The opening moves of a computer turn: for each of its territories,
    /// each empty, clear choke hex gets the first fresh man of the
    /// territory that is not standing on a choke filled this way.
    fn guard_chokes(&mut self, ai: i8, Ghost(tr0): Ghost<Seq<Game>>) -> (tr: Ghost<Seq<Game>>)
        requires
            old(self).wf(),
            Game::trace_ok(tr0, ai),
            tr0.last() == *old(self),
        ensures
            Game::trace_ok(tr@, ai),
            tr@[0] == tr0[0],
            tr@.last() == *final(self),
            final(self).wf(),
            Game::guarded(old(self), final(self), ai),
    {
        let ghost mut tr = tr0;
        let ghost g0 = *self;
        proof {
            self.lemma_wf_sizes();
            lemma_terr_indices(self.terrs@, ai);
        }
        let tis = self.terrs_of(ai);
        let ghost ts0 = self.terrs@;
        let mut used: Vec<(i32, i32)> = Vec::new();
        let ghost mut sts: Seq<Game> = seq![*self];
        let ghost mut useds: Seq<Seq<(i32, i32)>> = seq![Seq::<(i32, i32)>::empty()];
        let ghost mut plan: Seq<(usize, (i32, i32))> = Seq::empty();
        let mut a: usize = 0;
        while a < tis.len()
            invariant
                self.wf(),
                self.terrs@ == ts0,
                g0.terrs@ == ts0,
                self.cols == g0.cols,
                self.rows == g0.rows,
                Game::trace_ok(tr, ai),
                tr[0] == tr0[0],
                tr.last() == *self,
                a <= tis@.len(),
                tis@ == terr_indices(ts0, ai),
                forall|j: int| 0 <= j < tis@.len() ==> (#[trigger] tis@[j]) < ts0.len() && ts0[tis@[j] as int].owner == ai,
                plan == Game::guard_plan(&g0, tis@, a as int),
                Game::guard_trace(&g0, plan, sts, useds),
                sts.last() == *self,
                useds.last() == used@,
            decreases tis@.len() - a,
        {
            let ti = tis[a];
            let chokes = self.choke_hexes(ti);
            proof {
                self.lemma_chokes_listed(ti as int, self.cols as int, self.rows as int, self.terrs@[ti as int].hexes@.len() as int);
                assert(chokes@ == g0.chokes_spec(ti as int));
            }
            let ghost cs = g0.chokes_spec(ti as int).map_values(|c: (i32, i32)| (ti, c));
            let ghost plan_a = plan;
            let mut b: usize = 0;
            while b < chokes.len()
                invariant
                    self.wf(),
                    self.terrs@ == ts0,
                    g0.terrs@ == ts0,
                    self.cols == g0.cols,
                    self.rows == g0.rows,
                    Game::trace_ok(tr, ai),
                    tr[0] == tr0[0],
                    tr.last() == *self,
                    ti < ts0.len(),
                    ts0[ti as int].owner == ai,
                    b <= chokes@.len(),
                    forall|j: int| 0 <= j < chokes@.len() ==> ts0[ti as int].hexes@.contains(#[trigger] chokes@[j]),
                    chokes@ == g0.chokes_spec(ti as int),
                    cs == g0.chokes_spec(ti as int).map_values(|c: (i32, i32)| (ti, c)),
                    plan == plan_a + cs.take(b as int),
                    Game::guard_trace(&g0, plan, sts, useds),
                    sts.last() == *self,
                    useds.last() == used@,
                decreases chokes@.len() - b,
            {
                let c = chokes[b];
                proof {
                    assert(ts0[ti as int].hexes@.contains(chokes@[b as int]));
                    self.lemma_member(ti as int, c);
                }
                let ghost sc = *self;
                let ghost uc = used@;
                let ch = self.grid[Game::idx(self.cols, c.0, c.1)];
                if !(ch.unit != 0 || ch.castle || ch.grave || ch.tree.is_some()) {
                    let n = self.terrs[ti].hexes.len();
                    let mut j: usize = 0;
                    let mut done = false;
                    while j < n && !done
                        invariant
                            self.wf(),
                            self.terrs@ == ts0,
                            Game::trace_ok(tr, ai),
                            tr[0] == tr0[0],
                            tr.last() == *self,
                            ti < ts0.len(),
                            ts0[ti as int].owner == ai,
                            n == ts0[ti as int].hexes@.len(),
                            sc.terrs@ == ts0,
                            sc.inside(c),
                            sc.hex_at(c).unit == 0 && !sc.hex_at(c).castle && !sc.hex_at(c).grave && sc.hex_at(c).tree is None,
                            j <= n,
                            !done ==> *self == sc && used@ == uc && Game::first_guard(&sc, ti as int, uc, c, 0)
                                == Game::first_guard(&sc, ti as int, uc, c, j as int),
                            done ==> Game::guard_step(&sc, self, ti as int, c, uc, used@),
                        decreases n - j,
                    {
                        let m = self.terrs[ti].hexes[j];
                        proof {
                            assert(ts0[ti as int].hexes@.contains(m));
                            self.lemma_member(ti as int, m);
                        }
                        if !(crate::game::has_hex(&used, m) || crate::game::same_hex(m, c)) {
                            let mh = self.grid[Game::idx(self.cols, m.0, m.1)];
                            if mh.unit != 0 && !mh.acted {
                                let ghost s = *self;
                                proof {
                                    assert(Game::first_guard(&sc, ti as int, uc, c, j as int) == Some(m));
                                }
                                match self.do_move(m.0, m.1, c.0, c.1) {
                                    Ok(_) => {
                                        used.push(c);
                                        proof {
                                            assert(s.ai_move_ok(ai, m, c));
                                            assert(Game::moved_by(&s, self, ai));
                                            assert(Game::step_ok(&s, self, ai));
                                            lemma_trace_push(tr, ai, *self);
                                            tr = tr.push(*self);
                                            assert(used@ == uc.push(c));
                                        }
                                    },
                                    Err(_) => {},
                                }
                                done = true;
                            }
                        }
                        j += 1;
                    }
                    proof {
                        if !done {
                            assert(Game::first_guard(&sc, ti as int, uc, c, n as int) is None);
                        }
                    }
                }
                proof {
                    let p0 = plan;
                    plan = plan.push((ti, c));
                    let sts0 = sts;
                    let u0 = useds;
                    sts = sts.push(*self);
                    useds = useds.push(used@);
                    assert(cs.take(b + 1) =~= cs.take(b as int).push((ti, c)));
                    let q = p0.len() as int;
                    assert(sts[q] == sc && sts[q + 1] == *self && useds[q] == uc && useds[q + 1] == used@);
                    assert(plan[q] == (ti, c));
                    assert forall|k: int| 0 <= k < plan.len() implies #[trigger] Game::guard_step(
                        &sts[k],
                        &sts[k + 1],
                        plan[k].0 as int,
                        plan[k].1,
                        useds[k],
                        useds[k + 1],
                    ) by {
                        if k < p0.len() {
                            assert(sts[k] == sts0[k] && sts[k + 1] == sts0[k + 1]);
                            assert(useds[k] == u0[k] && useds[k + 1] == u0[k + 1]);
                            assert(plan[k] == p0[k]);
                        }
                    }
                }
                b += 1;
            }
            proof {
                assert(cs.take(chokes@.len() as int) =~= cs);
                assert(plan == Game::guard_plan(&g0, tis@, a + 1));
            }
            a += 1;
        }
        Ghost(tr)
    }

    /// A computer turn for seat `ai`: the turn starts (payday and all),
    /// chokes are guarded, then up to sixty actions follow until none is
    /// left. Seat 1 plays at full aggression, the others at six tenths.
    /// Everything after the start of the turn is a legal action of `ai`.
    pub fn ai_take_turn(&mut self, ai: i8)
        requires
            old(self).wf(),
            total_gold(old(self).terrs@) + crate::game::owned_count(old(self).terrs@, ai) <= crate::game::GOLD_CAP,
        ensures
            final(self).wf(),
            exists|mid: Game| Game::turn_started(old(self), &mid, ai) && #[trigger] Game::ai_played(&mid, final(self), ai),
            Game::ai_turn(old(self), final(self), ai),
            final(self).same_setup(old(self)),
            final(self).round == old(self).round,
            final(self).current == old(self).current,
            final(self).sel == old(self).sel,
            final(self).focus == old(self).focus,
            total_gold(final(self).terrs@) <= total_gold(old(self).terrs@) + crate::game::owned_count(old(self).terrs@, ai),
    {
        self.start_turn(ai);
        let ghost mid = *self;
        let aggro: i64 = if ai == 1 {
            10
        } else {
            6
        };
        let ghost tr0 = seq![mid];
        let Ghost(tr1) = self.guard_chokes(ai, Ghost(tr0));
        let ghost mut tr = tr1;
        let ghost k0 = tr1.len() - 1;
        let ghost guarded_at = *self;
        let mut n: usize = 0;
        let mut go = true;
        while n < 60 && go
            invariant
                self.wf(),
                Game::trace_ok(tr, ai),
                tr[0] == mid,
                tr.last() == *self,
                n <= 60,
                tr.len() > n,
                !go ==> self.ai_done(ai),
                aggro == Game::aggro_of(ai),
                aggro == 10 || aggro == 6,
                Game::chosen_from(tr, ai, k0),
                tr[k0] == guarded_at,
            decreases 60 - n,
        {
            let ghost s = *self;
            go = self.ai_step(ai, aggro);
            proof {
                lemma_trace_push(tr, ai, *self);
                let tr2 = tr.push(*self);
                assert forall|i: int| k0 <= i < tr2.len() - 1 implies #[trigger] Game::ai_chose(
                    &tr2[i],
                    &tr2[i + 1],
                    ai,
                    Game::aggro_of(ai),
                ) by {
                    if i < tr.len() - 1 {
                        assert(tr2[i] == tr[i] && tr2[i + 1] == tr[i + 1]);
                    } else {
                        assert(tr2[i] == s && tr2[i + 1] == *self);
                    }
                }
                assert(tr2[k0] == tr[k0]);
                tr = tr2;
                if !go {
                    s.lemma_done_same(self, ai);
                }
            }
            n += 1;
        }
        proof {
            assert(Game::ai_played(&mid, self, ai));
            lemma_trace_frame(tr, ai, tr.len() - 1);
            assert(Game::turn_started(old(self), &mid, ai) && Game::trace_ok(tr, ai) && Game::chosen_from(tr, ai, k0));
            assert(Game::guarded(&mid, &tr[k0], ai));
        }
    }
}

/// The most gold one turn can add to the treasuries.
pub const TURN_GOLD: i64 = 67108864;

/// Seat `v` lists `p`.
pub fn has_seat(v: &Vec<i8>, p: i8) -> (b: bool)
    ensures
        b == v@.contains(p),
{
    let mut i: usize = 0;
    while i < v.len()
        invariant
            i <= v@.len(),
            forall|j: int| 0 <= j < i ==> v@[j] != p,
        decreases v@.len() - i,
    {
        if v[i] == p {
            return true;
        }
        i += 1;
    }
    false
}

/// Stepping the seat index of a table of `n` seats.
proof fn lemma_seat_step(n: int, s: int, k: int)
    requires
        2 <= n <= 4,
        0 <= s < n,
        0 <= k <= n,
    ensures
        ((s + k) % n + 1) % n == (s + k + 1) % n,
        (s + k + 1) / n == (s + k) / n + if (s + k + 1) % n == 0 {
            1int
        } else {
            0int
        },
        (s + k + 1) / n <= 2,
        0 <= (s + k + 1) % n < n,
        s % n == s,
        s / n == 0,
{
    let x = s + k;
    vstd::arithmetic::div_mod::lemma_fundamental_div_mod(x, n);
    vstd::arithmetic::div_mod::lemma_mod_pos_bound(x, n);
    let q = x / n;
    let r = x % n;
    assert(x == q * n + r) by (nonlinear_arith)
        requires
            x == n * q + r,
    ;
    vstd::arithmetic::div_mod::lemma_fundamental_div_mod_converse(s, n, 0, s);
    assert(0 <= q <= 2) by (nonlinear_arith)
        requires
            x == q * n + r,
            0 <= r < n,
            0 <= x <= 2 * n - 1,
            2 <= n,
    ;
    if r + 1 < n {
        vstd::arithmetic::div_mod::lemma_fundamental_div_mod_converse(x + 1, n, q, r + 1);
        vstd::arithmetic::div_mod::lemma_fundamental_div_mod_converse(r + 1, n, 0, r + 1);
    } else {
        assert(x + 1 == (q + 1) * n + 0) by (nonlinear_arith)
            requires
                x == q * n + r,
                r + 1 == n,
        ;
        vstd::arithmetic::div_mod::lemma_fundamental_div_mod_converse(x + 1, n, q + 1, 0);
        vstd::arithmetic::div_mod::lemma_fundamental_div_mod_converse(r + 1, n, 1, 0);
        assert(q + 1 <= 2) by (nonlinear_arith)
            requires
                x + 1 == (q + 1) * n,
                x + 1 <= 2 * n,
                2 <= n,
        ;
    }
}

/// Going round from seat `s`, the next `n` steps visit every seat.
proof fn lemma_seats_covered(n: int, s: int, q: int)
    requires
        2 <= n <= 4,
        0 <= s < n,
        0 <= q < n,
    ensures
        exists|i: int| 1 <= i <= n && #[trigger] ((s + i) % n) == q,
{
    let i = if q > s {
        q - s
    } else {
        q - s + n
    };
    if q > s {
        vstd::arithmetic::div_mod::lemma_fundamental_div_mod_converse(s + i, n, 0, q);
    } else {
        vstd::arithmetic::div_mod::lemma_fundamental_div_mod_converse(s + i, n, 1, q);
    }
    assert((s + i) % n == q);
}

impl Game {
    /// Position of the seat to play among the players (the first seat when
    /// the current one is not a player).
    pub open spec fn seat_pos(&self) -> int {
        if 0 <= self.current < self.players@.len() {
            self.current as int
        } else {
            0
        }
    }

    /// `post` is `pre` after play passed `j` seats on: the seat `j` places
    /// after `pre`'s is to play, no human sat in between, and the round
    /// advanced once for each pass of the first seat.
    pub open spec fn advanced_by(&self, post: &Game, j: int) -> bool {
        let n = self.players@.len() as int;
        let s = self.seat_pos();
        &&& post.current == ((s + j) % n) as i8
        &&& post.round == self.round + (s + j) / n
        &&& forall|i: int| 1 <= i < j ==> !self.humans@.contains(#[trigger] ((s + i) % n) as i8)
    }

    /// Ends the current seat's turn and plays on to the next human seat:
    /// computer seats in between take their turns at once. Play stops
    /// early when a computer turn leaves a single player alive. The round
    /// counter ticks each time play passes the first seat.
    #[verifier::rlimit(40)]
    pub fn advance_turn(&mut self)
        requires
            old(self).wf(),
            old(self).round <= u32::MAX - 2,
            total_gold(old(self).terrs@) + 5 * TURN_GOLD <= crate::game::GOLD_CAP,
        ensures
            final(self).wf(),
            final(self).sel is None,
            final(self).same_setup(old(self)),
            final(self).focus == old(self).focus,
            exists|j: int| 1 <= j <= old(self).players@.len() + 1 && #[trigger] old(self).advanced_by(final(self), j),
            final(self).humans@.contains(final(self).current) || final(self).winner_spec() is Some,
            final(self).round >= old(self).round,
            exists|sts: Seq<Game>|
                #[trigger] Game::computer_rotation(old(self), sts) && Game::rotation_end(old(self), sts, final(self)),
    {
        let ghost pre = *self;
        self.sel = None;
        proof {
            self.lemma_wf_off_board(&pre);
        }
        let ghost mut sts: Seq<Game> = seq![*self];
        let n = self.players.len();
        let mut idx: usize = if 0 <= self.current && (self.current as usize) < n {
            self.current as usize
        } else {
            0
        };
        let ghost s = idx as int;
        proof {
            lemma_seat_step(n as int, s, 0);
        }
        let mut k: usize = 0;
        let mut stop = false;
        while k <= n && !stop
            invariant
                pre.wf(),
                pre.round <= u32::MAX - 2,
                self.wf(),
                self.same_setup(&pre),
                self.sel is None,
                self.focus == pre.focus,
                n == pre.players@.len(),
                2 <= n <= 4,
                s == pre.seat_pos(),
                0 <= s < n,
                k <= n + 1,
                !stop ==> idx as int == (s + k) % (n as int),
                !stop ==> self.round == pre.round + (s + k) / (n as int),
                !stop ==> (s + k) / (n as int) <= 2,
                !stop ==> forall|i: int| 1 <= i <= k ==> !pre.humans@.contains(#[trigger] ((s + i) % (n as int)) as i8),
                !stop ==> total_gold(self.terrs@) + (n + 1 - k) * TURN_GOLD <= crate::game::GOLD_CAP,
                stop ==> exists|j: int| 1 <= j <= n + 1 && #[trigger] pre.advanced_by(self, j),
                stop ==> self.humans@.contains(self.current) || self.winner_spec() is Some,
                stop ==> self.round >= pre.round,
                !stop ==> Game::computer_rotation(&pre, sts) && sts.len() == k + 1 && sts.last() == *self,
                stop ==> exists|sts2: Seq<Game>|
                    #[trigger] Game::computer_rotation(&pre, sts2) && Game::rotation_end(&pre, sts2, self),
            decreases n + 1 - k,
        {
            proof {
                lemma_seat_step(n as int, s, k as int);
            }
            idx = (idx + 1) % n;
            proof {
                assert(idx as int == (s + k + 1) % (n as int));
                assert(idx == 0 ==> self.round + 1 == pre.round + (s + k + 1) / (n as int));
                assert(idx != 0 ==> self.round == pre.round + (s + k + 1) / (n as int));
            }
            let p = self.players[idx];
            let ghost before = *self;
            if idx == 0 {
                self.round = self.round + 1;
            }
            self.current = p;
            proof {
                self.lemma_wf_off_board(&before);
                self.lemma_owned_small();
                assert(p == idx as i8);
            }
            proof {
                assert(*self == Game::passed_to(&before, p));
            }
            if has_seat(&self.humans, p) {
                self.start_turn(p);
                proof {
                    assert(pre.advanced_by(self, k + 1));
                    assert(Game::rotation_end(&pre, sts, self));
                }
                stop = true;
            } else {
                self.ai_take_turn(p);
                proof {
                    self.lemma_wf_sizes();
                    let sts1 = sts.push(*self);
                    assert forall|i: int|
                        0 <= i < sts1.len() - 1 implies #[trigger] Game::ai_turn(
                        &Game::passed_to(&sts1[i], ((s + i + 1) % (n as int)) as i8),
                        &sts1[i + 1],
                        ((s + i + 1) % (n as int)) as i8,
                    ) by {
                        if i < sts.len() - 1 {
                            assert(sts1[i] == sts[i] && sts1[i + 1] == sts[i + 1]);
                        } else {
                            assert(sts1[i] == before && sts1[i + 1] == *self);
                        }
                    }
                    sts = sts1;
                    assert(Game::computer_rotation(&pre, sts));
                }
                if self.winner().is_some() {
                    proof {
                        assert(pre.advanced_by(self, k + 1));
                        assert(Game::rotation_end(&pre, sts, self));
                    }
                    stop = true;
                }
            }
            k += 1;
        }
        proof {
            if !stop {
                let q = pre.humans@[0];
                lemma_seats_covered(n as int, s, q as int);
                let i = choose|i: int| 1 <= i <= n && #[trigger] ((s + i) % (n as int)) == q;
                assert(pre.humans@.contains(((s + i) % (n as int)) as i8));
            }
        }
    }
}

} // verus!
