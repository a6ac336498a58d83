//! What the screen shows of a game: one picture of the board, the
//! territories, the seats and the current selection.
use crate::game::{owned_count, sorted_hexes, total_gold, Game, GOLD_CAP};
use crate::hexgrid::{adjacent, in_grid, ix, lemma_ix_bounds, lemma_nbrs, mask_set, nbrs};
use crate::territory::{blank_mask, board_ok, cell, mask_to_hexes};
use crate::rules::{player_name_spec, Tree, BUY_PEASANT};
use crate::economy::log_view;
use crate::text::owned;
use vstd::prelude::*;

verus! {

/// One hex as the screen shows it.
#[derive(Debug)]
pub struct UiHex {
    pub x: i32,
    pub y: i32,
    pub water: bool,
    pub owner: i8,
    pub unit: u8,
    pub acted: bool,
    pub castle: bool,
    pub tree: Option<String>,
    pub grave: bool,
    pub capital: bool,
    pub afford: bool,
}

/// A territory's figures, or the sum of a seat's.
#[derive(Clone, Copy, Debug, PartialEq, Eq, Structural)]
pub struct UiTerr {
    pub owner: i8,
    pub hexes: usize,
    pub savings: i64,
    pub income: i64,
    pub wages: i64,
}

/// A seat as the screen shows it.
#[derive(Debug)]
pub struct UiPlayer {
    pub owner: i8,
    pub name: String,
    pub hexes: usize,
    pub alive: bool,
}

/// Everything the screen shows.
#[derive(Debug)]
pub struct UiState {
    pub round: u32,
    pub current: i8,
    pub arch: String,
    pub seed: u64,
    pub difficulty: String,
    pub humans: Vec<i8>,
    pub players: Vec<UiPlayer>,
    pub hexes: Vec<UiHex>,
    pub terrs: Vec<UiTerr>,
    pub sel: Option<(i32, i32)>,
    pub targets: Vec<(i32, i32)>,
    pub outline: Vec<(i32, i32)>,
    pub focus: Option<(i32, i32)>,
    pub focus_terr: Option<UiTerr>,
    pub totals: UiTerr,
    pub log: Vec<String>,
    pub msg: String,
    pub sfx: String,
    pub winner: Option<i8>,
}

impl Game {
    /// The figures of territory `ti`.
    pub open spec fn ui_terr_spec(&self, ti: int) -> UiTerr {
        UiTerr {
            owner: self.terrs@[ti].owner,
            hexes: self.terrs@[ti].hexes@.len() as usize,
            savings: self.terrs@[ti].savings,
            income: self.income_of(ti) as i64,
            wages: self.wages_of(ti) as i64,
        }
    }

    /// Sums of the figures of the territories of seat `me` among the first `k`.
    pub open spec fn totals_upto(&self, me: i8, k: int) -> (int, int, int, int)
        decreases k,
    {
        if k <= 0 {
            (0, 0, 0, 0)
        } else {
            let prev = self.totals_upto(me, k - 1);
            if self.terrs@[k - 1].owner == me {
                (
                    prev.0 + self.terrs@[k - 1].hexes@.len(),
                    prev.1 + self.terrs@[k - 1].savings,
                    prev.2 + self.income_of(k - 1),
                    prev.3 + self.wages_of(k - 1),
                )
            } else {
                prev
            }
        }
    }

    /// The summed figures of the seat to play.
    pub open spec fn totals_spec(&self) -> UiTerr {
        let t = self.totals_upto(self.current, self.terrs@.len() as int);
        UiTerr { owner: self.current, hexes: t.0 as usize, savings: t.1 as i64, income: t.2 as i64, wages: t.3 as i64 }
    }

    /// The figures of territory `ti`: owner, size, treasury, income, wages.
    pub fn ui_terr(&self, ti: usize) -> (u: UiTerr)
        requires
            self.wf(),
            ti < self.terrs@.len(),
        ensures
            u == self.ui_terr_spec(ti as int),
            u.income == self.income_of(ti as int),
            u.wages == self.wages_of(ti as int),
            0 <= u.income <= 4096,
            0 <= u.wages <= 54 * 4096,
    {
        proof {
            self.lemma_wf_sizes();
            assert(self.terr_on_board(ti as int));
        }
        UiTerr {
            owner: self.terrs[ti].owner,
            hexes: self.terrs[ti].hexes.len(),
            savings: self.terrs[ti].savings,
            income: self.terr_income(ti),
            wages: self.terr_wages(ti),
        }
    }

    /// The summed figures of every territory of the seat to play.
    pub fn totals(&self) -> (t: UiTerr)
        requires
            self.wf(),
        ensures
            t == self.totals_spec(),
    {
        proof {
            self.lemma_wf_sizes();
        }
        let me = self.current;
        let mut t = UiTerr { owner: me, hexes: 0, savings: 0, income: 0, wages: 0 };
        let mut k: usize = 0;
        while k < self.terrs.len()
            invariant
                self.wf(),
                self.terrs@.len() <= 16384,
                me == self.current,
                k <= self.terrs@.len(),
                t.owner == me,
                t.hexes as int == self.totals_upto(me, k as int).0,
                t.savings as int == self.totals_upto(me, k as int).1,
                t.income as int == self.totals_upto(me, k as int).2,
                t.wages as int == self.totals_upto(me, k as int).3,
                0 <= t.hexes <= 4096 * k,
                0 <= t.savings <= total_gold(self.terrs@.take(k as int)),
                0 <= t.income <= 4096 * k,
                0 <= t.wages <= 221184 * k,
            decreases self.terrs@.len() - k,
        {
            let ghost tk = self.terrs@.take(k as int);
            proof {
                assert(self.terrs@.take(k + 1).drop_last() =~= tk);
                assert(crate::game::terr_shape(
                    self.cols as int,
                    self.rows as int,
                    self.players@.len() as int,
                    self.terrs@[k as int],
                ));
                crate::economy::lemma_savings_le_total(self.terrs@, k as int);
                lemma_prefix_gold(self.terrs@, k as int + 1);
            }
            if self.terrs[k].owner == me {
                let u = self.ui_terr(k);
                proof {
                    self.lemma_wf_sizes();
                    assert(4096 * k + 4096 <= 4096 * 16384);
                    assert(u.hexes <= 4096);
                    assert(54 * 4096 * k + 54 * 4096 <= 54 * 4096 * 16384) by (nonlinear_arith)
                        requires
                            k < 16384,
                    ;
                }
                t.hexes = t.hexes + u.hexes;
                t.savings = t.savings + u.savings;
                t.income = t.income + u.income;
                t.wages = t.wages + u.wages;
            }
            k += 1;
        }
        proof {
            assert(self.terrs@.take(self.terrs@.len() as int) =~= self.terrs@);
        }
        t
    }
}

/// A prefix of the treasuries holds no more than all of them.
proof fn lemma_prefix_gold(ts: Seq<crate::game::Terr>, k: int)
    requires
        0 <= k <= ts.len(),
        forall|i: int| 0 <= i < ts.len() ==> (#[trigger] ts[i]).savings >= 0,
    ensures
        0 <= total_gold(ts.take(k)) <= total_gold(ts),
        k > 0 ==> total_gold(ts.take(k)) == total_gold(ts.take(k - 1)) + ts[k - 1].savings,
    decreases ts.len() - k,
{
    if k > 0 {
        assert(ts.take(k).drop_last() =~= ts.take(k - 1));
        let tk = ts.take(k);
        assert forall|i: int| 0 <= i < tk.len() implies (#[trigger] tk[i]).savings >= 0 by {
            assert(tk[i] == ts[i]);
        }
        crate::economy::lemma_savings_le_total(tk, 0);
    } else {
        assert(ts.take(k) =~= Seq::<crate::game::Terr>::empty());
    }
    if k == ts.len() {
        assert(ts.take(k) =~= ts);
    } else {
        lemma_prefix_gold(ts, k + 1);
        assert(ts.take(k + 1).drop_last() =~= ts.take(k));
    }
}

impl Game {
    /// The selection, if any, lies on the board.
    pub open spec fn sel_ok(&self) -> bool {
        self.sel matches Some(p) ==> self.inside(p)
    }

    /// Hex `q` of the selected man's territory `fti` he may move to: not his
    /// own hex, not a castle, and no combine beyond a Baron.
    pub open spec fn move_target(&self, s: (i32, i32), fti: int, q: (i32, i32)) -> bool {
        let th = self.hex_at(q);
        &&& self.terrs@[fti].hexes@.contains(q)
        &&& q != s
        &&& !th.castle
        &&& !(th.unit != 0 && self.hex_at(s).unit + th.unit > 4)
    }

    /// Hex `q` next to territory `fti` that the selected man on `s` may take.
    pub open spec fn attack_target(&self, s: (i32, i32), fti: int, q: (i32, i32)) -> bool {
        let hs = self.terrs@[fti].hexes@;
        &&& !hs.contains(q)
        &&& exists|p: (i32, i32)| #[trigger] hs.contains(p) && self.adj(p, q)
        &&& !self.hex_at(q).water
        &&& self.hex_at(q).owner != self.current
        &&& self.attack_error(s, q) is None
    }

    /// `q` lies outside territory `fti`, is land not held by the seat to
    /// play, and the man on `s` may attack it.
    pub open spec fn attack_mark(&self, s: (i32, i32), fti: int, q: (i32, i32)) -> bool {
        &&& !self.terrs@[fti].hexes@.contains(q)
        &&& !self.hex_at(q).water
        &&& self.hex_at(q).owner != self.current
        &&& self.attack_error(s, q) is None
    }

    /// `q` lights up for the selected man: he is a fresh man of the seat to
    /// play, and may move or attack there.
    pub open spec fn sel_target(&self, q: (i32, i32)) -> bool {
        match self.sel {
            None => false,
            Some(s) => {
                let sh = self.hex_at(s);
                &&& sh.unit != 0
                &&& !sh.acted
                &&& sh.owner == self.current
                &&& match self.terr_of(s) {
                    None => false,
                    Some(fti) => self.move_target(s, fti as int, q) || self.attack_target(s, fti as int, q),
                }
            },
        }
    }

    /// The hexes that light up for the selected man, in (column, row)
    /// order: where he may move or combine in his territory, and the
    /// neighbouring hexes he may take.
    pub fn sel_targets(&self) -> (out: Vec<(i32, i32)>)
        requires
            self.wf(),
            self.sel_ok(),
        ensures
            sorted_hexes(out@),
            forall|q: (i32, i32)| #[trigger] out@.contains(q) <==> self.sel_target(q),
    {
        let ghost c = self.cols as int;
        let ghost r = self.rows as int;
        proof {
            self.lemma_wf_sizes();
        }
        let s = match self.sel {
            Some(p) => p,
            None => {
                return Vec::new();
            },
        };
        proof {
            self.lemma_inside_index(s);
        }
        let sh = self.grid[Game::idx(self.cols, s.0, s.1)];
        proof {
            assert(crate::game::hex_ok(self.grid@[ix(c, s)]));
        }
        if sh.unit == 0 || sh.acted || sh.owner != self.current {
            return Vec::new();
        }
        let fti = match self.terr_at(s.0, s.1) {
            Some(i) => i,
            None => {
                return Vec::new();
            },
        };
        proof {
            assert(crate::game::terr_shape(c, r, self.players@.len() as int, self.terrs@[fti as int]));
        }
        let hexes = &self.terrs[fti].hexes;
        let ghost hs = hexes@;
        let n = (self.cols * self.rows) as usize;
        let mut mask = blank_mask(n);
        proof {
            assert forall|q: (i32, i32)| in_grid(c, r, q) implies !#[trigger] mask@[ix(c, q)] by {
                lemma_ix_bounds(c, r, q);
            }
        }
        // moves and combines
        let mut k: usize = 0;
        while k < hexes.len()
            invariant
                self.wf(),
                c == self.cols,
                r == self.rows,
                board_ok(c, r),
                n == c * r,
                mask@.len() == n,
                fti < self.terrs@.len(),
                hs == hexes@,
                hs == self.terrs@[fti as int].hexes@,
                sh == self.hex_at(s),
                sh.unit <= 4,
                forall|i: int| 0 <= i < hs.len() ==> in_grid(c, r, #[trigger] hs[i]),
                k <= hs.len(),
                forall|q: (i32, i32)|
                    in_grid(c, r, q) ==> (#[trigger] mask@[ix(c, q)] <==> hs.take(k as int).contains(q) && self.move_target(
                        s,
                        fti as int,
                        q,
                    )),
            decreases hs.len() - k,
        {
            let q = hexes[k];
            proof {
                assert(in_grid(c, r, hs[k as int]));
                self.lemma_inside_index(q);
                assert(hs.take(k + 1) =~= hs.take(k as int).push(q));
                assert(crate::game::hex_ok(self.grid@[ix(c, q)]));
            }
            let th = self.grid[Game::idx(self.cols, q.0, q.1)];
            if !(q.0 == s.0 && q.1 == s.1) && !th.castle && !(th.unit != 0 && sh.unit + th.unit > 4) {
                let i = cell(self.cols, self.rows, q);
                let ghost before = mask@;
                mask.set(i, true);
                proof {
                    assert(self.hex_at(q) == th);
                    assert(q != s);
                    assert(hs.take(k + 1)[k as int] == q);
                    assert(hs.take(k + 1).contains(q));
                    assert(self.move_target(s, fti as int, q));
                    assert forall|q2: (i32, i32)| in_grid(c, r, q2) implies (#[trigger] mask@[ix(c, q2)] <==> hs.take(k + 1).contains(q2)
                        && self.move_target(s, fti as int, q2)) by {
                        lemma_ix_bounds(c, r, q2);
                        if ix(c, q2) == ix(c, q) {
                            crate::hexgrid::lemma_ix_inj(c, r, q, q2);
                            assert(hs.contains(q));
                        } else {
                            assert(mask@[ix(c, q2)] == before[ix(c, q2)]);
                            if q2 != q {
                                assert(hs.take(k + 1).contains(q2) == hs.take(k as int).contains(q2));
                            }
                        }
                    }
                }
            } else {
                proof {
                    assert forall|q2: (i32, i32)| in_grid(c, r, q2) implies (#[trigger] mask@[ix(c, q2)] <==> hs.take(k + 1).contains(q2)
                        && self.move_target(s, fti as int, q2)) by {
                        if q2 == q {
                            assert(self.hex_at(q) == th);
                        }
                    }
                }
            }
            k += 1;
        }
        proof {
            assert(hs.take(hs.len() as int) =~= hs);
        }
        // conquests
        let mut k: usize = 0;
        while k < hexes.len()
            invariant
                self.wf(),
                c == self.cols,
                r == self.rows,
                board_ok(c, r),
                n == c * r,
                mask@.len() == n,
                fti < self.terrs@.len(),
                self.index_ok(s.0, s.1),
                hs == hexes@,
                hs == self.terrs@[fti as int].hexes@,
                forall|i: int| 0 <= i < hs.len() ==> in_grid(c, r, #[trigger] hs[i]),
                k <= hs.len(),
                forall|q: (i32, i32)|
                    in_grid(c, r, q) ==> (#[trigger] mask@[ix(c, q)] <==> self.move_target(s, fti as int, q) || (
                    (exists|j: int| 0 <= j < k && #[trigger] self.adj(hs[j], q)) && self.attack_mark(s, fti as int, q))),
            decreases hs.len() - k,
        {
            let p = hexes[k];
            proof {
                assert(in_grid(c, r, hs[k as int]));
            }
            let ghost before = mask@;
            self.mark_attacks(s, fti, p, &mut mask);
            proof {
                assert forall|q: (i32, i32)|
                    in_grid(c, r, q) implies (#[trigger] mask@[ix(c, q)] <==> self.move_target(s, fti as int, q) || (
                    (exists|jj: int| 0 <= jj < k + 1 && #[trigger] self.adj(hs[jj], q)) && self.attack_mark(s, fti as int, q))) by {
                    if exists|jj: int| 0 <= jj < k + 1 && #[trigger] self.adj(hs[jj], q) {
                        let jj = choose|jj: int| 0 <= jj < k + 1 && #[trigger] self.adj(hs[jj], q);
                        if jj < k {
                            assert(exists|j2: int| 0 <= j2 < k && #[trigger] self.adj(hs[j2], q));
                        }
                    }
                    if self.adj(p, q) {
                        assert(self.adj(hs[k as int], q));
                    }
                }
            }
            k += 1;
        }
        let out = mask_to_hexes(self.cols, self.rows, &mask);
        proof {
            assert forall|q: (i32, i32)| #[trigger] out@.contains(q) <==> self.sel_target(q) by {
                if self.sel_target(q) {
                    if self.move_target(s, fti as int, q) {
                        let i = choose|i: int| 0 <= i < hs.len() && hs[i] == q;
                        assert(in_grid(c, r, hs[i]));
                    } else {
                        let p = choose|p: (i32, i32)| #[trigger] hs.contains(p) && self.adj(p, q);
                        let jj = choose|jj: int| 0 <= jj < hs.len() && hs[jj] == p;
                        assert(self.adj(hs[jj], q));
                    }
                }
                if out@.contains(q) {
                    if !self.move_target(s, fti as int, q) {
                        let jj = choose|jj: int| 0 <= jj < hs.len() && #[trigger] self.adj(hs[jj], q);
                        assert(hs.contains(hs[jj]));
                    }
                }
            }
        }
        out
    }
}

impl Game {
    /// Marks the neighbours of `p` that the man on `s`, of territory `fti`,
    /// may attack.
    fn mark_attacks(&self, s: (i32, i32), fti: usize, p: (i32, i32), mask: &mut Vec<bool>)
        requires
            self.wf(),
            self.index_ok(s.0, s.1),
            fti < self.terrs@.len(),
            self.inside(p),
            old(mask)@.len() == self.cells(),
        ensures
            final(mask)@.len() == self.cells(),
            forall|q: (i32, i32)|
                self.inside(q) ==> (#[trigger] final(mask)@[ix(self.cols as int, q)] <==> old(mask)@[ix(self.cols as int, q)]
                    || (self.adj(p, q) && self.attack_mark(s, fti as int, q))),
    {
        let ghost c = self.cols as int;
        let ghost r = self.rows as int;
        let ghost m0 = mask@;
        proof {
            self.lemma_wf_sizes();
        }
        let hexes = &self.terrs[fti].hexes;
        let nb = self.neighbours(p.0, p.1);
        proof {
            lemma_nbrs(c, r, p.0, p.1);
        }
        let mut j: usize = 0;
        while j < nb.len()
            invariant
                self.wf(),
                c == self.cols,
                r == self.rows,
                board_ok(c, r),
                mask@.len() == c * r,
                fti < self.terrs@.len(),
                hexes@ == self.terrs@[fti as int].hexes@,
                self.index_ok(s.0, s.1),
                nb@ == nbrs(c, r, p.0, p.1),
                forall|q: (i32, i32)| nb@.contains(q) <==> adjacent(c, r, p, q),
                forall|i: int| 0 <= i < nb@.len() ==> in_grid(c, r, #[trigger] nb@[i]),
                j <= nb@.len(),
                forall|q: (i32, i32)|
                    in_grid(c, r, q) ==> (#[trigger] mask@[ix(c, q)] <==> m0[ix(c, q)] || (nb@.take(j as int).contains(q)
                        && self.attack_mark(s, fti as int, q))),
            decreases nb@.len() - j,
        {
            let q = nb[j];
            proof {
                assert(in_grid(c, r, nb@[j as int]));
                self.lemma_inside_index(q);
                assert(nb@.take(j + 1) =~= nb@.take(j as int).push(q));
                assert(nb@.take(j + 1)[j as int] == q);
            }
            let th = self.grid[Game::idx(self.cols, q.0, q.1)];
            let legal = !crate::game::has_hex(hexes, q) && !th.water && th.owner != self.current
                && self.can_attack(s.0, s.1, q.0, q.1).is_ok();
            let ghost before = mask@;
            if legal {
                let i = cell(self.cols, self.rows, q);
                mask.set(i, true);
            }
            proof {
                assert(self.hex_at(q) == th);
                assert(legal == self.attack_mark(s, fti as int, q));
                assert forall|q2: (i32, i32)| in_grid(c, r, q2) implies (#[trigger] mask@[ix(c, q2)] <==> m0[ix(c, q2)] || (
                nb@.take(j + 1).contains(q2) && self.attack_mark(s, fti as int, q2))) by {
                    lemma_ix_bounds(c, r, q2);
                    if ix(c, q2) == ix(c, q) {
                        crate::hexgrid::lemma_ix_inj(c, r, q, q2);
                    } else {
                        assert(mask@[ix(c, q2)] == before[ix(c, q2)]);
                        if q2 != q {
                            assert(nb@.take(j + 1).contains(q2) == nb@.take(j as int).contains(q2));
                        }
                    }
                }
            }
            j += 1;
        }
        proof {
            assert(nb@.take(nb@.len() as int) =~= nb@);
        }
    }
}

/// The name the screen gives a tree.
pub open spec fn tree_text(t: Option<Tree>) -> Option<Seq<char>> {
    match t {
        Some(Tree::Pine) => Some("pine"@),
        Some(Tree::Palm) => Some("palm"@),
        None => None,
    }
}

/// The characters of an optional text.
pub open spec fn opt_text(t: Option<String>) -> Option<Seq<char>> {
    match t {
        Some(s) => Some(s@),
        None => None,
    }
}

impl Game {
    /// `p` is the house of some territory.
    pub open spec fn is_house(&self, p: (i32, i32)) -> bool {
        exists|i: int| 0 <= i < self.terrs@.len() && (#[trigger] self.terrs@[i]).capital == Some(p)
    }

    /// `p` is the house of a territory that can afford a peasant.
    pub open spec fn rich_house(&self, p: (i32, i32)) -> bool {
        exists|i: int|
            0 <= i < self.terrs@.len() && (#[trigger] self.terrs@[i]).capital == Some(p) && self.terrs@[i].savings
                >= BUY_PEASANT
    }

    /// `u` shows the hex at `p`.
    pub open spec fn shows_hex(&self, u: UiHex, p: (i32, i32)) -> bool {
        let h = self.hex_at(p);
        &&& u.x == p.0 && u.y == p.1
        &&& u.water == h.water && u.owner == h.owner && u.unit == h.unit && u.acted == h.acted
        &&& u.castle == h.castle && u.grave == h.grave
        &&& opt_text(u.tree) == tree_text(h.tree)
        &&& u.capital == self.is_house(p)
        &&& u.afford == self.rich_house(p)
    }

    /// `u` shows seat `o`.
    pub open spec fn shows_player(&self, u: UiPlayer, o: i8) -> bool {
        &&& u.owner == o
        &&& u.name@ == player_name_spec(o)
        &&& u.hexes == owned_count(self.terrs@, o)
        &&& u.alive == self.alive_spec().contains(o)
    }

    /// The figures of the clicked territory, when it belongs to the seat
    /// to play.
    pub open spec fn focus_terr_spec(&self) -> Option<UiTerr> {
        match self.focus {
            Some(p) => match self.terr_of(p) {
                Some(ti) => if self.terrs@[ti as int].owner == self.current {
                    Some(self.ui_terr_spec(ti as int))
                } else {
                    None
                },
                None => None,
            },
            None => None,
        }
    }

    /// The hexes of the clicked territory, outlined.
    pub open spec fn outline_spec(&self) -> Seq<(i32, i32)> {
        match self.focus {
            Some(p) => match self.terr_of(p) {
                Some(ti) => self.terrs@[ti as int].hexes@,
                None => seq![],
            },
            None => seq![],
        }
    }

    /// Whether `p` is a house, and whether it is the house of a territory
    /// that can afford a peasant.
    fn house_flags(&self, p: (i32, i32)) -> (r: (bool, bool))
        ensures
            r.0 == self.is_house(p),
            r.1 == self.rich_house(p),
    {
        let mut house = false;
        let mut rich = false;
        let mut i: usize = 0;
        while i < self.terrs.len()
            invariant
                i <= self.terrs@.len(),
                house == exists|k: int| 0 <= k < i && (#[trigger] self.terrs@[k]).capital == Some(p),
                rich == exists|k: int|
                    0 <= k < i && (#[trigger] self.terrs@[k]).capital == Some(p) && self.terrs@[k].savings >= BUY_PEASANT,
            decreases self.terrs@.len() - i,
        {
            let is_p = match self.terrs[i].capital {
                Some(c) => c.0 == p.0 && c.1 == p.1,
                None => false,
            };
            if is_p {
                house = true;
                if self.terrs[i].savings >= BUY_PEASANT {
                    rich = true;
                }
            }
            proof {
                let ii = i as int;
                if is_p {
                    assert(self.terrs@[ii].capital == Some(p));
                }
                if rich {
                    if !(exists|k: int| 0 <= k < ii && (#[trigger] self.terrs@[k]).capital == Some(p) && self.terrs@[k].savings >= BUY_PEASANT) {
                        assert(self.terrs@[ii].capital == Some(p) && self.terrs@[ii].savings >= BUY_PEASANT);
                    }
                }
            }
            i += 1;
        }
        (house, rich)
    }

    /// The hex at `p` as the screen shows it.
    fn ui_hex(&self, p: (i32, i32)) -> (u: UiHex)
        requires
            self.dims_ok(),
            self.inside(p),
        ensures
            self.shows_hex(u, p),
    {
        proof {
            self.lemma_inside_index(p);
        }
        let h = self.grid[Game::idx(self.cols, p.0, p.1)];
        let (capital, afford) = self.house_flags(p);
        let tree = match h.tree {
            Some(Tree::Pine) => Some(owned("pine")),
            Some(Tree::Palm) => Some(owned("palm")),
            None => None,
        };
        UiHex {
            x: p.0,
            y: p.1,
            water: h.water,
            owner: h.owner,
            unit: h.unit,
            acted: h.acted,
            castle: h.castle,
            tree,
            grave: h.grave,
            capital,
            afford,
        }
    }

    /// The picture the screen shows, with message `msg` and sound `sfx`:
    /// every hex in row order, the seats, the territories, the selection
    /// and its targets, the clicked territory and its outline, the seat to
    /// play's totals, the log and the winner.
    pub fn snapshot(&self, msg: String, sfx: String) -> (st: UiState)
        requires
            self.wf(),
            self.sel_ok(),
        ensures
            st.round == self.round,
            st.current == self.current,
            st.arch@ == self.arch@,
            st.seed == self.seed,
            st.difficulty@ == self.difficulty@,
            st.humans@ == self.humans@,
            st.players@.len() == self.players@.len(),
            forall|i: int| 0 <= i < st.players@.len() ==> self.shows_player(#[trigger] st.players@[i], self.players@[i]),
            st.hexes@.len() == self.cells(),
            forall|i: int|
                0 <= i < st.hexes@.len() ==> self.shows_hex(#[trigger] st.hexes@[i], crate::hexgrid::point_of(self.cols as int, i)),
            st.terrs@.len() == self.terrs@.len(),
            forall|i: int| 0 <= i < st.terrs@.len() ==> #[trigger] st.terrs@[i] == self.ui_terr_spec(i),
            st.sel == self.sel,
            sorted_hexes(st.targets@),
            forall|q: (i32, i32)| #[trigger] st.targets@.contains(q) <==> self.sel_target(q),
            st.outline@ == self.outline_spec(),
            st.focus == self.focus,
            st.focus_terr == self.focus_terr_spec(),
            st.totals == self.totals_spec(),
            log_view(st.log@) == log_view(self.log@),
            st.msg@ == msg@,
            st.sfx@ == sfx@,
            st.winner == self.winner_spec(),
    {
        proof {
            self.lemma_wf_sizes();
        }
        let ghost c = self.cols as int;
        let ghost r = self.rows as int;
        // the hexes, row by row
        let mut hexes: Vec<UiHex> = Vec::new();
        let mut y: i32 = 0;
        while y < self.rows
            invariant
                self.dims_ok(),
                c == self.cols,
                r == self.rows,
                0 <= y <= r,
                hexes@.len() == y * c,
                forall|i: int|
                    0 <= i < hexes@.len() ==> self.shows_hex(#[trigger] hexes@[i], crate::hexgrid::point_of(c, i)),
            decreases r - y,
        {
            let mut x: i32 = 0;
            while x < self.cols
                invariant
                    self.dims_ok(),
                    c == self.cols,
                    r == self.rows,
                    0 <= y < r,
                    0 <= x <= c,
                    hexes@.len() == y * c + x,
                    forall|i: int|
                        0 <= i < hexes@.len() ==> self.shows_hex(#[trigger] hexes@[i], crate::hexgrid::point_of(c, i)),
                decreases c - x,
            {
                let u = self.ui_hex((x, y));
                proof {
                    let j = y * c + x;
                    vstd::arithmetic::div_mod::lemma_fundamental_div_mod_converse(j, c, y as int, x as int);
                    assert(crate::hexgrid::point_of(c, j) == (x, y));
                }
                hexes.push(u);
                x += 1;
            }
            proof {
                assert(hexes@.len() == (y + 1) * c) by (nonlinear_arith)
                    requires
                        hexes@.len() == y * c + c,
                ;
            }
            y += 1;
        }
        proof {
            assert(hexes@.len() == c * r) by (nonlinear_arith)
                requires
                    hexes@.len() == r * c,
            ;
        }
        // the seats
        let alive = self.alive();
        let mut players: Vec<UiPlayer> = Vec::new();
        let mut k: usize = 0;
        while k < self.players.len()
            invariant
                self.wf(),
                self.terrs_countable(),
                alive@ == self.alive_spec(),
                k <= self.players@.len(),
                players@.len() == k,
                forall|i: int| 0 <= i < k ==> self.shows_player(#[trigger] players@[i], self.players@[i]),
            decreases self.players@.len() - k,
        {
            let o = self.players[k];
            let u = UiPlayer {
                owner: o,
                name: owned(Game::player_name(o)),
                hexes: self.hexes_of(o),
                alive: crate::ai::has_seat(&alive, o),
            };
            players.push(u);
            k += 1;
        }
        // the territories
        let mut terrs: Vec<UiTerr> = Vec::new();
        let mut k: usize = 0;
        while k < self.terrs.len()
            invariant
                self.wf(),
                k <= self.terrs@.len(),
                terrs@.len() == k,
                forall|i: int| 0 <= i < k ==> #[trigger] terrs@[i] == self.ui_terr_spec(i),
            decreases self.terrs@.len() - k,
        {
            terrs.push(self.ui_terr(k));
            k += 1;
        }
        // the clicked territory
        let mut focus_terr: Option<UiTerr> = None;
        let mut outline: Vec<(i32, i32)> = Vec::new();
        match self.focus {
            Some(p) => match self.terr_at(p.0, p.1) {
                Some(ti) => {
                    if self.terrs[ti].owner == self.current {
                        focus_terr = Some(self.ui_terr(ti));
                    }
                    outline = copy_hexes(&self.terrs[ti].hexes);
                },
                None => {},
            },
            None => {},
        }
        let mut humans: Vec<i8> = Vec::new();
        let mut k: usize = 0;
        while k < self.humans.len()
            invariant
                k <= self.humans@.len(),
                humans@ == self.humans@.take(k as int),
            decreases self.humans@.len() - k,
        {
            humans.push(self.humans[k]);
            k += 1;
        }
        proof {
            assert(self.humans@.take(self.humans@.len() as int) =~= self.humans@);
        }
        let mut log: Vec<String> = Vec::new();
        let mut k: usize = 0;
        while k < self.log.len()
            invariant
                k <= self.log@.len(),
                log@.len() == k,
                forall|i: int| 0 <= i < k ==> (#[trigger] log@[i])@ == self.log@[i]@,
            decreases self.log@.len() - k,
        {
            log.push(self.log[k].clone());
            k += 1;
        }
        proof {
            assert(log_view(log@) =~= log_view(self.log@));
        }
        UiState {
            round: self.round,
            current: self.current,
            arch: self.arch.clone(),
            seed: self.seed,
            difficulty: self.difficulty.clone(),
            humans,
            players,
            hexes,
            terrs,
            sel: self.sel,
            targets: self.sel_targets(),
            outline,
            focus: self.focus,
            focus_terr,
            totals: self.totals(),
            log,
            msg,
            sfx,
            winner: self.winner(),
        }
    }
}

/// A copy of a list of hexes.
pub fn copy_hexes(v: &Vec<(i32, i32)>) -> (out: Vec<(i32, i32)>)
    ensures
        out@ == v@,
{
    let mut out: Vec<(i32, i32)> = Vec::new();
    let mut k: usize = 0;
    while k < v.len()
        invariant
            k <= v@.len(),
            out@ == v@.take(k as int),
        decreases v@.len() - k,
    {
        out.push(v[k]);
        k += 1;
    }
    proof {
        assert(v@.take(v@.len() as int) =~= v@);
    }
    out
}

} // verus!
