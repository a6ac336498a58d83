//! Combat and movement: defence of a hex, attacks, moves and combining.
use crate::game::{Game, Terr};
use crate::hexgrid::{ix, lemma_ix_bounds, lemma_nbrs, nbrs};
use crate::rules::{rank_name, rank_name_spec, Hex, CAPITAL_DEF, CASTLE_DEF, GRAVE_DEF};
use crate::territory::cell;
use crate::text::{append_int, decimal, join2, owned};
use vstd::prelude::*;

verus! {

impl Game {
    /// A neighbour `q` of a hex of owner `owner` in territory `t` guards it
    /// with strength `v`.
    pub open spec fn neighbour_guard(&self, t: Terr, owner: i8, q: (i32, i32), v: int) -> bool {
        let nh = self.hex_at(q);
        &&& nh.owner == owner
        &&& t.hexes@.contains(q)
        &&& {
            ||| nh.unit > 0 && v == nh.unit
            ||| nh.castle && v == CASTLE_DEF
            ||| nh.grave && v == GRAVE_DEF
            ||| t.capital == Some(q) && v == CAPITAL_DEF
        }
    }

    /// Something guards hex `p` with strength `v`: its man, castle or grave,
    /// its house, or a man, castle, grave or house on a neighbouring hex of
    /// the same territory.
    pub open spec fn guard_of(&self, p: (i32, i32), v: int) -> bool {
        let h = self.hex_at(p);
        ||| h.unit > 0 && v == h.unit
        ||| h.castle && v == CASTLE_DEF
        ||| h.grave && v == GRAVE_DEF
        ||| match self.terr_of(p) {
            Some(ti) => {
                let t = self.terrs@[ti as int];
                ||| t.capital == Some(p) && v == CAPITAL_DEF
                ||| exists|q: (i32, i32)| #[trigger]
                    self.adj(p, q) && self.neighbour_guard(t, h.owner, q, v)
            },
            None => false,
        }
    }

    /// `d` is the defence of hex `p`: 99 for water, else the strongest
    /// guard, or 0 when nothing guards it.
    pub open spec fn is_defence(&self, p: (i32, i32), d: u8) -> bool {
        if self.hex_at(p).water {
            d == 99
        } else {
            &&& forall|v: int| #[trigger] self.guard_of(p, v) ==> v <= d
            &&& d == 0 || self.guard_of(p, d as int)
        }
    }

    pub open spec fn defence_spec(&self, p: (i32, i32)) -> u8 {
        choose|d: u8| self.is_defence(p, d)
    }

    /// The defence of a hex is unique.
    pub proof fn lemma_defence_unique(&self, p: (i32, i32), d: u8)
        requires
            self.is_defence(p, d),
        ensures
            self.defence_spec(p) == d,
    {
        let e = self.defence_spec(p);
        assert(self.is_defence(p, e));
        if !self.hex_at(p).water {
            if d != 0 {
                assert(self.guard_of(p, d as int));
            }
            if e != 0 {
                assert(self.guard_of(p, e as int));
            }
        }
    }

    /// A guard of `p` in game `a` guards it in a game `b` with the same board
    /// and territories.
    proof fn lemma_guard_moves(a: &Game, b: &Game, p: (i32, i32), v: int)
        requires
            a.guard_of(p, v),
            b.cols == a.cols,
            b.rows == a.rows,
            b.grid@ == a.grid@,
            b.terrs@ == a.terrs@,
        ensures
            b.guard_of(p, v),
    {
        let h = a.hex_at(p);
        if !(h.unit > 0 && v == h.unit) && !(h.castle && v == CASTLE_DEF) && !(h.grave && v == GRAVE_DEF) {
            let ti = a.terr_of(p).unwrap();
            let t = a.terrs@[ti as int];
            assert(b.terr_of(p) == a.terr_of(p));
            if !(t.capital == Some(p) && v == CAPITAL_DEF) {
                let q = choose|q: (i32, i32)| #[trigger] a.adj(p, q) && a.neighbour_guard(t, h.owner, q, v);
                assert(b.adj(p, q) && b.neighbour_guard(t, h.owner, q, v));
            }
        }
    }

    /// Every hex on the board of a well-formed game has a defence.
    pub proof fn lemma_defence_exists(&self, p: (i32, i32))
        requires
            self.wf(),
            self.inside(p),
        ensures
            self.is_defence(p, self.defence_spec(p)),
    {
        if self.hex_at(p).water {
            self.lemma_defence_unique(p, 99);
        } else {
            self.lemma_inside_index(p);
            assert(crate::game::hex_ok(self.grid@[ix(self.cols as int, p)]));
            assert forall|v: int| #[trigger] self.guard_of(p, v) implies 1 <= v <= 4 by {
                let h = self.hex_at(p);
                if !(h.unit > 0 && v == h.unit) && !(h.castle && v == CASTLE_DEF) && !(h.grave && v == GRAVE_DEF) {
                    let ti = self.terr_of(p).unwrap();
                    let t = self.terrs@[ti as int];
                    if !(t.capital == Some(p) && v == CAPITAL_DEF) {
                        let q = choose|q: (i32, i32)| #[trigger] self.adj(p, q) && self.neighbour_guard(t, h.owner, q, v);
                        self.lemma_inside_index(q);
                        assert(crate::game::hex_ok(self.grid@[ix(self.cols as int, q)]));
                    }
                }
            }
            let d: u8 = if self.guard_of(p, 4) {
                4
            } else if self.guard_of(p, 3) {
                3
            } else if self.guard_of(p, 2) {
                2
            } else if self.guard_of(p, 1) {
                1
            } else {
                0
            };
            assert(self.is_defence(p, d));
            self.lemma_defence_unique(p, d);
        }
    }

    /// Two games with the same board and territories defend every hex on
    /// the board alike.
    pub proof fn lemma_defence_same(&self, other: &Game)
        requires
            self.wf(),
            other.cols == self.cols,
            other.rows == self.rows,
            other.grid@ == self.grid@,
            other.terrs@ == self.terrs@,
        ensures
            forall|p: (i32, i32)| self.inside(p) ==> #[trigger] other.defence_spec(p) == self.defence_spec(p),
    {
        assert forall|p: (i32, i32)| self.inside(p) implies #[trigger] other.defence_spec(p) == self.defence_spec(p) by {
            self.lemma_defence_exists(p);
            let d = self.defence_spec(p);
            assert forall|v: int| #[trigger] other.guard_of(p, v) implies self.guard_of(p, v) by {
                Game::lemma_guard_moves(other, self, p, v);
            }
            if d != 0 && !self.hex_at(p).water {
                Game::lemma_guard_moves(self, other, p, d as int);
            }
            assert(other.is_defence(p, d));
            other.lemma_defence_unique(p, d);
        }
    }

    /// A territory's house guards every hex of the territory next to it:
    /// such a hex is defended at least at the house's strength, so no
    /// peasant can take it.
    pub proof fn lemma_house_guards(&self, ti: int, p: (i32, i32), q: (i32, i32))
        requires
            self.wf(),
            0 <= ti < self.terrs@.len(),
            self.terrs@[ti].hexes@.contains(p),
            self.terrs@[ti].hexes@.contains(q),
            self.adj(p, q),
            self.terrs@[ti].capital == Some(q),
        ensures
            self.defence_spec(p) >= CAPITAL_DEF,
            forall|f: (i32, i32)|
                self.hex_at(f).unit <= CAPITAL_DEF ==> (#[trigger] self.attack_error(f, p)) is Some,
    {
        reveal(Game::terrs_partition);
        let t = self.terrs@[ti];
        assert(self.terr_fits(t));
        assert(self.land_of(t.owner).contains(p));
        assert(self.land_of(t.owner).contains(q));
        self.lemma_terr_of(ti, p);
        let tj = self.terr_of(p).unwrap();
        assert(ti < self.terrs.len());
        assert(tj as int == ti);
        assert(self.terrs@[tj as int] == t);
        assert(self.adj(p, q) && self.neighbour_guard(t, self.hex_at(p).owner, q, CAPITAL_DEF as int));
        assert(exists|n: (i32, i32)| #[trigger]
            self.adj(p, n) && self.neighbour_guard(self.terrs@[tj as int], self.hex_at(p).owner, n, CAPITAL_DEF as int));
        assert(self.guard_of(p, CAPITAL_DEF as int));
        self.lemma_defence_exists(p);
    }

    /// How strongly hex `(x, y)` is defended: 99 for water; else the
    /// strongest of its own man, castle (2) or grave (1), its house (1), and
    /// the men, castles, graves and house on neighbouring hexes of its
    /// territory.
    pub fn defence(&self, x: i32, y: i32) -> (d: u8)
        requires
            self.wf(),
            self.index_ok(x, y),
        ensures
            self.is_defence((x, y), d),
            d == self.defence_spec((x, y)),
    {
        let p = (x, y);
        proof {
            self.lemma_wf_sizes();
        }
        let h = self.grid[Game::idx(self.cols, x, y)];
        if h.water {
            proof {
                self.lemma_defence_unique(p, 99);
            }
            return 99;
        }
        let mut best: u8 = 0;
        if h.unit > 0 && h.unit > best {
            best = h.unit;
        }
        if h.castle && CASTLE_DEF > best {
            best = CASTLE_DEF;
        }
        if h.grave && GRAVE_DEF > best {
            best = GRAVE_DEF;
        }
        let ti = self.terr_at(x, y);
        match ti {
            None => {
                proof {
                    assert forall|v: int| #[trigger] self.guard_of(p, v) implies v <= best by {}
                    self.lemma_defence_unique(p, best);
                }
                best
            },
            Some(ti) => {
                let t = &self.terrs[ti];
                proof {
                    self.lemma_wf_sizes();
                    assert(self.terr_on_board(ti as int));
                    let k = choose|k: int| 0 <= k < t.hexes@.len() && t.hexes@[k] == p;
                    assert(self.inside(t.hexes@[k]));
                }
                let is_cap = match t.capital {
                    Some(c) => c.0 == x && c.1 == y,
                    None => false,
                };
                if is_cap && CAPITAL_DEF > best {
                    best = CAPITAL_DEF;
                }
                let nb = self.neighbours(x, y);
                proof {
                    lemma_nbrs(self.cols as int, self.rows as int, x, y);
                }
                let ghost base = best;
                let mut j: usize = 0;
                while j < nb.len()
                    invariant
                        self.wf(),
                        p == (x, y),
                        self.inside(p),
                        h == self.hex_at(p),
                        !h.water,
                        self.terr_of(p) == Some(ti),
                        ti < self.terrs@.len(),
                        *t == self.terrs@[ti as int],
                        nb@ == nbrs(self.cols as int, self.rows as int, x, y),
                        forall|q: (i32, i32)| nb@.contains(q) <==> self.adj(p, q),
                        forall|jj: int|
                            0 <= jj < nb@.len() ==> self.inside(#[trigger] nb@[jj]),
                        j <= nb@.len(),
                        base <= best,
                        h.unit > 0 ==> h.unit <= base,
                        h.castle ==> CASTLE_DEF <= base,
                        h.grave ==> GRAVE_DEF <= base,
                        t.capital == Some(p) ==> CAPITAL_DEF <= base,
                        base == 0 || (h.unit > 0 && base == h.unit) || (h.castle && base == CASTLE_DEF)
                            || (h.grave && base == GRAVE_DEF) || (t.capital == Some(p) && base
                            == CAPITAL_DEF),
                        forall|jj: int, v: int|
                            0 <= jj < j && #[trigger] self.neighbour_guard(*t, h.owner, nb@[jj], v) ==> v
                                <= best,
                        best == base || exists|jj: int|
                            0 <= jj < j && self.neighbour_guard(*t, h.owner, #[trigger] nb@[jj], best as int),
                    decreases nb@.len() - j,
                {
                    let q = nb[j];
                    proof {
                        lemma_ix_bounds(self.cols as int, self.rows as int, q);
                    }
                    let nh = self.grid[cell(self.cols, self.rows, q)];
                    let ghost best0 = best;
                    if nh.owner == h.owner && crate::game::has_hex(&t.hexes, q) {
                        if nh.unit > 0 && nh.unit > best {
                            best = nh.unit;
                        }
                        if nh.castle && CASTLE_DEF > best {
                            best = CASTLE_DEF;
                        }
                        if nh.grave && GRAVE_DEF > best {
                            best = GRAVE_DEF;
                        }
                        let q_cap = match t.capital {
                            Some(c) => c.0 == q.0 && c.1 == q.1,
                            None => false,
                        };
                        if q_cap && CAPITAL_DEF > best {
                            best = CAPITAL_DEF;
                        }
                    }
                    proof {
                        if best != best0 {
                            assert(self.neighbour_guard(*t, h.owner, nb@[j as int], best as int));
                        }
                    }
                    j += 1;
                }
                proof {
                    assert forall|v: int| #[trigger] self.guard_of(p, v) implies v <= best by {
                        if exists|q: (i32, i32)| #[trigger] self.adj(p, q) && self.neighbour_guard(*t, h.owner, q, v) {
                            let q = choose|q: (i32, i32)| #[trigger] self.adj(p, q) && self.neighbour_guard(*t, h.owner, q, v);
                            assert(nb@.contains(q));
                            let jj = choose|jj: int| 0 <= jj < nb@.len() && nb@[jj] == q;
                        }
                    }
                    if best != base {
                        let jj = choose|jj: int|
                            0 <= jj < nb@.len() && self.neighbour_guard(*t, h.owner, #[trigger] nb@[jj], best as int);
                        assert(nb@.contains(nb@[jj]));
                        assert(self.adj(p, nb@[jj]));
                    }
                    self.lemma_defence_unique(p, best);
                }
                best
            },
        }
    }
}


/// The hex after an attacker of rank `s` from seat `who` takes it: a man
/// there falls and leaves a grave; castle and tree are gone.
pub open spec fn conquered(h: Hex, who: i8, s: u8) -> Hex {
    Hex { grave: h.grave || h.unit != 0, owner: who, unit: s, acted: true, castle: false, tree: None, ..h }
}

/// The hex a man has left.
pub open spec fn vacated(h: Hex) -> Hex {
    Hex { unit: 0, acted: false, ..h }
}

impl Game {
    /// Some hex of territory `ti` has `t` as a neighbour.
    pub open spec fn touches(&self, ti: int, t: (i32, i32)) -> bool {
        exists|p: (i32, i32)| #[trigger] self.terrs@[ti].hexes@.contains(p) && self.adj(p, t)
    }

    /// Why the man on `f` may not attack `t`, or `None` when he may.
    pub open spec fn attack_error(&self, f: (i32, i32), t: (i32, i32)) -> Option<Seq<char>> {
        let fh = self.hex_at(f);
        if fh.unit == 0 || fh.acted || fh.owner == -1 {
            Some(Seq::empty())
        } else {
            match self.terr_of(f) {
                None => Some(Seq::empty()),
                Some(fti) => if !self.touches(fti as int, t) {
                    Some("Too far: attacks must touch your territory."@)
                } else if self.hex_at(t).water {
                    Some("Water."@)
                } else if self.hex_at(t).owner == fh.owner {
                    Some("Own hex (move/combine instead)."@)
                } else if fh.unit <= self.defence_spec(t) {
                    Some(
                        "Too strong (def "@ + decimal(self.defence_spec(t) as int)
                            + "). Combine men first."@,
                    )
                } else {
                    None
                },
            }
        }
    }

    /// The board after the man on `f` takes `t` for seat `who`.
    pub open spec fn attacked_grid(&self, f: (i32, i32), t: (i32, i32), who: i8) -> Seq<Hex> {
        let s = self.hex_at(f).unit;
        let g1 = self.grid@.update(ix(self.cols as int, t), conquered(self.hex_at(t), who, s));
        g1.update(ix(self.cols as int, f), vacated(g1[ix(self.cols as int, f)]))
    }

    /// Some hex of territory `ti` neighbours `(tx, ty)`.
    fn touches_terr(&self, ti: usize, tx: i32, ty: i32) -> (b: bool)
        requires
            self.wf(),
            ti < self.terrs@.len(),
        ensures
            b == self.touches(ti as int, (tx, ty)),
    {
        proof {
            self.lemma_wf_sizes();
            assert(self.terr_on_board(ti as int));
        }
        let hexes = &self.terrs[ti].hexes;
        let mut i: usize = 0;
        while i < hexes.len()
            invariant
                self.wf(),
                self.terr_on_board(ti as int),
                hexes@ == self.terrs@[ti as int].hexes@,
                i <= hexes@.len(),
                forall|k: int| 0 <= k < i ==> !self.adj(#[trigger] hexes@[k], (tx, ty)),
            decreases hexes.len() - i,
        {
            let p = hexes[i];
            proof {
                assert(self.inside(hexes@[i as int]));
            }
            let nb = self.neighbours(p.0, p.1);
            proof {
                lemma_nbrs(self.cols as int, self.rows as int, p.0, p.1);
            }
            if crate::game::has_hex(&nb, (tx, ty)) {
                assert(hexes@.contains(p));
                return true;
            }
            i += 1;
        }
        proof {
            assert forall|p: (i32, i32)| #[trigger] hexes@.contains(p) implies !self.adj(p, (tx, ty)) by {
                let k = choose|k: int| 0 <= k < hexes@.len() && hexes@[k] == p;
            }
        }
        false
    }

    /// Whether the man on `(fx, fy)` may attack `(tx, ty)`: he must be an
    /// owned, unspent man; the target must touch his territory, be land of
    /// another owner, and be defended strictly less than his rank.
    pub fn can_attack(&self, fx: i32, fy: i32, tx: i32, ty: i32) -> (r: Result<(), String>)
        requires
            self.wf(),
            self.index_ok(fx, fy),
        ensures
            r is Ok <==> self.attack_error((fx, fy), (tx, ty)) is None,
            r matches Err(e) ==> self.attack_error((fx, fy), (tx, ty)) == Some(e@),
    {
        proof {
            self.lemma_wf_sizes();
            reveal_strlit("Too far: attacks must touch your territory.");
        }
        let f = (fx, fy);
        let t = (tx, ty);
        let fh = self.grid[Game::idx(self.cols, fx, fy)];
        if fh.unit == 0 || fh.acted || fh.owner == -1 {
            return Err(String::new());
        }
        let fti = match self.terr_at(fx, fy) {
            Some(i) => i,
            None => {
                return Err(String::new());
            },
        };
        if !self.touches_terr(fti, tx, ty) {
            return Err(owned("Too far: attacks must touch your territory."));
        }
        proof {
            let p = choose|p: (i32, i32)| #[trigger] self.terrs@[fti as int].hexes@.contains(p) && self.adj(p, t);
            lemma_ix_bounds(self.cols as int, self.rows as int, t);
            assert(0 <= ty * self.cols <= 64 * 64) by (nonlinear_arith)
                requires
                    0 <= ty < self.rows <= 64,
                    1 <= self.cols <= 64,
            ;
        }
        let th = self.grid[Game::idx(self.cols, tx, ty)];
        if th.water {
            return Err(owned("Water."));
        }
        if th.owner == fh.owner {
            return Err(owned("Own hex (move/combine instead)."));
        }
        let d = self.defence(tx, ty);
        if fh.unit <= d {
            let mut msg = owned("Too strong (def ");
            append_int(&mut msg, d as i64);
            msg.append("). Combine men first.");
            return Err(msg);
        }
        Ok(())
    }

    /// The man on `(fx, fy)` takes `(tx, ty)` for seat `who`: a defender
    /// there falls into a grave, castle and tree are razed, the attacker is
    /// spent, and the territories are recounted.
    pub fn do_attack(&mut self, fx: i32, fy: i32, tx: i32, ty: i32, who: i8) -> (r: Result<String, String>)
        requires
            old(self).wf(),
            old(self).index_ok(fx, fy),
        ensures
            final(self).wf(),
            match r {
                Err(e) => old(self).attack_error((fx, fy), (tx, ty)) == Some(e@) && *final(self) == *old(self),
                Ok(m) => {
                    &&& old(self).attack_error((fx, fy), (tx, ty)) is None
                    &&& m@ == rank_name_spec(old(self).hex_at((fx, fy)).unit) + " takes a hex."@
                    &&& final(self).grid@ == old(self).attacked_grid((fx, fy), (tx, ty), who)
                    &&& final(self).recounted(old(self).terrs@)
                    &&& final(self).same_setup(old(self))
                    &&& final(self).round == old(self).round
                    &&& final(self).current == old(self).current
                    &&& final(self).log@ == old(self).log@
                    &&& final(self).sel == old(self).sel
                    &&& final(self).focus == old(self).focus
                    &&& final(self).rng == old(self).rng
                },
            },
    {
        match self.can_attack(fx, fy, tx, ty) {
            Err(e) => {
                return Err(e);
            },
            Ok(()) => {},
        }
        proof {
            self.lemma_wf_sizes();
            let fti = self.terr_of((fx, fy)).unwrap();
            let p = choose|p: (i32, i32)| #[trigger] self.terrs@[fti as int].hexes@.contains(p) && self.adj(p, (tx, ty));
            lemma_ix_bounds(self.cols as int, self.rows as int, (tx, ty));
            assert(0 <= ty * self.cols <= 64 * 64) by (nonlinear_arith)
                requires
                    0 <= ty < self.rows <= 64,
                    1 <= self.cols <= 64,
            ;
        }
        let ghost pre = *self;
        let fi = Game::idx(self.cols, fx, fy);
        let s = self.grid[fi].unit;
        let ti = Game::idx(self.cols, tx, ty);
        let mut th = self.grid[ti];
        if th.unit != 0 {
            th.grave = true;
        }
        th.owner = who;
        th.unit = s;
        th.acted = true;
        th.castle = false;
        th.tree = None;
        self.grid.set(ti, th);
        let mut fh = self.grid[fi];
        fh.unit = 0;
        fh.acted = false;
        self.grid.set(fi, fh);
        proof {
            assert(self.grid@ == pre.attacked_grid((fx, fy), (tx, ty), who));
            assert forall|i: int| 0 <= i < self.grid@.len() implies crate::game::hex_ok(#[trigger] self.grid@[i]) by {
                assert(crate::game::hex_ok(pre.grid@[i]));
            }
        }
        self.recompute();
        proof {
            reveal_strlit(" takes a hex.");
        }
        Ok(join2(rank_name(s), " takes a hex."))
    }
}


impl Game {
    /// What moving the man on `f` to `t` within his territory yields: the
    /// message on success, or why it is refused.
    pub open spec fn move_result(&self, f: (i32, i32), t: (i32, i32)) -> Result<Seq<char>, Seq<char>> {
        match self.terr_of(f) {
            None => Err("Move inside your own territory."@),
            Some(fti) => {
                let fh = self.hex_at(f);
                let th = self.hex_at(t);
                if !self.terrs@[fti as int].hexes@.contains(t) {
                    Err("Same territory only."@)
                } else if fh.unit == 0 || fh.acted {
                    Err("That man already acted."@)
                } else if th.unit != 0 {
                    if fh.unit + th.unit > 4 {
                        Err("Too strong to combine (max Baron)."@)
                    } else {
                        Ok("Combined into "@ + rank_name_spec((fh.unit + th.unit) as u8) + "."@)
                    }
                } else if th.castle {
                    Err("Occupied by a castle."@)
                } else if th.owner != fh.owner {
                    Err("Move inside your own territory."@)
                } else if th.tree is Some {
                    Ok("Chopped a tree."@)
                } else {
                    Ok("Moved."@)
                }
            },
        }
    }

    /// The board after a successful move of the man on `f` to `t`: onto a
    /// man they combine, the sum spent; onto a tree he chops it and is spent;
    /// onto open land he stays fresh and clears a grave.
    pub open spec fn moved_grid(&self, f: (i32, i32), t: (i32, i32)) -> Seq<Hex> {
        let fi = ix(self.cols as int, f);
        let ti = ix(self.cols as int, t);
        let fh = self.hex_at(f);
        let th = self.hex_at(t);
        if th.unit != 0 {
            let g1 = self.grid@.update(ti, Hex { unit: (fh.unit + th.unit) as u8, acted: true, ..th });
            g1.update(fi, vacated(g1[fi]))
        } else {
            let g1 = self.grid@.update(ti, Hex { unit: fh.unit, tree: None, grave: false, acted: false, ..th });
            let g2 = g1.update(fi, vacated(g1[fi]));
            if th.tree is Some {
                g2.update(ti, Hex { acted: true, ..g2[ti] })
            } else {
                g2
            }
        }
    }

    /// Moves the man on `(fx, fy)` to `(tx, ty)` in the same territory:
    /// onto a man they combine (ranks add, at most a Baron), onto a tree he
    /// chops it, onto open land he moves on. Territories do not change.
    pub fn do_move(&mut self, fx: i32, fy: i32, tx: i32, ty: i32) -> (r: Result<String, String>)
        requires
            old(self).wf(),
        ensures
            final(self).wf(),
            match r {
                Err(e) => old(self).move_result((fx, fy), (tx, ty)) == Err::<Seq<char>, Seq<char>>(e@)
                    && *final(self) == *old(self),
                Ok(m) => {
                    &&& old(self).move_result((fx, fy), (tx, ty)) == Ok::<Seq<char>, Seq<char>>(m@)
                    &&& final(self).grid@ == old(self).moved_grid((fx, fy), (tx, ty))
                    &&& final(self).terrs@ == old(self).terrs@
                    &&& final(self).same_setup(old(self))
                    &&& final(self).round == old(self).round
                    &&& final(self).current == old(self).current
                    &&& final(self).log@ == old(self).log@
                    &&& final(self).sel == old(self).sel
                    &&& final(self).focus == old(self).focus
                    &&& final(self).rng == old(self).rng
                },
            },
    {
        proof {
            self.lemma_wf_sizes();
            reveal_strlit("Move inside your own territory.");
            reveal_strlit("Same territory only.");
            reveal_strlit("That man already acted.");
            reveal_strlit("Too strong to combine (max Baron).");
            reveal_strlit("Occupied by a castle.");
            reveal_strlit("Chopped a tree.");
            reveal_strlit("Moved.");
            reveal_strlit("Combined into ");
            reveal_strlit(".");
        }
        let ghost pre = *self;
        let ghost f = (fx, fy);
        let ghost t = (tx, ty);
        let fti = match self.terr_at(fx, fy) {
            Some(i) => i,
            None => {
                return Err(owned("Move inside your own territory."));
            },
        };
        if !crate::game::has_hex(&self.terrs[fti].hexes, (tx, ty)) {
            return Err(owned("Same territory only."));
        }
        proof {
            assert(self.terr_on_board(fti as int));
            let k = choose|k: int| 0 <= k < self.terrs@[fti as int].hexes@.len() && self.terrs@[fti as int].hexes@[k] == f;
            assert(self.inside(self.terrs@[fti as int].hexes@[k]));
            let k2 = choose|k2: int| 0 <= k2 < self.terrs@[fti as int].hexes@.len() && self.terrs@[fti as int].hexes@[k2] == t;
            assert(self.inside(self.terrs@[fti as int].hexes@[k2]));
        }
        let fi = cell(self.cols, self.rows, (fx, fy));
        let ti2 = cell(self.cols, self.rows, (tx, ty));
        let fh0 = self.grid[fi];
        let fowner = fh0.owner;
        let funit = fh0.unit;
        let facted = fh0.acted;
        if funit == 0 || facted {
            return Err(owned("That man already acted."));
        }
        proof {
            assert(crate::game::hex_ok(self.grid@[fi as int]));
            assert(crate::game::hex_ok(self.grid@[ti2 as int]));
        }
        if self.grid[ti2].unit != 0 {
            let s = funit + self.grid[ti2].unit;
            if s > 4 {
                return Err(owned("Too strong to combine (max Baron)."));
            }
            let mut th = self.grid[ti2];
            th.unit = s;
            th.acted = true;
            self.grid.set(ti2, th);
            let mut fh = self.grid[fi];
            fh.unit = 0;
            fh.acted = false;
            self.grid.set(fi, fh);
            proof {
                self.lemma_same_land(&pre);
            }
            return Ok(crate::text::join3("Combined into ", rank_name(s), "."));
        }
        if self.grid[ti2].castle {
            return Err(owned("Occupied by a castle."));
        }
        if self.grid[ti2].owner != fowner {
            return Err(owned("Move inside your own territory."));
        }
        let chop = self.grid[ti2].tree.is_some();
        let mut th = self.grid[ti2];
        th.unit = funit;
        th.tree = None;
        th.grave = false;
        th.acted = false;
        self.grid.set(ti2, th);
        let mut fh = self.grid[fi];
        fh.unit = 0;
        fh.acted = false;
        self.grid.set(fi, fh);
        if chop {
            let mut th2 = self.grid[ti2];
            th2.acted = true;
            self.grid.set(ti2, th2);
            proof {
                self.lemma_same_land(&pre);
            }
            return Ok(owned("Chopped a tree."));
        }
        proof {
            self.lemma_same_land(&pre);
        }
        Ok(owned("Moved."))
    }
}

} // verus!
