//! The economy: buying men and castles, the log, and each turn's payday.
use crate::game::{hex_ok, terr_shape, total_gold, Game, Terr, GOLD_CAP};
use crate::hexgrid::{ix, lemma_ix_bounds};
use crate::rules::{Hex, Tree, BUY_CASTLE, BUY_PEASANT};
use crate::territory::cell;
use crate::text::{append_int, owned, str_eq};
use vstd::prelude::*;

verus! {

pub proof fn lemma_total_gold_update(ts: Seq<Terr>, i: int, t: Terr)
    requires
        0 <= i < ts.len(),
    ensures
        total_gold(ts.update(i, t)) == total_gold(ts) - ts[i].savings + t.savings,
    decreases ts.len(),
{
    let us = ts.update(i, t);
    if i == ts.len() - 1 {
        assert(us.drop_last() =~= ts.drop_last());
    } else {
        assert(us.drop_last() =~= ts.drop_last().update(i, t));
        lemma_total_gold_update(ts.drop_last(), i, t);
    }
}

/// The log keeps the four latest messages.
pub open spec fn say_spec(log: Seq<Seq<char>>, m: Seq<char>) -> Seq<Seq<char>> {
    let l = log.push(m);
    if l.len() > 4 {
        l.subrange(l.len() - 4, l.len() as int)
    } else {
        l
    }
}

pub open spec fn log_view(log: Seq<String>) -> Seq<Seq<char>> {
    log.map_values(|s: String| s@)
}

/// The price of what `castle` says is bought.
pub open spec fn buy_cost(castle: bool) -> i64 {
    if castle {
        BUY_CASTLE
    } else {
        BUY_PEASANT
    }
}

/// The hex after the purchase.
pub open spec fn bought_hex(h: Hex, castle: bool) -> Hex {
    if castle {
        Hex { castle: true, ..h }
    } else {
        Hex { unit: 1, acted: false, tree: None, ..h }
    }
}

impl Game {
    /// Appends a message to the log, keeping the four latest.
    pub fn say(&mut self, msg: &str)
        requires
            old(self).log@.len() <= 4,
        ensures
            log_view(final(self).log@) == say_spec(log_view(old(self).log@), msg@),
            final(self).log@.len() <= 4,
            final(self).grid@ == old(self).grid@,
            final(self).terrs@ == old(self).terrs@,
            final(self).same_setup(old(self)),
            final(self).round == old(self).round,
            final(self).current == old(self).current,
            final(self).sel == old(self).sel,
            final(self).focus == old(self).focus,
            final(self).rng == old(self).rng,
    {
        let ghost l0 = log_view(self.log@);
        self.log.push(owned(msg));
        if self.log.len() > 4 {
            let _ = self.log.remove(0);
        }
        proof {
            let l = l0.push(msg@);
            assert(log_view(self.log@) =~= say_spec(l0, msg@));
        }
    }

    /// What buying at `p` for seat `who` yields: the message, or why not.
    pub open spec fn buy_result(&self, p: (i32, i32), castle: bool, who: i8) -> Result<
        Seq<char>,
        Seq<char>,
    > {
        match self.terr_of(p) {
            None => Err("Your territory only."@),
            Some(ti) => {
                let t = self.terrs@[ti as int];
                let h = self.hex_at(p);
                if t.owner != who {
                    Err("Your territory only."@)
                } else if t.savings < buy_cost(castle) {
                    Err(
                        "Need "@ + crate::text::decimal(buy_cost(castle) as int)
                            + " gold (territory has "@ + crate::text::decimal(t.savings as int)
                            + ")."@,
                    )
                } else if h.unit != 0 || h.castle || h.grave {
                    Err("Occupied."@)
                } else if castle && h.tree is Some {
                    Err("Chop the tree first."@)
                } else if castle {
                    Ok("Castle built."@)
                } else {
                    Ok("Peasant ready."@)
                }
            },
        }
    }

    /// Buys a castle (`kind` "castle", 15 gold) or else a peasant (10 gold)
    /// on a free hex of one of `who`'s territories, paid from its treasury.
    /// A castle needs a hex without a tree; a peasant clears one.
    #[verifier::rlimit(50)]
    pub fn buy(&mut self, x: i32, y: i32, kind: &str, who: i8) -> (r: Result<String, String>)
        requires
            old(self).wf(),
        ensures
            final(self).wf(),
            match r {
                Err(e) => old(self).buy_result((x, y), kind@ == "castle"@, who) == Err::<
                    Seq<char>,
                    Seq<char>,
                >(e@) && *final(self) == *old(self),
                Ok(m) => {
                    let ti = old(self).terr_of((x, y)).unwrap() as int;
                    let t = old(self).terrs@[ti];
                    let castle = kind@ == "castle"@;
                    &&& old(self).buy_result((x, y), castle, who) == Ok::<Seq<char>, Seq<char>>(m@)
                    &&& final(self).grid@ == old(self).grid@.update(
                        ix(old(self).cols as int, (x, y)),
                        bought_hex(old(self).hex_at((x, y)), castle),
                    )
                    &&& !castle ==> final(self).hex_at((x, y)).unit == 1 && !final(self).hex_at((x, y)).acted
                        && final(self).hex_at((x, y)).tree is None
                    &&& castle ==> final(self).hex_at((x, y)).castle && final(self).hex_at((x, y)).tree is None
                        && final(self).hex_at((x, y)).unit == 0
                    &&& final(self).hex_at((x, y)).owner == who
                    &&& final(self).terrs@ == old(self).terrs@.update(
                        ti,
                        Terr { savings: (t.savings - buy_cost(castle)) as i64, ..t },
                    )
                    &&& final(self).same_setup(old(self))
                    &&& final(self).round == old(self).round
                    &&& final(self).current == old(self).current
                    &&& final(self).log@ == old(self).log@
                    &&& final(self).sel == old(self).sel
                    &&& final(self).focus == old(self).focus
                    &&& final(self).rng == old(self).rng
                },
            },
    {
        proof {
            self.lemma_wf_sizes();
            reveal_strlit("castle");
            reveal_strlit("Your territory only.");
            reveal_strlit("Occupied.");
            reveal_strlit("Chop the tree first.");
            reveal_strlit("Castle built.");
            reveal_strlit("Peasant ready.");
        }
        let ghost pre = *self;
        let ti = match self.terr_at(x, y) {
            Some(i) => i,
            None => {
                return Err(owned("Your territory only."));
            },
        };
        if self.terrs[ti].owner != who {
            return Err(owned("Your territory only."));
        }
        let castle = str_eq(kind, "castle");
        let cost = if castle {
            BUY_CASTLE
        } else {
            BUY_PEASANT
        };
        if self.terrs[ti].savings < cost {
            let mut msg = owned("Need ");
            append_int(&mut msg, cost);
            msg.append(" gold (territory has ");
            append_int(&mut msg, self.terrs[ti].savings);
            msg.append(").");
            return Err(msg);
        }
        proof {
            assert(self.terr_on_board(ti as int));
            let k = choose|k: int| 0 <= k < self.terrs@[ti as int].hexes@.len() && self.terrs@[ti as int].hexes@[k] == (x, y);
            assert(self.inside(self.terrs@[ti as int].hexes@[k]));
        }
        let i = cell(self.cols, self.rows, (x, y));
        let mut h = self.grid[i];
        if h.unit != 0 || h.castle || h.grave {
            return Err(owned("Occupied."));
        }
        if castle && h.tree.is_some() {
            return Err(owned("Chop the tree first."));
        }
        if castle {
            h.castle = true;
        } else {
            h.unit = 1;
            h.acted = false;
            h.tree = None;
        }
        self.grid.set(i, h);
        let ghost t0 = pre.terrs@[ti as int];
        let mut t = self.terrs.remove(ti);
        t.savings = t.savings - cost;
        self.terrs.insert(ti, t);
        proof {
            assert(self.terrs@ =~= pre.terrs@.update(ti as int, Terr { savings: (t0.savings - cost) as i64, ..t0 }));
            lemma_total_gold_update(pre.terrs@, ti as int, self.terrs@[ti as int]);
            assert forall|k: int| 0 <= k < self.terrs@.len() implies terr_shape(
                self.cols as int,
                self.rows as int,
                self.players@.len() as int,
                #[trigger] self.terrs@[k],
            ) by {
                assert(terr_shape(pre.cols as int, pre.rows as int, pre.players@.len() as int, pre.terrs@[k]));
            }
            assert forall|k: int| 0 <= k < self.grid@.len() implies (#[trigger] self.grid@[k]).water == pre.grid@[k].water
                && self.grid@[k].owner == pre.grid@[k].owner && self.grid@[k].unit <= 4 by {
                assert(hex_ok(pre.grid@[k]));
            }
            self.lemma_same_land(&pre);
            assert(self.grid@[i as int] == h);
            reveal(Game::terrs_partition);
            assert(pre.terr_fits(pre.terrs@[ti as int]));
            assert(pre.land_of(pre.terrs@[ti as int].owner).contains((x, y)));
        }
        if castle {
            Ok(owned("Castle built."))
        } else {
            Ok(owned("Peasant ready."))
        }
    }
}


/// What sprouts on an empty hex with `pines` pine and `palms` palm
/// neighbours, on the coast when `coast`: a pine when it has two pine
/// neighbours and its draw `r1` falls in the lower half; failing that, a
/// palm when it is on the coast beside a palm and its draw `r2` falls in
/// the lower half; else nothing.
pub open spec fn sprout_spec(pines: int, palms: int, coast: bool, r1: u64, r2: u64) -> Option<Tree> {
    if pines >= 2 && crate::rng::draw_below(r1, 1, 2) {
        Some(Tree::Pine)
    } else if coast && palms >= 1 && crate::rng::draw_below(r2, 1, 2) {
        Some(Tree::Palm)
    } else {
        None
    }
}

/// The tree that sprouts, as `sprout_spec` gives it for the draws.
pub fn sprout_choice(pines: usize, palms: usize, coast: bool, r1: u64, r2: u64) -> (t: Option<Tree>)
    ensures
        t == sprout_spec(pines as int, palms as int, coast, r1, r2),
{
    if pines >= 2 && crate::rng::chance_below(r1, 1, 2) {
        Some(Tree::Pine)
    } else if coast && palms >= 1 && crate::rng::chance_below(r2, 1, 2) {
        Some(Tree::Palm)
    } else {
        None
    }
}

// ---------- payday ----------

/// A hex after its grave is cleared: an empty grave turns into a pine.
pub open spec fn after_graves(h: Hex) -> Hex {
    if h.grave {
        if h.unit == 0 && !h.castle {
            Hex { grave: false, tree: Some(Tree::Pine), ..h }
        } else {
            Hex { grave: false, ..h }
        }
    } else {
        h
    }
}

/// A tree may sprout on an empty hex: no grave, tree, man or castle.
pub open spec fn may_sprout(h: Hex) -> bool {
    !h.grave && h.tree is None && h.unit == 0 && !h.castle
}

/// How a hex of a territory looks after its payday, given how it looked
/// before (`h0`), whether it holds the house, and whether the territory
/// starved. Acted marks are left to the caller.
pub open spec fn paid_core(h0: Hex, h1: Hex, is_cap: bool, starved: bool) -> bool {
    &&& h1.water == h0.water
    &&& h1.owner == h0.owner
    &&& h1.castle == h0.castle
    &&& (h1.tree == after_graves(h0).tree || (may_sprout(h0) && !is_cap && h1.tree is Some))
    &&& h1.unit == (if starved {
        0u8
    } else {
        h0.unit
    })
    &&& h1.grave == (starved && h0.unit != 0)
}

pub open spec fn paid_hex(h0: Hex, h1: Hex, is_cap: bool, starved: bool) -> bool {
    &&& paid_core(h0, h1, is_cap, starved)
    &&& h1.acted == (if starved && h0.unit != 0 {
        false
    } else {
        h0.acted
    })
}

/// The log after `n` messages `m`.
pub open spec fn say_times(log: Seq<Seq<char>>, m: Seq<char>, n: nat) -> Seq<Seq<char>>
    decreases n,
{
    if n == 0 {
        log
    } else {
        say_spec(say_times(log, m, (n - 1) as nat), m)
    }
}

pub open spec fn bankrupt_msg() -> Seq<char> {
    "Bankrupt! A territory starved."@
}

proof fn lemma_sorted_distinct(hs: Seq<(i32, i32)>, k: int)
    requires
        crate::game::sorted_hexes(hs),
        0 <= k < hs.len(),
    ensures
        !hs.subrange(0, k).contains(hs[k]),
        forall|q: (i32, i32)|
            hs.subrange(0, k + 1).contains(q) <==> (hs.subrange(0, k).contains(q) || q == hs[k]),
{
    if hs.subrange(0, k).contains(hs[k]) {
        let j = choose|j: int| 0 <= j < k && #[trigger] hs.subrange(0, k)[j] == hs[k];
        assert(crate::game::lex_lt(hs[j], hs[k]));
    }
    assert forall|q: (i32, i32)|
        hs.subrange(0, k + 1).contains(q) <==> (hs.subrange(0, k).contains(q) || q == hs[k]) by {
        if hs.subrange(0, k + 1).contains(q) {
            let j = choose|j: int| 0 <= j < k + 1 && #[trigger] hs.subrange(0, k + 1)[j] == q;
            if j < k {
                assert(hs.subrange(0, k)[j] == q);
            }
        }
        if hs.subrange(0, k).contains(q) {
            let j = choose|j: int| 0 <= j < k && #[trigger] hs.subrange(0, k)[j] == q;
            assert(hs.subrange(0, k + 1)[j] == q);
        }
        if q == hs[k] {
            assert(hs.subrange(0, k + 1)[k] == q);
        }
    }
}

proof fn lemma_clear_count_same(g1: &Game, g2: &Game, hs: Seq<(i32, i32)>)
    requires
        forall|q: (i32, i32)| #[trigger] hs.contains(q) ==> g1.hex_at(q).tree == g2.hex_at(q).tree,
    ensures
        crate::game::clear_count(g1, hs) == crate::game::clear_count(g2, hs),
    decreases hs.len(),
{
    if hs.len() > 0 {
        assert forall|q: (i32, i32)| #[trigger] hs.drop_last().contains(q) implies g1.hex_at(q).tree
            == g2.hex_at(q).tree by {
            let j = choose|j: int| 0 <= j < hs.drop_last().len() && hs.drop_last()[j] == q;
            assert(hs[j] == q);
            assert(hs.contains(q));
        }
        assert(hs.contains(hs.last()));
        lemma_clear_count_same(g1, g2, hs.drop_last());
    }
}

proof fn lemma_wage_sum_same(g1: &Game, g2: &Game, hs: Seq<(i32, i32)>)
    requires
        forall|q: (i32, i32)| #[trigger] hs.contains(q) ==> g1.hex_at(q).unit == g2.hex_at(q).unit,
    ensures
        crate::game::wage_sum(g1, hs) == crate::game::wage_sum(g2, hs),
    decreases hs.len(),
{
    if hs.len() > 0 {
        assert forall|q: (i32, i32)| #[trigger] hs.drop_last().contains(q) implies g1.hex_at(q).unit
            == g2.hex_at(q).unit by {
            let j = choose|j: int| 0 <= j < hs.drop_last().len() && hs.drop_last()[j] == q;
            assert(hs[j] == q);
            assert(hs.contains(q));
        }
        assert(hs.contains(hs.last()));
        lemma_wage_sum_same(g1, g2, hs.drop_last());
    }
}

impl Game {
    /// The state between passes of a payday: well-formed, and changed from
    /// `pre` only in the board's men, trees, graves, castles and marks, in
    /// the treasuries, the log and the generator.
    pub open spec fn payday_frame(&self, pre: &Game) -> bool {
        &&& self.same_setup(pre)
        &&& self.terrs@.len() == pre.terrs@.len()
        &&& forall|i: int|
            0 <= i < self.terrs@.len() ==> (#[trigger] self.terrs@[i]).hexes@ == pre.terrs@[i].hexes@
                && self.terrs@[i].owner == pre.terrs@[i].owner && self.terrs@[i].capital
                == pre.terrs@[i].capital
        &&& self.round == pre.round
        &&& self.current == pre.current
        &&& self.sel == pre.sel
        &&& self.focus == pre.focus
    }

    /// One pass over the hexes of territory `ti`: graves are cleared, and an
    /// empty grave becomes a pine.
    fn clear_graves(&mut self, ti: usize)
        requires
            old(self).wf(),
            ti < old(self).terrs@.len(),
        ensures
            final(self).wf(),
            final(self).terrs@ == old(self).terrs@,
            final(self).log@ == old(self).log@,
            final(self).rng == old(self).rng,
            final(self).payday_frame(old(self)),
            forall|q: (i32, i32)|
                #![trigger final(self).hex_at(q)]
                old(self).inside(q) ==> final(self).hex_at(q) == if old(self).terrs@[ti as int].hexes@.contains(q) {
                    after_graves(old(self).hex_at(q))
                } else {
                    old(self).hex_at(q)
                },
    {
        proof {
            self.lemma_wf_sizes();
            assert(self.terr_on_board(ti as int));
        }
        let ghost pre = *self;
        let ghost hs = self.terrs@[ti as int].hexes@;
        let ghost c = self.cols as int;
        let ghost r = self.rows as int;
        let n = self.terrs[ti].hexes.len();
        let mut k: usize = 0;
        while k < n
            invariant
                pre.wf(),
                pre.terr_on_board(ti as int),
                c == pre.cols,
                r == pre.rows,
                hs == pre.terrs@[ti as int].hexes@,
                crate::game::sorted_hexes(hs),
                n == hs.len(),
                k <= n,
                self.terrs@ == pre.terrs@,
                self.log@ == pre.log@,
                self.rng == pre.rng,
                self.payday_frame(&pre),
                self.grid@.len() == pre.grid@.len(),
                forall|q: (i32, i32)|
                    #![trigger self.hex_at(q)]
                    pre.inside(q) ==> self.hex_at(q) == if hs.subrange(0, k as int).contains(q) {
                        after_graves(pre.hex_at(q))
                    } else {
                        pre.hex_at(q)
                    },
            decreases n - k,
        {
            let q = self.terrs[ti].hexes[k];
            proof {
                assert(pre.inside(hs[k as int]));
                lemma_sorted_distinct(hs, k as int);
            }
            let i = cell(self.cols, self.rows, q);
            let mut h = self.grid[i];
            if h.grave {
                h.grave = false;
                if h.unit == 0 && !h.castle {
                    h.tree = Some(Tree::Pine);
                }
            }
            let ghost before = *self;
            self.grid.set(i, h);
            proof {
                assert forall|x: (i32, i32)|
                    #![trigger self.hex_at(x)]
                    pre.inside(x) implies self.hex_at(x) == if hs.subrange(0, k + 1).contains(x) {
                        after_graves(pre.hex_at(x))
                    } else {
                        pre.hex_at(x)
                    } by {
                    lemma_ix_bounds(c, r, x);
                    if x != q {
                        if ix(c, x) == ix(c, q) {
                            crate::hexgrid::lemma_ix_inj(c, r, x, q);
                        }
                        assert(self.hex_at(x) == before.hex_at(x));
                    }
                }
            }
            k += 1;
        }
        proof {
            assert(hs.subrange(0, n as int) =~= hs);
            assert forall|i: int| 0 <= i < self.grid@.len() implies (#[trigger] self.grid@[i]).water == pre.grid@[i].water
                && self.grid@[i].owner == pre.grid@[i].owner && self.grid@[i].unit <= 4 by {
                crate::hexgrid::lemma_point_of(c, r, i);
                let x = crate::hexgrid::point_of(c, i);
                assert(self.hex_at(x) == self.grid@[i]);
                assert(hex_ok(pre.grid@[i]));
            }
            self.lemma_same_land(&pre);
        }
    }
}


impl Game {
    /// How many of the hexes `s` bear a pine.
    pub open spec fn pine_count(&self, s: Seq<(i32, i32)>) -> int
        decreases s.len(),
    {
        if s.len() == 0 {
            0
        } else {
            self.pine_count(s.drop_last()) + if crate::rules::is_pine(self.hex_at(s.last()).tree) {
                1int
            } else {
                0int
            }
        }
    }

    /// How many of the hexes `s` bear a palm.
    pub open spec fn palm_count(&self, s: Seq<(i32, i32)>) -> int
        decreases s.len(),
    {
        if s.len() == 0 {
            0
        } else {
            self.palm_count(s.drop_last()) + if crate::rules::is_palm(self.hex_at(s.last()).tree) {
                1int
            } else {
                0int
            }
        }
    }

    /// A tree of kind `t` may sprout at `q` on this board: a pine beside at
    /// least two pines, a palm on the coast beside a palm.
    pub open spec fn sprout_ok(&self, q: (i32, i32), t: Option<Tree>) -> bool {
        let nb = crate::hexgrid::nbrs(self.cols as int, self.rows as int, q.0, q.1);
        ||| t == Some(Tree::Pine) && self.pine_count(nb) >= 2
        ||| t == Some(Tree::Palm) && self.palm_count(nb) >= 1 && exists|n: (i32, i32)|
            #[trigger] self.adj(q, n) && self.hex_at(n).water
    }

    /// What stays true of a tree that sprouted at `q`, as later sprouting
    /// and graves turning into pines keep it: a pine stands beside at least
    /// two pines, a palm on the coast.
    pub open spec fn sprout_kept(&self, q: (i32, i32), t: Option<Tree>) -> bool {
        let nb = crate::hexgrid::nbrs(self.cols as int, self.rows as int, q.0, q.1);
        ||| t == Some(Tree::Pine) && self.pine_count(nb) >= 2
        ||| t == Some(Tree::Palm) && exists|n: (i32, i32)| #[trigger] self.adj(q, n) && self.hex_at(n).water
    }

    /// Every tree of `cur` on a hex that was empty in `pre` stands as
    /// `sprout_kept` asks.
    pub open spec fn sprouts_kept(pre: &Game, cur: &Game) -> bool {
        forall|q: (i32, i32)|
            #![trigger cur.hex_at(q)]
            pre.inside(q) && may_sprout(pre.hex_at(q)) && cur.hex_at(q).tree is Some ==> cur.sprout_kept(
                q,
                cur.hex_at(q).tree,
            )
    }

    /// Where pines stay pines (on-board hexes), pines of listed on-board
    /// hexes only grow in number.
    proof fn lemma_pines_grow(a: &Game, b: &Game, s: Seq<(i32, i32)>)
        requires
            a.cols == b.cols,
            a.rows == b.rows,
            forall|q: (i32, i32)|
                #![trigger b.hex_at(q)]
                a.inside(q) ==> (crate::rules::is_pine(a.hex_at(q).tree) ==> crate::rules::is_pine(b.hex_at(q).tree)),
            forall|k: int| 0 <= k < s.len() ==> a.inside(#[trigger] s[k]),
        ensures
            a.pine_count(s) <= b.pine_count(s),
        decreases s.len(),
    {
        if s.len() > 0 {
            Game::lemma_pines_grow(a, b, s.drop_last());
            assert(a.inside(s[s.len() - 1]));
            assert(b.hex_at(s.last()) == b.hex_at(s.last()));
        }
    }

    /// Where pines stay pines and water stays, a kept sprout stays kept.
    proof fn lemma_kept_grows(a: &Game, b: &Game, q: (i32, i32), t: Option<Tree>)
        requires
            a.cols == b.cols,
            a.rows == b.rows,
            forall|p: (i32, i32)|
                #![trigger b.hex_at(p)]
                a.inside(p) ==> (crate::rules::is_pine(a.hex_at(p).tree) ==> crate::rules::is_pine(b.hex_at(p).tree))
                    && b.hex_at(p).water == a.hex_at(p).water,
            a.sprout_kept(q, t),
        ensures
            b.sprout_kept(q, t),
    {
        let nb = crate::hexgrid::nbrs(a.cols as int, a.rows as int, q.0, q.1);
        crate::hexgrid::lemma_nbrs(a.cols as int, a.rows as int, q.0, q.1);
        assert forall|k: int| 0 <= k < nb.len() implies a.inside(#[trigger] nb[k]) by {
            assert(nb.contains(nb[k]));
        }
        Game::lemma_pines_grow(a, b, nb);
        if t == Some(Tree::Palm) {
            let n = choose|n: (i32, i32)| #[trigger] a.adj(q, n) && a.hex_at(n).water;
            assert(b.hex_at(n).water == a.hex_at(n).water);
            assert(b.adj(q, n));
        }
    }

    /// Where trees only grow from `a` to `b`, the trees of listed on-board
    /// hexes only grow in number.
    proof fn lemma_counts_grow(a: &Game, b: &Game, s: Seq<(i32, i32)>)
        requires
            a.cols == b.cols,
            a.rows == b.rows,
            a.dims_ok(),
            b.grid@.len() == a.grid@.len(),
            forall|i: int| 0 <= i < a.grid@.len() ==> (crate::rules::is_pine(#[trigger] a.grid@[i].tree)
                ==> crate::rules::is_pine(b.grid@[i].tree)) && (crate::rules::is_palm(a.grid@[i].tree)
                ==> crate::rules::is_palm(b.grid@[i].tree)),
            forall|k: int| 0 <= k < s.len() ==> a.inside(#[trigger] s[k]),
        ensures
            a.pine_count(s) <= b.pine_count(s),
            a.palm_count(s) <= b.palm_count(s),
        decreases s.len(),
    {
        if s.len() > 0 {
            Game::lemma_counts_grow(a, b, s.drop_last());
            assert(a.inside(s[s.len() - 1]));
            lemma_ix_bounds(a.cols as int, a.rows as int, s.last());
        }
    }

    /// Where trees only grow and water stays, what may sprout still may.
    proof fn lemma_sprout_ok_grows(a: &Game, b: &Game, q: (i32, i32), t: Option<Tree>)
        requires
            a.cols == b.cols,
            a.rows == b.rows,
            a.dims_ok(),
            b.grid@.len() == a.grid@.len(),
            forall|i: int| 0 <= i < a.grid@.len() ==> (crate::rules::is_pine(#[trigger] a.grid@[i].tree)
                ==> crate::rules::is_pine(b.grid@[i].tree)) && (crate::rules::is_palm(a.grid@[i].tree)
                ==> crate::rules::is_palm(b.grid@[i].tree)) && b.grid@[i].water == a.grid@[i].water,
            a.sprout_ok(q, t),
        ensures
            b.sprout_ok(q, t),
    {
        let nb = crate::hexgrid::nbrs(a.cols as int, a.rows as int, q.0, q.1);
        crate::hexgrid::lemma_nbrs(a.cols as int, a.rows as int, q.0, q.1);
        Game::lemma_counts_grow(a, b, nb);
        if t == Some(Tree::Palm) {
            let n = choose|n: (i32, i32)| #[trigger] a.adj(q, n) && a.hex_at(n).water;
            lemma_ix_bounds(a.cols as int, a.rows as int, n);
            let i = ix(a.cols as int, n);
            assert(crate::rules::is_pine(a.grid@[i].tree) ==> crate::rules::is_pine(b.grid@[i].tree));
            assert(b.adj(q, n) && b.hex_at(n).water);
        }
    }

    /// Around `(x, y)`: how many neighbours bear a pine, how many a palm,
    /// and whether any is water.
    fn surroundings(&self, x: i32, y: i32) -> (r: (usize, usize, bool))
        requires
            self.wf(),
            self.inside((x, y)),
        ensures
            r.0 == self.pine_count(crate::hexgrid::nbrs(self.cols as int, self.rows as int, x, y)),
            r.1 == self.palm_count(crate::hexgrid::nbrs(self.cols as int, self.rows as int, x, y)),
            r.2 == exists|q: (i32, i32)| #[trigger] self.adj((x, y), q) && self.hex_at(q).water,
    {
        proof {
            crate::hexgrid::lemma_nbrs(self.cols as int, self.rows as int, x, y);
        }
        let nb = self.neighbours(x, y);
        let mut pines: usize = 0;
        let mut palms: usize = 0;
        let mut coast = false;
        let mut j: usize = 0;
        while j < nb.len()
            invariant
                self.wf(),
                nb@ == crate::hexgrid::nbrs(self.cols as int, self.rows as int, x, y),
                forall|q: (i32, i32)| nb@.contains(q) <==> self.adj((x, y), q),
                nb@.len() <= 6,
                forall|jj: int| 0 <= jj < nb@.len() ==> self.inside(#[trigger] nb@[jj]),
                j <= nb@.len(),
                pines <= j,
                palms <= j,
                pines == self.pine_count(nb@.take(j as int)),
                palms == self.palm_count(nb@.take(j as int)),
                coast == exists|jj: int| 0 <= jj < j && self.hex_at(#[trigger] nb@[jj]).water,
            decreases nb@.len() - j,
        {
            let q = nb[j];
            proof {
                assert(nb@.take(j + 1).drop_last() =~= nb@.take(j as int));
                assert(nb@.take(j + 1).last() == q);
                assert(self.inside(nb@[j as int]));
            }
            let h = self.grid[cell(self.cols, self.rows, q)];
            if crate::rules::pine_here(h.tree) {
                pines += 1;
            }
            if crate::rules::palm_here(h.tree) {
                palms += 1;
            }
            if h.water {
                coast = true;
            }
            j += 1;
        }
        proof {
            assert(nb@.take(nb@.len() as int) =~= nb@);
            if coast {
                let jj = choose|jj: int| 0 <= jj < nb@.len() && self.hex_at(#[trigger] nb@[jj]).water;
                assert(nb@.contains(nb@[jj]));
            }
            if exists|q: (i32, i32)| #[trigger] self.adj((x, y), q) && self.hex_at(q).water {
                let q = choose|q: (i32, i32)| #[trigger] self.adj((x, y), q) && self.hex_at(q).water;
                assert(nb@.contains(q));
                let jj = choose|jj: int| 0 <= jj < nb@.len() && nb@[jj] == q;
            }
        }
        (pines, palms, coast)
    }

    /// The tree `t` on hex `q` after the sprouting pass follows the rule
    /// for the counts and draws `d` the hex met: `d.0` pine and `d.1` palm
    /// neighbours (at least as many as on the board `pre` before the pass),
    /// pine draw `d.2`, palm draw `d.3`. A pine grows beside two pines when
    /// its draw falls in the lower half; failing that, a palm on the coast
    /// beside a palm when its draw does; else nothing.
    pub open spec fn sprout_drawn(pre: &Game, t: Option<Tree>, q: (i32, i32), d: (int, int, u64, u64)) -> bool {
        let nb = crate::hexgrid::nbrs(pre.cols as int, pre.rows as int, q.0, q.1);
        let coast = exists|n: (i32, i32)| #[trigger] pre.adj(q, n) && pre.hex_at(n).water;
        let pine = d.0 >= 2 && crate::rng::draw_below(d.2, 1, 2);
        let palm = coast && d.1 >= 1 && crate::rng::draw_below(d.3, 1, 2);
        &&& pre.pine_count(nb) <= d.0
        &&& pre.palm_count(nb) <= d.1
        &&& pine ==> t == Some(Tree::Pine)
        &&& !pine && palm ==> t == Some(Tree::Palm)
        &&& !pine && !palm ==> t is None
    }

    /// One pass over the hexes of territory `ti`: on an empty hex other than
    /// the house a pine may sprout beside two pines, or else a palm on the
    /// coast beside a palm, each with even odds.
    fn sprout_trees(&mut self, ti: usize) -> (draws: Ghost<Map<(i32, i32), (int, int, u64, u64)>>)
        requires
            old(self).wf(),
            ti < old(self).terrs@.len(),
        ensures
            final(self).wf(),
            final(self).terrs@ == old(self).terrs@,
            final(self).log@ == old(self).log@,
            final(self).payday_frame(old(self)),
            forall|q: (i32, i32)|
                #![trigger final(self).hex_at(q)]
                old(self).inside(q) ==> if old(self).terrs@[ti as int].hexes@.contains(q) {
                    let h0 = old(self).hex_at(q);
                    let h1 = final(self).hex_at(q);
                    &&& h1 == Hex { tree: h1.tree, ..h0 }
                    &&& (h1.tree == h0.tree || (may_sprout(h0) && old(self).terrs@[ti as int].capital
                        != Some(q) && h1.tree is Some))
                } else {
                    final(self).hex_at(q) == old(self).hex_at(q)
                },
            forall|q: (i32, i32)|
                #![trigger final(self).hex_at(q)]
                old(self).inside(q) && final(self).hex_at(q).tree != old(self).hex_at(q).tree ==> final(self).sprout_ok(
                    q,
                    final(self).hex_at(q).tree,
                ),
            forall|q: (i32, i32)|
                #![trigger final(self).hex_at(q)]
                old(self).inside(q) && old(self).terrs@[ti as int].hexes@.contains(q) && may_sprout(
                    old(self).hex_at(q),
                ) && old(self).terrs@[ti as int].capital != Some(q) ==> draws@.dom().contains(q)
                    && Game::sprout_drawn(old(self), final(self).hex_at(q).tree, q, draws@[q]),
    {
        proof {
            self.lemma_wf_sizes();
            assert(self.terr_on_board(ti as int));
        }
        let ghost pre = *self;
        let ghost mut dr: Map<(i32, i32), (int, int, u64, u64)> = Map::empty();
        let ghost hs = self.terrs@[ti as int].hexes@;
        let ghost c = self.cols as int;
        let ghost r = self.rows as int;
        let ghost cap = self.terrs@[ti as int].capital;
        let n = self.terrs[ti].hexes.len();
        let mut k: usize = 0;
        while k < n
            invariant
                pre.wf(),
                pre.terr_on_board(ti as int),
                c == pre.cols,
                r == pre.rows,
                hs == pre.terrs@[ti as int].hexes@,
                cap == pre.terrs@[ti as int].capital,
                crate::game::sorted_hexes(hs),
                n == hs.len(),
                k <= n,
                self.terrs@ == pre.terrs@,
                self.log@ == pre.log@,
                self.payday_frame(&pre),
                self.grid@.len() == pre.grid@.len(),
                forall|i: int| 0 <= i < self.grid@.len() ==> (#[trigger] self.grid@[i]).water == pre.grid@[i].water
                    && self.grid@[i].owner == pre.grid@[i].owner && self.grid@[i].unit == pre.grid@[i].unit,
                forall|q: (i32, i32)|
                    #![trigger self.hex_at(q)]
                    pre.inside(q) ==> if hs.subrange(0, k as int).contains(q) {
                        let h0 = pre.hex_at(q);
                        let h1 = self.hex_at(q);
                        &&& h1 == Hex { tree: h1.tree, ..h0 }
                        &&& (h1.tree == h0.tree || (may_sprout(h0) && cap != Some(q) && h1.tree is Some))
                    } else {
                        self.hex_at(q) == pre.hex_at(q)
                    },
                forall|q: (i32, i32)|
                    #![trigger self.hex_at(q)]
                    pre.inside(q) && self.hex_at(q).tree != pre.hex_at(q).tree ==> self.sprout_ok(q, self.hex_at(q).tree),
                forall|j: int|
                    0 <= j < self.grid@.len() ==> (crate::rules::is_pine(#[trigger] pre.grid@[j].tree)
                        ==> crate::rules::is_pine(self.grid@[j].tree)) && (crate::rules::is_palm(pre.grid@[j].tree)
                        ==> crate::rules::is_palm(self.grid@[j].tree)),
                forall|q: (i32, i32)|
                    #![trigger self.hex_at(q)]
                    pre.inside(q) && hs.subrange(0, k as int).contains(q) && may_sprout(pre.hex_at(q)) && cap != Some(q)
                        ==> dr.dom().contains(q) && Game::sprout_drawn(&pre, self.hex_at(q).tree, q, dr[q]),
            decreases n - k,
        {
            proof {
                self.lemma_same_land(&pre);
                assert(pre.inside(hs[k as int]));
                lemma_sorted_distinct(hs, k as int);
            }
            let q = self.terrs[ti].hexes[k];
            let i = cell(self.cols, self.rows, q);
            let h = self.grid[i];
            let is_cap = match self.terrs[ti].capital {
                Some(cc) => cc.0 == q.0 && cc.1 == q.1,
                None => false,
            };
            let ghost before = *self;
            let ghost dr0 = dr;
            if !(h.tree.is_some() || h.unit != 0 || h.castle || h.grave) && !is_cap {
                let (pines, palms, coast) = self.surroundings(q.0, q.1);
                let r1 = if pines >= 2 {
                    self.roll()
                } else {
                    0
                };
                let r2 = if !(pines >= 2 && crate::rng::chance_below(r1, 1, 2)) && coast && palms >= 1 {
                    self.roll()
                } else {
                    0
                };
                let grown = sprout_choice(pines, palms, coast, r1, r2);
                let ghost mid = *self;
                proof {
                    if grown is Some {
                        assert(before.sprout_ok(q, grown));
                    }
                    let nbq = crate::hexgrid::nbrs(c, r, q.0, q.1);
                    crate::hexgrid::lemma_nbrs(c, r, q.0, q.1);
                    Game::lemma_counts_grow(&pre, &before, nbq);
                    let pre_coast = exists|m: (i32, i32)| #[trigger] pre.adj(q, m) && pre.hex_at(m).water;
                    if coast {
                        let m = choose|m: (i32, i32)| #[trigger] before.adj(q, m) && before.hex_at(m).water;
                        lemma_ix_bounds(c, r, m);
                        assert(pre.adj(q, m) && pre.hex_at(m).water);
                    }
                    if pre_coast {
                        let m = choose|m: (i32, i32)| #[trigger] pre.adj(q, m) && pre.hex_at(m).water;
                        lemma_ix_bounds(c, r, m);
                        assert(before.adj(q, m) && before.hex_at(m).water);
                    }
                    assert(coast == pre_coast);
                    dr = dr.insert(q, (pines as int, palms as int, r1, r2));
                }
                match grown {
                    Some(tr) => {
                        let mut h2 = h;
                        h2.tree = Some(tr);
                        self.grid.set(i, h2);
                    },
                    None => {},
                }
                proof {
                    assert(self.hex_at(q).tree == grown);
                    assert(Game::sprout_drawn(&pre, self.hex_at(q).tree, q, dr[q]));
                    assert forall|j: int| 0 <= j < before.grid@.len() implies (crate::rules::is_pine(
                        #[trigger] before.grid@[j].tree,
                    ) ==> crate::rules::is_pine(self.grid@[j].tree)) && (crate::rules::is_palm(before.grid@[j].tree)
                        ==> crate::rules::is_palm(self.grid@[j].tree)) && self.grid@[j].water == before.grid@[j].water by {
                        if j != i as int {
                            assert(self.grid@[j] == before.grid@[j]);
                        }
                    }
                    assert forall|x: (i32, i32)|
                        #![trigger self.hex_at(x)]
                        pre.inside(x) && self.hex_at(x).tree != pre.hex_at(x).tree implies self.sprout_ok(x, self.hex_at(x).tree) by {
                        lemma_ix_bounds(c, r, x);
                        if x == q {
                            Game::lemma_sprout_ok_grows(&before, self, x, grown);
                        } else {
                            if ix(c, x) == ix(c, q) {
                                crate::hexgrid::lemma_ix_inj(c, r, x, q);
                            }
                            assert(self.hex_at(x) == before.hex_at(x));
                            Game::lemma_sprout_ok_grows(&before, self, x, before.hex_at(x).tree);
                        }
                    }
                }
            }
            proof {
                assert forall|x: (i32, i32)|
                    #![trigger self.hex_at(x)]
                    pre.inside(x) implies if hs.subrange(0, k + 1).contains(x) {
                        let h0 = pre.hex_at(x);
                        let h1 = self.hex_at(x);
                        &&& h1 == Hex { tree: h1.tree, ..h0 }
                        &&& (h1.tree == h0.tree || (may_sprout(h0) && cap != Some(x) && h1.tree is Some))
                    } else {
                        self.hex_at(x) == pre.hex_at(x)
                    } by {
                    lemma_ix_bounds(c, r, x);
                    if x != q {
                        if ix(c, x) == ix(c, q) {
                            crate::hexgrid::lemma_ix_inj(c, r, x, q);
                        }
                        assert(self.hex_at(x) == before.hex_at(x));
                    } else {
                        assert(before.hex_at(x) == pre.hex_at(x));
                    }
                }
                assert forall|j: int| 0 <= j < self.grid@.len() implies (#[trigger] self.grid@[j]).water == pre.grid@[j].water
                    && self.grid@[j].owner == pre.grid@[j].owner && self.grid@[j].unit == pre.grid@[j].unit by {
                    assert(before.grid@[j].water == pre.grid@[j].water);
                }
                assert(before.hex_at(q) == pre.hex_at(q));
                assert forall|j: int| 0 <= j < self.grid@.len() implies (crate::rules::is_pine(
                    #[trigger] pre.grid@[j].tree,
                ) ==> crate::rules::is_pine(self.grid@[j].tree)) && (crate::rules::is_palm(pre.grid@[j].tree)
                    ==> crate::rules::is_palm(self.grid@[j].tree)) by {
                    if j != i as int {
                        assert(self.grid@[j] == before.grid@[j]);
                    }
                }
                assert forall|x: (i32, i32)|
                    #![trigger self.hex_at(x)]
                    pre.inside(x) && hs.subrange(0, k + 1).contains(x) && may_sprout(pre.hex_at(x)) && cap != Some(x)
                        implies dr.dom().contains(x) && Game::sprout_drawn(&pre, self.hex_at(x).tree, x, dr[x]) by {
                    lemma_ix_bounds(c, r, x);
                    if x != q {
                        if ix(c, x) == ix(c, q) {
                            crate::hexgrid::lemma_ix_inj(c, r, x, q);
                        }
                        assert(self.hex_at(x) == before.hex_at(x));
                        assert(hs.subrange(0, k as int).contains(x));
                        assert(dr0.dom().contains(x));
                        assert(dr[x] == dr0[x]);
                    }
                }
            }
            k += 1;
        }
        proof {
            assert(hs.subrange(0, n as int) =~= hs);
            assert forall|i: int| 0 <= i < self.grid@.len() implies (#[trigger] self.grid@[i]).water == pre.grid@[i].water
                && self.grid@[i].owner == pre.grid@[i].owner && self.grid@[i].unit <= 4 by {
                assert(hex_ok(pre.grid@[i]));
            }
            self.lemma_same_land(&pre);
        }
        Ghost(dr)
    }

    /// One pass over the hexes of territory `ti`: every man starves, leaving
    /// a grave.
    fn starve_men(&mut self, ti: usize)
        requires
            old(self).wf(),
            ti < old(self).terrs@.len(),
        ensures
            final(self).wf(),
            final(self).terrs@ == old(self).terrs@,
            final(self).log@ == old(self).log@,
            final(self).rng == old(self).rng,
            final(self).payday_frame(old(self)),
            forall|q: (i32, i32)|
                #![trigger final(self).hex_at(q)]
                old(self).inside(q) ==> final(self).hex_at(q) == if old(self).terrs@[ti as int].hexes@.contains(q)
                    && old(self).hex_at(q).unit != 0 {
                    Hex { unit: 0, acted: false, grave: true, ..old(self).hex_at(q) }
                } else {
                    old(self).hex_at(q)
                },
    {
        proof {
            self.lemma_wf_sizes();
            assert(self.terr_on_board(ti as int));
        }
        let ghost pre = *self;
        let ghost hs = self.terrs@[ti as int].hexes@;
        let ghost c = self.cols as int;
        let ghost r = self.rows as int;
        let n = self.terrs[ti].hexes.len();
        let mut k: usize = 0;
        while k < n
            invariant
                pre.wf(),
                pre.terr_on_board(ti as int),
                c == pre.cols,
                r == pre.rows,
                hs == pre.terrs@[ti as int].hexes@,
                crate::game::sorted_hexes(hs),
                n == hs.len(),
                k <= n,
                self.terrs@ == pre.terrs@,
                self.log@ == pre.log@,
                self.rng == pre.rng,
                self.payday_frame(&pre),
                self.grid@.len() == pre.grid@.len(),
                forall|q: (i32, i32)|
                    #![trigger self.hex_at(q)]
                    pre.inside(q) ==> self.hex_at(q) == if hs.subrange(0, k as int).contains(q)
                        && pre.hex_at(q).unit != 0 {
                        Hex { unit: 0, acted: false, grave: true, ..pre.hex_at(q) }
                    } else {
                        pre.hex_at(q)
                    },
            decreases n - k,
        {
            let q = self.terrs[ti].hexes[k];
            proof {
                assert(pre.inside(hs[k as int]));
                lemma_sorted_distinct(hs, k as int);
            }
            let i = cell(self.cols, self.rows, q);
            let ghost before = *self;
            let mut h = self.grid[i];
            if h.unit != 0 {
                h.unit = 0;
                h.acted = false;
                h.grave = true;
                self.grid.set(i, h);
            }
            proof {
                assert forall|x: (i32, i32)|
                    #![trigger self.hex_at(x)]
                    pre.inside(x) implies self.hex_at(x) == if hs.subrange(0, k + 1).contains(x)
                        && pre.hex_at(x).unit != 0 {
                        Hex { unit: 0, acted: false, grave: true, ..pre.hex_at(x) }
                    } else {
                        pre.hex_at(x)
                    } by {
                    lemma_ix_bounds(c, r, x);
                    if x != q {
                        if ix(c, x) == ix(c, q) {
                            crate::hexgrid::lemma_ix_inj(c, r, x, q);
                        }
                        assert(self.hex_at(x) == before.hex_at(x));
                    }
                }
            }
            k += 1;
        }
        proof {
            assert(hs.subrange(0, n as int) =~= hs);
            assert forall|i: int| 0 <= i < self.grid@.len() implies (#[trigger] self.grid@[i]).water == pre.grid@[i].water
                && self.grid@[i].owner == pre.grid@[i].owner && self.grid@[i].unit <= 4 by {
                crate::hexgrid::lemma_point_of(c, r, i);
                let x = crate::hexgrid::point_of(c, i);
                assert(self.hex_at(x) == self.grid@[i]);
                assert(hex_ok(pre.grid@[i]));
            }
            self.lemma_same_land(&pre);
        }
    }
}


impl Game {
    /// Territory `i` of `pre` starves on payday when its treasury plus the
    /// income of its clear hexes on board `cur` cannot pay its men.
    pub open spec fn starves(pre: &Game, cur: &Game, i: int) -> bool {
        pre.terrs@[i].savings + crate::game::clear_count(cur, pre.terrs@[i].hexes@)
            < crate::game::wage_sum(pre, pre.terrs@[i].hexes@)
    }

    /// The treasury of territory `i` of `pre` after payday on board `cur`.
    pub open spec fn paid_savings(pre: &Game, cur: &Game, i: int) -> int {
        if Game::starves(pre, cur, i) {
            0
        } else {
            pre.terrs@[i].savings + crate::game::clear_count(cur, pre.terrs@[i].hexes@)
                - crate::game::wage_sum(pre, pre.terrs@[i].hexes@)
        }
    }

    /// Number of territories of seat `p` among the first `k` that starve.
    pub open spec fn starved_count(pre: &Game, cur: &Game, p: i8, k: int) -> nat
        decreases k,
    {
        if k <= 0 {
            0
        } else {
            Game::starved_count(pre, cur, p, k - 1) + if pre.terrs@[k - 1].owner == p && Game::starves(
                pre,
                cur,
                k - 1,
            ) {
                1nat
            } else {
                0nat
            }
        }
    }

    /// What the payday of territory `ti` of seat `p` did, from `b` to `a`.
    #[verifier::opaque]
    pub open spec fn pay_effect(b: &Game, a: &Game, ti: int, p: i8, starved: bool) -> bool {
        &&& a.wf()
        &&& a.payday_frame(b)
        &&& starved == Game::starves(b, a, ti)
        &&& a.terrs@[ti].savings == Game::paid_savings(b, a, ti)
        &&& forall|j: int| 0 <= j < b.terrs@.len() && j != ti ==> #[trigger] a.terrs@[j] == b.terrs@[j]
        &&& total_gold(a.terrs@) <= total_gold(b.terrs@) + b.terrs@[ti].hexes@.len()
        &&& forall|q: (i32, i32)|
            #![trigger a.hex_at(q)]
            b.inside(q) ==> if b.terrs@[ti].hexes@.contains(q) {
                paid_hex(b.hex_at(q), a.hex_at(q), b.terrs@[ti].capital == Some(q), starved)
            } else {
                a.hex_at(q) == b.hex_at(q)
            }
        &&& log_view(a.log@) == if starved && p == 0 {
            say_spec(log_view(b.log@), bankrupt_msg())
        } else {
            log_view(b.log@)
        }
    }

    /// Pays territory `ti` its income and its wages; when it cannot pay,
    /// its treasury empties. Returns whether it could not.
    fn settle(&mut self, ti: usize, income: i64, wages: i64) -> (starved: bool)
        requires
            old(self).wf(),
            ti < old(self).terrs@.len(),
            0 <= income,
            0 <= wages,
            total_gold(old(self).terrs@) + income <= GOLD_CAP,
        ensures
            final(self).wf(),
            final(self).payday_frame(old(self)),
            final(self).grid@ == old(self).grid@,
            final(self).log@ == old(self).log@,
            final(self).rng == old(self).rng,
            starved == (old(self).terrs@[ti as int].savings + income < wages),
            final(self).terrs@[ti as int].savings == if starved {
                0
            } else {
                old(self).terrs@[ti as int].savings + income - wages
            },
            forall|j: int| 0 <= j < old(self).terrs@.len() && j != ti ==> #[trigger] final(self).terrs@[j] == old(self).terrs@[j],
            total_gold(final(self).terrs@) <= total_gold(old(self).terrs@) + income,
    {
        let ghost s2 = *self;
        proof {
            lemma_savings_le_total(self.terrs@, ti as int);
        }
        let mut t = self.terrs.remove(ti);
        t.savings = t.savings + income;
        let starved = !(t.savings >= wages);
        if !starved {
            t.savings = t.savings - wages;
        } else {
            t.savings = 0;
        }
        self.terrs.insert(ti, t);
        proof {
            let s3 = *self;
            assert(s3.terrs@ =~= s2.terrs@.update(ti as int, s3.terrs@[ti as int]));
            lemma_total_gold_update(s2.terrs@, ti as int, s3.terrs@[ti as int]);
            assert forall|k: int| 0 <= k < s3.terrs@.len() implies terr_shape(
                s3.cols as int,
                s3.rows as int,
                s3.players@.len() as int,
                #[trigger] s3.terrs@[k],
            ) by {
                assert(terr_shape(s2.cols as int, s2.rows as int, s2.players@.len() as int, s2.terrs@[k]));
            }
            assert forall|k: int| 0 <= k < s3.grid@.len() implies (#[trigger] s3.grid@[k]).water == s2.grid@[k].water
                && s3.grid@[k].owner == s2.grid@[k].owner && s3.grid@[k].unit <= 4 by {
                assert(hex_ok(s2.grid@[k]));
            }
            s3.lemma_same_land(&s2);
        }
        starved
    }

    /// Payday of territory `ti` of seat `p`: graves clear, trees may sprout,
    /// the treasury earns one gold per clear hex and pays its men, and if it
    /// cannot, every man starves and the treasury empties.
    #[verifier::rlimit(100)]
    fn pay_territory(&mut self, ti: usize, p: i8) -> (starved: bool)
        requires
            old(self).wf(),
            ti < old(self).terrs@.len(),
            old(self).terrs@[ti as int].owner == p,
            total_gold(old(self).terrs@) + old(self).terrs@[ti as int].hexes@.len() <= GOLD_CAP,
        ensures
            Game::pay_effect(old(self), final(self), ti as int, p, starved),
            forall|q: (i32, i32)|
                #![trigger final(self).hex_at(q)]
                old(self).terrs@[ti as int].hexes@.contains(q) && may_sprout(old(self).hex_at(q))
                    && final(self).hex_at(q).tree is Some ==> final(self).sprout_kept(q, final(self).hex_at(q).tree),
    {
        let ghost s0 = *self;
        let ghost hs = self.terrs@[ti as int].hexes@;
        proof {
            self.lemma_wf_sizes();
            assert(s0.terr_on_board(ti as int));
        }
        self.clear_graves(ti);
        let ghost s1 = *self;
        self.sprout_trees(ti);
        let ghost s2 = *self;
        proof {
            self.lemma_wf_sizes();
        }
        let income = self.terr_income(ti);
        let wages = self.terr_wages(ti);
        proof {
            lemma_units_kept(&s0, &s1, &s2, ti as int);
            lemma_wage_sum_same(&s2, &s0, hs);
            crate::game::lemma_income_bounds(&s2, hs);
        }
        let starved = self.settle(ti, income, wages);
        let ghost s3 = *self;
        let ghost mut s35 = *self;
        if starved {
            self.starve_men(ti);
            proof {
                s35 = *self;
            }
            if p == 0 {
                self.say("Bankrupt! A territory starved.");
                proof {
                    self.lemma_wf_off_board(&s35);
                }
            }
        }
        proof {
            let s4 = *self;
            lemma_payday_hexes(&s0, &s1, &s2, &s3, &s35, ti as int, starved);
            assert(s4.grid@ == s35.grid@);
            assert forall|q: (i32, i32)| #[trigger] s0.terrs@[ti as int].hexes@.contains(q) implies s4.hex_at(q).tree
                == s2.hex_at(q).tree by {
                assert(s35.hex_at(q).tree == s2.hex_at(q).tree);
            }
            lemma_pay_sprouts(&s0, &s1, &s2, &s4, ti as int, starved);
            lemma_clear_count_same(&s4, &s2, hs);
            reveal_strlit("Bankrupt! A territory starved.");
            reveal(Game::pay_effect);
        }
        starved
    }
}

pub proof fn lemma_savings_le_total(ts: Seq<Terr>, i: int)
    requires
        0 <= i < ts.len(),
        forall|k: int| 0 <= k < ts.len() ==> (#[trigger] ts[k]).savings >= 0,
    ensures
        ts[i].savings <= total_gold(ts),
        total_gold(ts) >= 0,
    decreases ts.len(),
{
    let d = ts.drop_last();
    assert forall|k: int| 0 <= k < d.len() implies (#[trigger] d[k]).savings >= 0 by {
        assert(d[k] == ts[k]);
    }
    if i < ts.len() - 1 {
        lemma_savings_le_total(d, i);
        assert(d[i] == ts[i]);
    } else if ts.len() > 1 {
        lemma_savings_le_total(d, 0);
    }
}

proof fn lemma_units_kept(s0: &Game, s1: &Game, s2: &Game, ti: int)
    requires
        s0.wf(),
        s0.terr_on_board(ti),
        forall|q: (i32, i32)|
            #![trigger s1.hex_at(q)]
            s0.inside(q) ==> s1.hex_at(q) == if s0.terrs@[ti].hexes@.contains(q) {
                after_graves(s0.hex_at(q))
            } else {
                s0.hex_at(q)
            },
        forall|q: (i32, i32)|
            #![trigger s2.hex_at(q)]
            s1.inside(q) ==> if s1.terrs@[ti].hexes@.contains(q) {
                let h1 = s2.hex_at(q);
                h1 == Hex { tree: h1.tree, ..s1.hex_at(q) }
            } else {
                s2.hex_at(q) == s1.hex_at(q)
            },
        s1.terrs@ == s0.terrs@,
        s1.same_setup(s0),
    ensures
        forall|q: (i32, i32)| #[trigger] s0.terrs@[ti].hexes@.contains(q) ==> s2.hex_at(q).unit == s0.hex_at(q).unit,
{
    assert forall|q: (i32, i32)| #[trigger] s0.terrs@[ti].hexes@.contains(q) implies s2.hex_at(q).unit == s0.hex_at(q).unit by {
        let k = choose|k: int| 0 <= k < s0.terrs@[ti].hexes@.len() && s0.terrs@[ti].hexes@[k] == q;
        assert(s0.inside(s0.terrs@[ti].hexes@[k]));
        assert(s1.hex_at(q) == after_graves(s0.hex_at(q)));
        assert(s2.hex_at(q).unit == s1.hex_at(q).unit);
    }
}

proof fn lemma_payday_hexes(s0: &Game, s1: &Game, s2: &Game, s3: &Game, s4: &Game, ti: int, starved: bool)
    requires
        s0.wf(),
        s0.terr_on_board(ti),
        s1.terrs@ == s0.terrs@,
        s1.same_setup(s0),
        s2.terrs@ == s1.terrs@,
        s2.same_setup(s1),
        s3.grid@ == s2.grid@,
        s3.same_setup(s2),
        s3.terrs@.len() == s2.terrs@.len(),
        s3.terrs@[ti].hexes@ == s2.terrs@[ti].hexes@,
        forall|q: (i32, i32)|
            #![trigger s1.hex_at(q)]
            s0.inside(q) ==> s1.hex_at(q) == if s0.terrs@[ti].hexes@.contains(q) {
                after_graves(s0.hex_at(q))
            } else {
                s0.hex_at(q)
            },
        forall|q: (i32, i32)|
            #![trigger s2.hex_at(q)]
            s1.inside(q) ==> if s1.terrs@[ti].hexes@.contains(q) {
                let h1 = s1.hex_at(q);
                let h2 = s2.hex_at(q);
                &&& h2 == Hex { tree: h2.tree, ..h1 }
                &&& (h2.tree == h1.tree || (may_sprout(h1) && s1.terrs@[ti].capital != Some(q) && h2.tree is Some))
            } else {
                s2.hex_at(q) == s1.hex_at(q)
            },
        starved ==> forall|q: (i32, i32)|
            #![trigger s4.hex_at(q)]
            s3.inside(q) ==> s4.hex_at(q) == if s3.terrs@[ti].hexes@.contains(q) && s3.hex_at(q).unit != 0 {
                Hex { unit: 0, acted: false, grave: true, ..s3.hex_at(q) }
            } else {
                s3.hex_at(q)
            },
        !starved ==> s4.grid@ == s3.grid@,
        s4.same_setup(s3),
    ensures
        forall|q: (i32, i32)|
            #![trigger s4.hex_at(q)]
            s0.inside(q) ==> if s0.terrs@[ti].hexes@.contains(q) {
                paid_hex(s0.hex_at(q), s4.hex_at(q), s0.terrs@[ti].capital == Some(q), starved)
            } else {
                s4.hex_at(q) == s0.hex_at(q)
            },
        forall|q: (i32, i32)| #[trigger] s0.terrs@[ti].hexes@.contains(q) ==> s4.hex_at(q).tree == s2.hex_at(q).tree,
{
    assert forall|q: (i32, i32)|
        #![trigger s4.hex_at(q)]
        s0.inside(q) implies if s0.terrs@[ti].hexes@.contains(q) {
            paid_hex(s0.hex_at(q), s4.hex_at(q), s0.terrs@[ti].capital == Some(q), starved)
        } else {
            s4.hex_at(q) == s0.hex_at(q)
        } by {
        assert(s1.hex_at(q) == if s0.terrs@[ti].hexes@.contains(q) { after_graves(s0.hex_at(q)) } else { s0.hex_at(q) });
        assert(s3.hex_at(q) == s2.hex_at(q));
        if s0.terrs@[ti].hexes@.contains(q) {
            let h0 = s0.hex_at(q);
            let h1 = s1.hex_at(q);
            let h2 = s2.hex_at(q);
            assert(h2 == Hex { tree: h2.tree, ..h1 });
            assert(may_sprout(h1) == may_sprout(h0));
        }
    }
    assert forall|q: (i32, i32)| #[trigger] s0.terrs@[ti].hexes@.contains(q) implies s4.hex_at(q).tree == s2.hex_at(q).tree by {
        let k = choose|k: int| 0 <= k < s0.terrs@[ti].hexes@.len() && s0.terrs@[ti].hexes@[k] == q;
        assert(s0.inside(s0.terrs@[ti].hexes@[k]));
        assert(s3.hex_at(q) == s2.hex_at(q));
    }
}


/// A tree sprouted during the payday of territory `ti` still stands as
/// `sprout_kept` asks at the end of that payday.
proof fn lemma_pay_sprouts(s0: &Game, s1: &Game, s2: &Game, s4: &Game, ti: int, starved: bool)
    requires
        s0.wf(),
        s0.terr_on_board(ti),
        s1.terrs@ == s0.terrs@,
        s1.same_setup(s0),
        s2.same_setup(s1),
        s4.same_setup(s0),
        forall|q: (i32, i32)|
            #![trigger s1.hex_at(q)]
            s0.inside(q) ==> s1.hex_at(q) == if s0.terrs@[ti].hexes@.contains(q) {
                after_graves(s0.hex_at(q))
            } else {
                s0.hex_at(q)
            },
        forall|q: (i32, i32)|
            #![trigger s2.hex_at(q)]
            s1.inside(q) ==> if s1.terrs@[ti].hexes@.contains(q) {
                let h1 = s1.hex_at(q);
                let h2 = s2.hex_at(q);
                &&& h2 == Hex { tree: h2.tree, ..h1 }
            } else {
                s2.hex_at(q) == s1.hex_at(q)
            },
        forall|q: (i32, i32)|
            #![trigger s2.hex_at(q)]
            s1.inside(q) && s2.hex_at(q).tree != s1.hex_at(q).tree ==> s2.sprout_ok(q, s2.hex_at(q).tree),
        forall|q: (i32, i32)|
            #![trigger s4.hex_at(q)]
            s0.inside(q) ==> if s0.terrs@[ti].hexes@.contains(q) {
                paid_hex(s0.hex_at(q), s4.hex_at(q), s0.terrs@[ti].capital == Some(q), starved)
            } else {
                s4.hex_at(q) == s0.hex_at(q)
            },
        forall|q: (i32, i32)| #[trigger] s0.terrs@[ti].hexes@.contains(q) ==> s4.hex_at(q).tree == s2.hex_at(q).tree,
    ensures
        forall|q: (i32, i32)|
            #![trigger s4.hex_at(q)]
            s0.terrs@[ti].hexes@.contains(q) && may_sprout(s0.hex_at(q)) && s4.hex_at(q).tree is Some ==> s4.sprout_kept(
                q,
                s4.hex_at(q).tree,
            ),
{
    assert forall|p: (i32, i32)|
        #![trigger s4.hex_at(p)]
        s2.inside(p) implies (crate::rules::is_pine(s2.hex_at(p).tree) ==> crate::rules::is_pine(s4.hex_at(p).tree))
            && s4.hex_at(p).water == s2.hex_at(p).water by {
        assert(s1.hex_at(p) == s1.hex_at(p));
        assert(s2.hex_at(p) == s2.hex_at(p));
        if s0.terrs@[ti].hexes@.contains(p) {
            assert(s4.hex_at(p).tree == s2.hex_at(p).tree);
        }
    }
    assert forall|q: (i32, i32)|
        #![trigger s4.hex_at(q)]
        s0.terrs@[ti].hexes@.contains(q) && may_sprout(s0.hex_at(q)) && s4.hex_at(q).tree is Some implies s4.sprout_kept(
            q,
            s4.hex_at(q).tree,
        ) by {
        let k = choose|k: int| 0 <= k < s0.terrs@[ti].hexes@.len() && s0.terrs@[ti].hexes@[k] == q;
        assert(s0.inside(s0.terrs@[ti].hexes@[k]));
        assert(s1.hex_at(q) == after_graves(s0.hex_at(q)));
        assert(s2.hex_at(q).tree == s4.hex_at(q).tree);
        let t = s2.hex_at(q).tree;
        assert(s2.sprout_ok(q, t));
        assert(s2.sprout_kept(q, t));
        Game::lemma_kept_grows(s2, s4, q, t);
    }
}

/// The hexes of a territory not yet paid look as they did.
proof fn lemma_unpaid_same(pre: &Game, b: &Game, p: i8, i: int)
    requires
        pre.wf(),
        0 <= i < pre.terrs@.len(),
        Game::payday_progress(pre, b, p, i),
    ensures
        forall|q: (i32, i32)| #[trigger] pre.terrs@[i].hexes@.contains(q) ==> b.hex_at(q) == pre.hex_at(q),
{
    reveal(Game::payday_progress);
    reveal(Game::turn_hexes);
    assert forall|q: (i32, i32)| #[trigger] pre.terrs@[i].hexes@.contains(q) implies b.hex_at(q) == pre.hex_at(q) by {
        pre.lemma_terr_of(i, q);
        let k = choose|k: int| 0 <= k < pre.terrs@[i].hexes@.len() && pre.terrs@[i].hexes@[k] == q;
        pre.lemma_wf_sizes();
        assert(pre.terr_on_board(i));
        assert(pre.inside(pre.terrs@[i].hexes@[k]));
    }
}

/// A payday keeps pines and water, and hexes off the territory.
proof fn lemma_pay_monotone(b: &Game, a: &Game, i: int, p: i8, starved: bool)
    requires
        Game::pay_effect(b, a, i, p, starved),
    ensures
        a.cols == b.cols && a.rows == b.rows,
        forall|p2: (i32, i32)|
            #![trigger a.hex_at(p2)]
            b.inside(p2) ==> (crate::rules::is_pine(b.hex_at(p2).tree) ==> crate::rules::is_pine(a.hex_at(p2).tree))
                && a.hex_at(p2).water == b.hex_at(p2).water,
        forall|q: (i32, i32)|
            #![trigger a.hex_at(q)]
            b.inside(q) && !b.terrs@[i].hexes@.contains(q) ==> a.hex_at(q) == b.hex_at(q),
{
    reveal(Game::pay_effect);
    assert forall|p2: (i32, i32)|
        #![trigger a.hex_at(p2)]
        b.inside(p2) implies (crate::rules::is_pine(b.hex_at(p2).tree) ==> crate::rules::is_pine(a.hex_at(p2).tree))
            && a.hex_at(p2).water == b.hex_at(p2).water by {
        assert(a.hex_at(p2) == a.hex_at(p2));
    }
}

/// The sprouts kept from `pre` stay kept through the payday of territory
/// `i`.
proof fn lemma_sprouts_step(pre: &Game, b: &Game, a: &Game, i: int)
    requires
        a.cols == b.cols,
        a.rows == b.rows,
        b.cols == pre.cols,
        b.rows == pre.rows,
        0 <= i < pre.terrs@.len(),
        Game::sprouts_kept(pre, b),
        b.terrs@[i] == pre.terrs@[i],
        forall|q: (i32, i32)| #[trigger] pre.terrs@[i].hexes@.contains(q) ==> b.hex_at(q) == pre.hex_at(q),
        forall|p2: (i32, i32)|
            #![trigger a.hex_at(p2)]
            b.inside(p2) ==> (crate::rules::is_pine(b.hex_at(p2).tree) ==> crate::rules::is_pine(a.hex_at(p2).tree))
                && a.hex_at(p2).water == b.hex_at(p2).water,
        forall|q: (i32, i32)|
            #![trigger a.hex_at(q)]
            b.inside(q) && !b.terrs@[i].hexes@.contains(q) ==> a.hex_at(q) == b.hex_at(q),
        forall|q: (i32, i32)|
            #![trigger a.hex_at(q)]
            b.terrs@[i].hexes@.contains(q) && may_sprout(b.hex_at(q)) && a.hex_at(q).tree is Some ==> a.sprout_kept(
                q,
                a.hex_at(q).tree,
            ),
    ensures
        Game::sprouts_kept(pre, a),
{
    assert forall|q: (i32, i32)|
        #![trigger a.hex_at(q)]
        pre.inside(q) && may_sprout(pre.hex_at(q)) && a.hex_at(q).tree is Some implies a.sprout_kept(q, a.hex_at(q).tree) by {
        if b.terrs@[i].hexes@.contains(q) {
            assert(b.hex_at(q) == pre.hex_at(q));
        } else {
            assert(a.hex_at(q) == b.hex_at(q));
            assert(b.sprout_kept(q, b.hex_at(q).tree));
            Game::lemma_kept_grows(b, a, q, b.hex_at(q).tree);
        }
    }
}

impl Game {
    /// After payday for the territories of seat `p` among the first `i`:
    /// their hexes look as paid, all others as before.
    #[verifier::opaque]
    pub open spec fn turn_hexes(pre: &Game, cur: &Game, p: i8, i: int) -> bool {
        forall|q: (i32, i32)|
            #![trigger cur.hex_at(q)]
            pre.inside(q) ==> match pre.terr_of(q) {
                Some(j) => if pre.terrs@[j as int].owner == p && j < i {
                    paid_hex(
                        pre.hex_at(q),
                        cur.hex_at(q),
                        pre.terrs@[j as int].capital == Some(q),
                        Game::starves(pre, cur, j as int),
                    )
                } else {
                    cur.hex_at(q) == pre.hex_at(q)
                },
                None => cur.hex_at(q) == pre.hex_at(q),
            }
    }

    /// Sets every man of territory `ti` fresh for the new turn.
    fn refresh_men(&mut self, ti: usize)
        requires
            old(self).wf(),
            ti < old(self).terrs@.len(),
        ensures
            final(self).wf(),
            final(self).terrs@ == old(self).terrs@,
            final(self).log@ == old(self).log@,
            final(self).rng == old(self).rng,
            final(self).payday_frame(old(self)),
            forall|q: (i32, i32)|
                #![trigger final(self).hex_at(q)]
                old(self).inside(q) ==> final(self).hex_at(q) == if old(self).terrs@[ti as int].hexes@.contains(q) {
                    Hex { acted: false, ..old(self).hex_at(q) }
                } else {
                    old(self).hex_at(q)
                },
    {
        proof {
            self.lemma_wf_sizes();
            assert(self.terr_on_board(ti as int));
        }
        let ghost pre = *self;
        let ghost hs = self.terrs@[ti as int].hexes@;
        let ghost c = self.cols as int;
        let ghost r = self.rows as int;
        let n = self.terrs[ti].hexes.len();
        let mut k: usize = 0;
        while k < n
            invariant
                pre.wf(),
                pre.terr_on_board(ti as int),
                c == pre.cols,
                r == pre.rows,
                hs == pre.terrs@[ti as int].hexes@,
                crate::game::sorted_hexes(hs),
                n == hs.len(),
                k <= n,
                self.terrs@ == pre.terrs@,
                self.log@ == pre.log@,
                self.rng == pre.rng,
                self.payday_frame(&pre),
                self.grid@.len() == pre.grid@.len(),
                forall|q: (i32, i32)|
                    #![trigger self.hex_at(q)]
                    pre.inside(q) ==> self.hex_at(q) == if hs.subrange(0, k as int).contains(q) {
                        Hex { acted: false, ..pre.hex_at(q) }
                    } else {
                        pre.hex_at(q)
                    },
            decreases n - k,
        {
            let q = self.terrs[ti].hexes[k];
            proof {
                assert(pre.inside(hs[k as int]));
                lemma_sorted_distinct(hs, k as int);
            }
            let i = cell(self.cols, self.rows, q);
            let ghost before = *self;
            let mut h = self.grid[i];
            h.acted = false;
            self.grid.set(i, h);
            proof {
                assert forall|x: (i32, i32)|
                    #![trigger self.hex_at(x)]
                    pre.inside(x) implies self.hex_at(x) == if hs.subrange(0, k + 1).contains(x) {
                        Hex { acted: false, ..pre.hex_at(x) }
                    } else {
                        pre.hex_at(x)
                    } by {
                    lemma_ix_bounds(c, r, x);
                    if x != q {
                        if ix(c, x) == ix(c, q) {
                            crate::hexgrid::lemma_ix_inj(c, r, x, q);
                        }
                        assert(self.hex_at(x) == before.hex_at(x));
                    }
                }
            }
            k += 1;
        }
        proof {
            assert(hs.subrange(0, n as int) =~= hs);
            assert forall|i: int| 0 <= i < self.grid@.len() implies (#[trigger] self.grid@[i]).water == pre.grid@[i].water
                && self.grid@[i].owner == pre.grid@[i].owner && self.grid@[i].unit <= 4 by {
                crate::hexgrid::lemma_point_of(c, r, i);
                let x = crate::hexgrid::point_of(c, i);
                assert(self.hex_at(x) == self.grid@[i]);
                assert(hex_ok(pre.grid@[i]));
            }
            self.lemma_same_land(&pre);
        }
    }
}

proof fn lemma_starved_count_same(pre: &Game, a: &Game, b: &Game, p: i8, k: int)
    requires
        forall|j: int|
            0 <= j < k && pre.terrs@[j].owner == p ==> Game::starves(pre, a, j) == Game::starves(pre, b, j),
    ensures
        Game::starved_count(pre, a, p, k) == Game::starved_count(pre, b, p, k),
    decreases k,
{
    if k > 0 {
        lemma_starved_count_same(pre, a, b, p, k - 1);
    }
}

/// Hexes of territory `j` are untouched when only territory `i`'s change.
proof fn lemma_other_terr_kept(pre: &Game, b: &Game, a: &Game, i: int, j: int)
    requires
        pre.wf(),
        0 <= i < pre.terrs@.len(),
        0 <= j < pre.terrs@.len(),
        i != j,
        forall|q: (i32, i32)|
            #![trigger a.hex_at(q)]
            pre.inside(q) && !pre.terrs@[i].hexes@.contains(q) ==> a.hex_at(q) == b.hex_at(q),
    ensures
        forall|q: (i32, i32)| #[trigger] pre.terrs@[j].hexes@.contains(q) ==> a.hex_at(q) == b.hex_at(q),
        crate::game::clear_count(a, pre.terrs@[j].hexes@) == crate::game::clear_count(b, pre.terrs@[j].hexes@),
{
    pre.lemma_disjoint();
    pre.lemma_wf_sizes();
    assert(pre.terr_on_board(j));
    assert forall|q: (i32, i32)| #[trigger] pre.terrs@[j].hexes@.contains(q) implies a.hex_at(q) == b.hex_at(q) by {
        let k = choose|k: int| 0 <= k < pre.terrs@[j].hexes@.len() && pre.terrs@[j].hexes@[k] == q;
        assert(pre.inside(pre.terrs@[j].hexes@[k]));
    }
    lemma_clear_count_same(a, b, pre.terrs@[j].hexes@);
}


impl Game {
    /// Payday of seat `p` has run over the first `i` territories of `pre`,
    /// giving `cur`.
    #[verifier::opaque]
    pub open spec fn payday_progress(pre: &Game, cur: &Game, p: i8, i: int) -> bool {
        &&& cur.wf()
        &&& cur.payday_frame(pre)
        &&& forall|j: int|
            0 <= j < pre.terrs@.len() && (j >= i || pre.terrs@[j].owner != p) ==> #[trigger] cur.terrs@[j]
                == pre.terrs@[j]
        &&& forall|j: int|
            0 <= j < i && pre.terrs@[j].owner == p ==> (#[trigger] cur.terrs@[j]).savings
                == Game::paid_savings(pre, cur, j)
        &&& Game::turn_hexes(pre, cur, p, i)
        &&& total_gold(cur.terrs@) <= total_gold(pre.terrs@) + crate::game::owned_count(
            pre.terrs@.take(i),
            p,
        )
        &&& log_view(cur.log@) == if p == 0 {
            say_times(log_view(pre.log@), bankrupt_msg(), Game::starved_count(pre, cur, p, i))
        } else {
            log_view(pre.log@)
        }
    }
}

proof fn lemma_payday_start(pre: &Game, p: i8)
    requires
        pre.wf(),
    ensures
        Game::payday_progress(pre, pre, p, 0),
{
    reveal(Game::payday_progress);
    reveal(Game::turn_hexes);
    assert(pre.terrs@.take(0) =~= Seq::<Terr>::empty());
    assert forall|q: (i32, i32)|
        #![trigger pre.hex_at(q)]
        pre.inside(q) implies match pre.terr_of(q) {
            Some(j) => if pre.terrs@[j as int].owner == p && j < 0 {
                paid_hex(pre.hex_at(q), pre.hex_at(q), pre.terrs@[j as int].capital == Some(q), Game::starves(pre, pre, j as int))
            } else {
                pre.hex_at(q) == pre.hex_at(q)
            },
            None => pre.hex_at(q) == pre.hex_at(q),
        } by {}
}

proof fn lemma_payday_skip(pre: &Game, cur: &Game, p: i8, i: int)
    requires
        pre.wf(),
        0 <= i < pre.terrs@.len(),
        pre.terrs@[i].owner != p,
        Game::payday_progress(pre, cur, p, i),
    ensures
        Game::payday_progress(pre, cur, p, i + 1),
{
    reveal(Game::payday_progress);
    assert(pre.terrs@.take(i + 1).drop_last() =~= pre.terrs@.take(i));
    lemma_turn_hexes_skip(pre, cur, p, i);
}

proof fn lemma_turn_hexes_skip(pre: &Game, cur: &Game, p: i8, i: int)
    requires
        pre.terrs@[i].owner != p,
        Game::turn_hexes(pre, cur, p, i),
    ensures
        Game::turn_hexes(pre, cur, p, i + 1),
{
    reveal(Game::turn_hexes);
    assert forall|q: (i32, i32)|
        #![trigger cur.hex_at(q)]
        pre.inside(q) implies match pre.terr_of(q) {
            Some(j) => if pre.terrs@[j as int].owner == p && j < i + 1 {
                paid_hex(pre.hex_at(q), cur.hex_at(q), pre.terrs@[j as int].capital == Some(q), Game::starves(pre, cur, j as int))
            } else {
                cur.hex_at(q) == pre.hex_at(q)
            },
            None => cur.hex_at(q) == pre.hex_at(q),
        } by {
        assert(cur.hex_at(q) == cur.hex_at(q));
    }
}

proof fn lemma_payday_room(pre: &Game, cur: &Game, p: i8, i: int)
    requires
        pre.wf(),
        0 <= i < pre.terrs@.len(),
        pre.terrs@[i].owner == p,
        total_gold(pre.terrs@) + crate::game::owned_count(pre.terrs@, p) <= GOLD_CAP,
        Game::payday_progress(pre, cur, p, i),
    ensures
        cur.wf(),
        cur.terrs@[i] == pre.terrs@[i],
        total_gold(cur.terrs@) + cur.terrs@[i].hexes@.len() <= GOLD_CAP,
{
    reveal(Game::payday_progress);
    assert(pre.terrs@.take(i + 1).drop_last() =~= pre.terrs@.take(i));
    crate::game::lemma_owned_count_prefix(pre.terrs@, p, i + 1);
}

pub proof fn lemma_terr_of_some(g: &Game, q: (i32, i32))
    requires
        g.wf(),
    ensures
        g.terr_of(q) matches Some(j) ==> j < g.terrs@.len() && g.terrs@[j as int].hexes@.contains(q),
{
    let ts = g.terrs@;
    g.lemma_wf_sizes();
    if exists|i: int| 0 <= i < ts.len() && ts[i].hexes@.contains(q) {
        let i = choose|i: int| 0 <= i < ts.len() && ts[i].hexes@.contains(q);
        g.lemma_terr_of(i, q);
    }
}

proof fn lemma_payday_step(pre: &Game, b: &Game, a: &Game, p: i8, i: int, starved: bool)
    requires
        pre.wf(),
        0 <= i < pre.terrs@.len(),
        pre.terrs@[i].owner == p,
        Game::payday_progress(pre, b, p, i),
        Game::pay_effect(b, a, i, p, starved),
    ensures
        Game::payday_progress(pre, a, p, i + 1),
{
    reveal(Game::payday_progress);
    reveal(Game::pay_effect);
    let n = pre.terrs@.len();
    let hs = pre.terrs@[i].hexes@;
    pre.lemma_wf_sizes();
    assert(pre.terr_on_board(i));
    assert(pre.terrs@.take(i + 1).drop_last() =~= pre.terrs@.take(i));
    assert(b.terrs@[i] == pre.terrs@[i]);
    // the territory's own hexes were untouched before its payday
    assert forall|q: (i32, i32)| #[trigger] hs.contains(q) implies b.hex_at(q) == pre.hex_at(q) by {
        let k = choose|k: int| 0 <= k < hs.len() && hs[k] == q;
        assert(pre.inside(hs[k]));
        pre.lemma_terr_of(i, q);
        reveal(Game::turn_hexes);
        assert(b.hex_at(q) == b.hex_at(q));
    }
    assert forall|q: (i32, i32)| #[trigger] hs.contains(q) implies b.hex_at(q).unit == pre.hex_at(q).unit by {}
    lemma_wage_sum_same(b, pre, hs);
    assert(Game::starves(b, a, i) == Game::starves(pre, a, i));
    assert(Game::paid_savings(b, a, i) == Game::paid_savings(pre, a, i));
    // the other territories keep their verdicts
    assert forall|j: int| 0 <= j < n && j != i implies Game::starves(pre, a, j) == Game::starves(pre, b, j)
        && Game::paid_savings(pre, a, j) == Game::paid_savings(pre, b, j) by {
        lemma_other_terr_kept(pre, b, a, i, j);
    }
    lemma_starved_count_same(pre, a, b, p, i);
    assert forall|j: int|
        0 <= j < i + 1 && pre.terrs@[j].owner == p implies (#[trigger] a.terrs@[j]).savings == Game::paid_savings(pre, a, j) by {
        if j < i {
            assert(a.terrs@[j] == b.terrs@[j]);
        }
    }
    assert forall|j: int|
        0 <= j < n && (j >= i + 1 || pre.terrs@[j].owner != p) implies #[trigger] a.terrs@[j] == pre.terrs@[j] by {
        assert(a.terrs@[j] == b.terrs@[j]);
    }
    lemma_terr_of_all(pre);
    lemma_turn_hexes_step(pre, b, a, p, i, starved);
}

pub proof fn lemma_terr_of_all(g: &Game)
    requires
        g.wf(),
    ensures
        forall|q: (i32, i32)|
            #![trigger g.terr_of(q)]
            g.terr_of(q) matches Some(j) ==> j < g.terrs@.len() && g.terrs@[j as int].hexes@.contains(q),
        forall|j: int, q: (i32, i32)|
            0 <= j < g.terrs@.len() && #[trigger] g.terrs@[j].hexes@.contains(q) ==> g.terr_of(q) == Some(j as usize),
{
    assert forall|q: (i32, i32)|
        #![trigger g.terr_of(q)]
        (g.terr_of(q) matches Some(j) ==> j < g.terrs@.len() && g.terrs@[j as int].hexes@.contains(q)) by {
        lemma_terr_of_some(g, q);
    }
    assert forall|j: int, q: (i32, i32)|
        0 <= j < g.terrs@.len() && #[trigger] g.terrs@[j].hexes@.contains(q) implies g.terr_of(q) == Some(j as usize) by {
        g.lemma_terr_of(j, q);
    }
}

proof fn lemma_turn_hexes_step(pre: &Game, b: &Game, a: &Game, p: i8, i: int, starved: bool)
    requires
        forall|q: (i32, i32)|
            #![trigger pre.terr_of(q)]
            pre.terr_of(q) matches Some(j) ==> j < pre.terrs@.len() && pre.terrs@[j as int].hexes@.contains(q),
        forall|j: int, q: (i32, i32)|
            0 <= j < pre.terrs@.len() && #[trigger] pre.terrs@[j].hexes@.contains(q) ==> pre.terr_of(q) == Some(j as usize),
        pre.terrs@.len() <= 4 * 4096,
        0 <= i < pre.terrs@.len(),
        pre.terrs@[i].owner == p,
        b.terrs@[i] == pre.terrs@[i],
        b.same_setup(pre),
        a.same_setup(pre),
        Game::turn_hexes(pre, b, p, i),
        starved == Game::starves(pre, a, i),
        forall|j: int| 0 <= j < pre.terrs@.len() && j != i ==> Game::starves(pre, a, j) == Game::starves(pre, b, j),
        forall|q: (i32, i32)|
            #![trigger a.hex_at(q)]
            b.inside(q) ==> if b.terrs@[i].hexes@.contains(q) {
                paid_hex(b.hex_at(q), a.hex_at(q), b.terrs@[i].capital == Some(q), starved)
            } else {
                a.hex_at(q) == b.hex_at(q)
            },
    ensures
        Game::turn_hexes(pre, a, p, i + 1),
{
    reveal(Game::turn_hexes);
    let hs = pre.terrs@[i].hexes@;
    assert forall|q: (i32, i32)|
        #![trigger a.hex_at(q)]
        pre.inside(q) implies match pre.terr_of(q) {
            Some(j) => if pre.terrs@[j as int].owner == p && j < i + 1 {
                paid_hex(pre.hex_at(q), a.hex_at(q), pre.terrs@[j as int].capital == Some(q), Game::starves(pre, a, j as int))
            } else {
                a.hex_at(q) == pre.hex_at(q)
            },
            None => a.hex_at(q) == pre.hex_at(q),
        } by {
        assert(b.hex_at(q) == b.hex_at(q));
        assert(b.inside(q));
        if hs.contains(q) {
            assert(pre.terr_of(q) == Some(i as usize));
            assert(b.hex_at(q) == pre.hex_at(q));
            assert(b.terrs@[i].hexes@.contains(q));
            assert(paid_hex(b.hex_at(q), a.hex_at(q), b.terrs@[i].capital == Some(q), starved));
        } else {
            assert(a.hex_at(q) == b.hex_at(q));
            match pre.terr_of(q) {
                Some(j) => {
                    if j < i && pre.terrs@[j as int].owner == p {
                        assert(Game::starves(pre, a, j as int) == Game::starves(pre, b, j as int));
                    }
                },
                None => {},
            }
        }
    }
}

impl Game {
    /// Runs payday over every territory of seat `p`, in order.
    fn payday_all(&mut self, p: i8)
        requires
            old(self).wf(),
            total_gold(old(self).terrs@) + crate::game::owned_count(old(self).terrs@, p) <= GOLD_CAP,
        ensures
            Game::payday_progress(old(self), final(self), p, old(self).terrs@.len() as int),
            Game::sprouts_kept(old(self), final(self)),
    {
        let ghost pre = *self;
        proof {
            lemma_payday_start(&pre, p);
            assert forall|q: (i32, i32)|
                #![trigger pre.hex_at(q)]
                pre.inside(q) && may_sprout(pre.hex_at(q)) && pre.hex_at(q).tree is Some implies pre.sprout_kept(
                    q,
                    pre.hex_at(q).tree,
                ) by {}
        }
        let n = self.terrs.len();
        let mut i: usize = 0;
        while i < n
            invariant
                pre.wf(),
                n == pre.terrs@.len(),
                i <= n,
                total_gold(pre.terrs@) + crate::game::owned_count(pre.terrs@, p) <= GOLD_CAP,
                Game::payday_progress(&pre, self, p, i as int),
                Game::sprouts_kept(&pre, self),
            decreases n - i,
        {
            proof {
                reveal(Game::payday_progress);
                assert(self.terrs@[i as int] == pre.terrs@[i as int]);
            }
            if self.terrs[i].owner == p {
                let ghost b = *self;
                proof {
                    lemma_payday_room(&pre, &b, p, i as int);
                }
                let starved = self.pay_territory(i, p);
                proof {
                    lemma_unpaid_same(&pre, &b, p, i as int);
                    lemma_pay_monotone(&b, self, i as int, p, starved);
                    lemma_sprouts_step(&pre, &b, self, i as int);
                    lemma_payday_step(&pre, &b, self, p, i as int, starved);
                }
            } else {
                proof {
                    lemma_payday_skip(&pre, self, p, i as int);
                }
            }
            i += 1;
        }
    }
}


impl Game {
    /// Men of seat `p` in the first `k` territories of `pre` are fresh in
    /// `cur`; nothing else differs.
    #[verifier::opaque]
    pub open spec fn refresh_progress(pre: &Game, cur: &Game, p: i8, k: int) -> bool {
        &&& cur.wf()
        &&& cur.payday_frame(pre)
        &&& cur.terrs@ == pre.terrs@
        &&& cur.log@ == pre.log@
        &&& forall|q: (i32, i32)|
            #![trigger cur.hex_at(q)]
            pre.inside(q) ==> cur.hex_at(q) == match pre.terr_of(q) {
                Some(j) => if pre.terrs@[j as int].owner == p && j < k {
                    Hex { acted: false, ..pre.hex_at(q) }
                } else {
                    pre.hex_at(q)
                },
                None => pre.hex_at(q),
            }
    }
}

proof fn lemma_refresh_start(pre: &Game, p: i8)
    requires
        pre.wf(),
    ensures
        Game::refresh_progress(pre, pre, p, 0),
{
    reveal(Game::refresh_progress);
    assert forall|q: (i32, i32)|
        #![trigger pre.hex_at(q)]
        pre.inside(q) implies pre.hex_at(q) == match pre.terr_of(q) {
            Some(j) => if pre.terrs@[j as int].owner == p && j < 0 {
                Hex { acted: false, ..pre.hex_at(q) }
            } else {
                pre.hex_at(q)
            },
            None => pre.hex_at(q),
        } by {}
}

proof fn lemma_refresh_step(pre: &Game, b: &Game, a: &Game, p: i8, k: int, changed: bool)
    requires
        forall|q: (i32, i32)|
            #![trigger pre.terr_of(q)]
            pre.terr_of(q) matches Some(j) ==> j < pre.terrs@.len() && pre.terrs@[j as int].hexes@.contains(q),
        forall|j: int, q: (i32, i32)|
            0 <= j < pre.terrs@.len() && #[trigger] pre.terrs@[j].hexes@.contains(q) ==> pre.terr_of(q) == Some(j as usize),
        pre.terrs@.len() <= 4 * 4096,
        0 <= k < pre.terrs@.len(),
        changed == (pre.terrs@[k].owner == p),
        Game::refresh_progress(pre, b, p, k),
        a.wf(),
        a.payday_frame(b),
        a.terrs@ == b.terrs@,
        a.log@ == b.log@,
        forall|q: (i32, i32)|
            #![trigger a.hex_at(q)]
            b.inside(q) ==> a.hex_at(q) == if changed && b.terrs@[k].hexes@.contains(q) {
                Hex { acted: false, ..b.hex_at(q) }
            } else {
                b.hex_at(q)
            },
    ensures
        Game::refresh_progress(pre, a, p, k + 1),
{
    reveal(Game::refresh_progress);
    assert forall|q: (i32, i32)|
        #![trigger a.hex_at(q)]
        pre.inside(q) implies a.hex_at(q) == match pre.terr_of(q) {
            Some(j) => if pre.terrs@[j as int].owner == p && j < k + 1 {
                Hex { acted: false, ..pre.hex_at(q) }
            } else {
                pre.hex_at(q)
            },
            None => pre.hex_at(q),
        } by {
        assert(b.hex_at(q) == b.hex_at(q));
        assert(b.inside(q));
        if pre.terrs@[k].hexes@.contains(q) {
            assert(pre.terr_of(q) == Some(k as usize));
        }
    }
}

impl Game {
    /// One pass over the men of territory `ti` when it belongs to `p`.
    fn refresh_if_owned(&mut self, ti: usize, p: i8) -> (changed: bool)
        requires
            old(self).wf(),
            ti < old(self).terrs@.len(),
        ensures
            changed == (old(self).terrs@[ti as int].owner == p),
            final(self).wf(),
            final(self).payday_frame(old(self)),
            final(self).terrs@ == old(self).terrs@,
            final(self).log@ == old(self).log@,
            forall|q: (i32, i32)|
                #![trigger final(self).hex_at(q)]
                old(self).inside(q) ==> final(self).hex_at(q) == if changed && old(self).terrs@[ti as int].hexes@.contains(q) {
                    Hex { acted: false, ..old(self).hex_at(q) }
                } else {
                    old(self).hex_at(q)
                },
    {
        if self.terrs[ti].owner == p {
            self.refresh_men(ti);
            true
        } else {
            false
        }
    }

    /// Sets every man of seat `p` fresh.
    fn refresh_all(&mut self, p: i8)
        requires
            old(self).wf(),
        ensures
            Game::refresh_progress(old(self), final(self), p, old(self).terrs@.len() as int),
    {
        let ghost pre = *self;
        proof {
            lemma_refresh_start(&pre, p);
            lemma_terr_of_all(&pre);
            pre.lemma_wf_sizes();
        }
        let n = self.terrs.len();
        let mut k: usize = 0;
        while k < n
            invariant
                pre.wf(),
                n == pre.terrs@.len(),
                k <= n,
                pre.terrs@.len() <= 4 * 4096,
                forall|q: (i32, i32)|
                    #![trigger pre.terr_of(q)]
                    pre.terr_of(q) matches Some(j) ==> j < pre.terrs@.len() && pre.terrs@[j as int].hexes@.contains(q),
                forall|j: int, q: (i32, i32)|
                    0 <= j < pre.terrs@.len() && #[trigger] pre.terrs@[j].hexes@.contains(q) ==> pre.terr_of(q) == Some(j as usize),
                Game::refresh_progress(&pre, self, p, k as int),
            decreases n - k,
        {
            let ghost b = *self;
            proof {
                reveal(Game::refresh_progress);
            }
            let changed = self.refresh_if_owned(k, p);
            proof {
                lemma_refresh_step(&pre, &b, self, p, k as int, changed);
            }
            k += 1;
        }
    }
}


impl Game {
    /// Start-of-turn for seat `p`, from `pre` to `fin`, as its payday and
    /// the freshening of its men make it.
    pub open spec fn turn_started(pre: &Game, fin: &Game, p: i8) -> bool {
        &&& fin.wf()
        &&& fin.payday_frame(pre)
        &&& total_gold(fin.terrs@) <= total_gold(pre.terrs@) + crate::game::owned_count(pre.terrs@, p)
        &&& forall|i: int|
            0 <= i < pre.terrs@.len() ==> if pre.terrs@[i].owner == p {
                (#[trigger] fin.terrs@[i]).savings == Game::paid_savings(pre, fin, i)
            } else {
                fin.terrs@[i] == pre.terrs@[i]
            }
        &&& forall|q: (i32, i32)|
            #![trigger fin.hex_at(q)]
            pre.inside(q) ==> match pre.terr_of(q) {
                Some(j) => if pre.terrs@[j as int].owner == p {
                    &&& paid_core(
                        pre.hex_at(q),
                        fin.hex_at(q),
                        pre.terrs@[j as int].capital == Some(q),
                        Game::starves(pre, fin, j as int),
                    )
                    &&& !fin.hex_at(q).acted
                } else {
                    fin.hex_at(q) == pre.hex_at(q)
                },
                None => fin.hex_at(q) == pre.hex_at(q),
            }
        &&& log_view(fin.log@) == if p == 0 {
            say_times(
                log_view(pre.log@),
                bankrupt_msg(),
                Game::starved_count(pre, fin, p, pre.terrs@.len() as int),
            )
        } else {
            log_view(pre.log@)
        }
        &&& Game::sprouts_kept(pre, fin)
    }
}

/// Freshening the men keeps every tree and all the water, so the kept
/// sprouts stay kept.
proof fn lemma_refresh_sprouts(pre: &Game, mid: &Game, fin: &Game, p: i8)
    requires
        mid.cols == pre.cols,
        mid.rows == pre.rows,
        Game::sprouts_kept(pre, mid),
        Game::refresh_progress(mid, fin, p, mid.terrs@.len() as int),
    ensures
        Game::sprouts_kept(pre, fin),
{
    reveal(Game::refresh_progress);
    assert forall|p2: (i32, i32)|
        #![trigger fin.hex_at(p2)]
        mid.inside(p2) implies fin.hex_at(p2).tree == mid.hex_at(p2).tree && fin.hex_at(p2).water == mid.hex_at(p2).water by {
        assert(fin.hex_at(p2) == fin.hex_at(p2));
    }
    assert forall|q: (i32, i32)|
        #![trigger fin.hex_at(q)]
        pre.inside(q) && may_sprout(pre.hex_at(q)) && fin.hex_at(q).tree is Some implies fin.sprout_kept(
            q,
            fin.hex_at(q).tree,
        ) by {
        assert(fin.hex_at(q).tree == mid.hex_at(q).tree);
        assert(mid.sprout_kept(q, mid.hex_at(q).tree));
        Game::lemma_kept_grows(mid, fin, q, mid.hex_at(q).tree);
    }
}

proof fn lemma_turn_compose(pre: &Game, mid: &Game, fin: &Game, p: i8)
    requires
        pre.wf(),
        Game::payday_progress(pre, mid, p, pre.terrs@.len() as int),
        Game::refresh_progress(mid, fin, p, mid.terrs@.len() as int),
        Game::sprouts_kept(pre, fin),
    ensures
        Game::turn_started(pre, fin, p),
{
    reveal(Game::payday_progress);
    reveal(Game::refresh_progress);
    reveal(Game::turn_hexes);
    let n = pre.terrs@.len();
    lemma_terr_of_all(pre);
    lemma_terr_of_all(mid);
    pre.lemma_wf_sizes();
    assert forall|q: (i32, i32)| pre.inside(q) implies #[trigger] mid.terr_of(q) == pre.terr_of(q) by {
        match pre.terr_of(q) {
            Some(j) => {
                assert(mid.terrs@[j as int].hexes@ == pre.terrs@[j as int].hexes@);
            },
            None => {
                match mid.terr_of(q) {
                    Some(j) => {
                        assert(mid.terrs@[j as int].hexes@ == pre.terrs@[j as int].hexes@);
                        assert(pre.terrs@[j as int].hexes@.contains(q));
                    },
                    None => {},
                }
            },
        }
    }
    assert forall|j: int| 0 <= j < n implies Game::starves(pre, fin, j) == Game::starves(pre, mid, j)
        && Game::paid_savings(pre, fin, j) == Game::paid_savings(pre, mid, j) by {
        assert(pre.terr_on_board(j));
        let hs = pre.terrs@[j].hexes@;
        assert forall|q: (i32, i32)| #[trigger] hs.contains(q) implies fin.hex_at(q).tree == mid.hex_at(q).tree by {
            let kk = choose|kk: int| 0 <= kk < hs.len() && hs[kk] == q;
            assert(pre.inside(hs[kk]));
            assert(mid.terr_of(q) == pre.terr_of(q));
            assert(fin.hex_at(q) == fin.hex_at(q));
        }
        lemma_clear_count_same(fin, mid, hs);
    }
    lemma_starved_count_same(pre, fin, mid, p, n as int);
    assert(pre.terrs@.take(n as int) =~= pre.terrs@);
    assert forall|i: int|
        0 <= i < n implies if pre.terrs@[i].owner == p {
            (#[trigger] fin.terrs@[i]).savings == Game::paid_savings(pre, fin, i)
        } else {
            fin.terrs@[i] == pre.terrs@[i]
        } by {
        assert(fin.terrs@[i] == mid.terrs@[i]);
    }
    assert forall|q: (i32, i32)|
        #![trigger fin.hex_at(q)]
        pre.inside(q) implies match pre.terr_of(q) {
            Some(j) => if pre.terrs@[j as int].owner == p {
                &&& paid_core(pre.hex_at(q), fin.hex_at(q), pre.terrs@[j as int].capital == Some(q), Game::starves(pre, fin, j as int))
                &&& !fin.hex_at(q).acted
            } else {
                fin.hex_at(q) == pre.hex_at(q)
            },
            None => fin.hex_at(q) == pre.hex_at(q),
        } by {
        assert(mid.hex_at(q) == mid.hex_at(q));
        assert(mid.inside(q));
        assert(mid.terr_of(q) == pre.terr_of(q));
        match pre.terr_of(q) {
            Some(j) => {
                assert(mid.terrs@[j as int].owner == pre.terrs@[j as int].owner);
            },
            None => {},
        }
    }
}

impl Game {
    /// Start of seat `p`'s turn. Each of its territories, in order: graves
    /// clear (an empty grave becomes a pine); trees may sprout on empty
    /// hexes other than the house; the treasury earns one gold per hex
    /// without a tree and pays its men's wages, and a territory that cannot
    /// pay loses every man to a grave and its whole treasury. Then the
    /// seat's men are all fresh. Nothing outside its territories changes.
    pub fn start_turn(&mut self, p: i8)
        requires
            old(self).wf(),
            total_gold(old(self).terrs@) + crate::game::owned_count(old(self).terrs@, p) <= GOLD_CAP,
        ensures
            Game::turn_started(old(self), final(self), p),
    {
        let ghost pre = *self;
        self.payday_all(p);
        let ghost mid = *self;
        proof {
            reveal(Game::payday_progress);
        }
        self.refresh_all(p);
        proof {
            lemma_refresh_sprouts(&pre, &mid, self, p);
            lemma_turn_compose(&pre, &mid, self, p);
        }
    }
}

} // verus!
