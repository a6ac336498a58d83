//! The player's commands on a running game: a click on the board, a
//! purchase at the focused hex and the end of a turn. Each answers with a
//! message for the status line and a sound cue for the interface.
use crate::ai::TURN_GOLD;
use crate::game::{has_hex, total_gold, Game, Terr, GOLD_CAP};
use crate::rules::{rank_name, rank_name_spec};
use crate::text::{append_int, decimal, has_prefix, join2, owned, starts_with, str_eq};
use vstd::prelude::*;
use vstd::string::*;

verus! {

/// The sound of a successful move, told by its message.
pub open spec fn move_sfx(m: Seq<char>) -> Seq<char> {
    if has_prefix(m, "Combined"@) {
        "combine"@
    } else if has_prefix(m, "Chopped"@) {
        "chop"@
    } else {
        "move"@
    }
}

/// The sound of a purchase attempt, told by its message.
pub open spec fn buy_sfx(m: Seq<char>) -> Seq<char> {
    if m == "Peasant ready."@ {
        "buy"@
    } else if m == "Castle built."@ {
        "castle"@
    } else if has_prefix(m, "Click"@) {
        Seq::empty()
    } else {
        "error"@
    }
}

/// The prompt after picking up a man of rank `unit`.
pub open spec fn selected_msg(unit: u8) -> Seq<char> {
    rank_name_spec(unit) + " selected — click a glowing hex."@
}

/// The note on a man that already acted this turn.
pub open spec fn spent_msg() -> Seq<char> {
    "Spent — it already acted this turn."@
}

/// The answer to a purchase with no hex focused.
pub open spec fn no_focus_msg() -> Seq<char> {
    "Click one of your open hexes first."@
}

/// The greeting of a new round.
pub open spec fn round_msg(round: u32) -> Seq<char> {
    "Round "@ + decimal(round as int) + ". Treasuries paid out."@
}

impl Game {
    /// `t` lies in the territory listing `s`.
    pub open spec fn same_terr(&self, s: (i32, i32), t: (i32, i32)) -> bool {
        match self.terr_of(s) {
            Some(ti) => self.terrs@[ti as int].hexes@.contains(t),
            None => false,
        }
    }

    /// `self` is `pre` after a successful move from `s` to `t`, with the
    /// focus on `t`; the selection aside.
    pub open spec fn moved_from(&self, pre: &Game, s: (i32, i32), t: (i32, i32)) -> bool {
        &&& self.grid@ == pre.moved_grid(s, t)
        &&& self.terrs@ == pre.terrs@
        &&& self.same_setup(pre)
        &&& self.round == pre.round
        &&& self.current == pre.current
        &&& self.log@ == pre.log@
        &&& self.focus == Some(t)
        &&& self.rng == pre.rng
    }

    /// `self` is `pre` after the player's seat 0 took `t` with the man on
    /// `s`, with the focus on `t`; the selection aside.
    pub open spec fn attacked_from(&self, pre: &Game, s: (i32, i32), t: (i32, i32)) -> bool {
        &&& self.grid@ == pre.attacked_grid(s, t, 0)
        &&& self.recounted(pre.terrs@)
        &&& self.same_setup(pre)
        &&& self.round == pre.round
        &&& self.current == pre.current
        &&& self.log@ == pre.log@
        &&& self.focus == Some(t)
        &&& self.rng == pre.rng
    }

    /// A click on `t` with a man selected on `s`: inside the man's
    /// territory and on the player's own land it orders a move, anywhere
    /// else an attack for the player's seat 0. The focus goes to `t`; a
    /// refused order changes nothing else.
    pub open spec fn ordered(pre: &Game, fin: &Game, s: (i32, i32), t: (i32, i32), msg: Seq<char>, sfx: Seq<char>) -> bool {
        if pre.hex_at(t).owner == 0 && pre.same_terr(s, t) {
            match pre.move_result(s, t) {
                Err(e) => *fin == Game { focus: Some(t), ..*pre } && msg == e && sfx == "error"@,
                Ok(m) => {
                    &&& fin.moved_from(pre, s, t)
                    &&& fin.sel == if fin.hex_at(t).acted {
                        None
                    } else {
                        Some(t)
                    }
                    &&& msg == m
                    &&& sfx == move_sfx(m)
                },
            }
        } else {
            match pre.attack_error(s, t) {
                Some(e) => *fin == Game { focus: Some(t), ..*pre } && msg == e && sfx == "error"@,
                None => {
                    &&& fin.attacked_from(pre, s, t)
                    &&& fin.sel is None
                    &&& msg == rank_name_spec(pre.hex_at(s).unit) + " takes a hex."@
                    &&& sfx == "attack"@
                },
            }
        }
    }

    /// What a click on board position `t` does to `pre`, and its answer.
    /// Off the board nothing happens. On the board the hex gets the focus;
    /// with nothing selected a fresh man of the player's seat 0 is picked up;
    /// a second click on the selected man puts him down; any other hex is
    /// an order for him.
    pub open spec fn clicked(pre: &Game, fin: &Game, t: (i32, i32), msg: Seq<char>, sfx: Seq<char>) -> bool {
        if !pre.inside(t) {
            *fin == *pre && msg == Seq::<char>::empty() && sfx == Seq::<char>::empty()
        } else {
            let g = Game { focus: Some(t), ..*pre };
            let h = pre.hex_at(t);
            match pre.sel {
                None => if h.owner == 0 && h.unit != 0 && !h.acted {
                    *fin == Game { sel: Some(t), ..g } && msg == selected_msg(h.unit) && sfx == "select"@
                } else if h.owner == 0 && h.unit != 0 {
                    *fin == g && msg == spent_msg() && sfx == Seq::<char>::empty()
                } else {
                    *fin == g && msg == Seq::<char>::empty() && sfx == Seq::<char>::empty()
                },
                Some(s) => if s == t {
                    *fin == Game { sel: None, ..g } && msg == Seq::<char>::empty() && sfx == Seq::<
                        char,
                    >::empty()
                } else {
                    Game::ordered(pre, fin, s, t, msg, sfx)
                },
            }
        }
    }
}

impl Game {
    /// A click on board position `(x, y)` by the player, seat 0: focus the
    /// hex, pick up or put down a man, or order the selected man to move,
    /// combine, chop or attack there.
    pub fn click(&mut self, x: i32, y: i32) -> (r: (String, String))
        requires
            old(self).wf(),
            old(self).sel_ok(),
        ensures
            final(self).wf(),
            final(self).sel_ok(),
            Game::clicked(old(self), final(self), (x, y), r.0@, r.1@),
    {
        if !self.in_bounds(x, y) {
            return (String::new(), String::new());
        }
        let ghost pre = *self;
        match self.sel {
            Some(s) => {
                if s.0 != x || s.1 != y {
                    return self.order(s, (x, y));
                }
            },
            None => {},
        }
        self.focus = Some((x, y));
        proof {
            self.lemma_wf_off_board(&pre);
            self.lemma_inside_index((x, y));
        }
        let i = Game::idx(self.cols, x, y);
        let h = self.grid[i];
        let me: i8 = 0;
        match self.sel {
            None => {
                if h.owner == me && h.unit != 0 && !h.acted {
                    self.sel = Some((x, y));
                    proof {
                        self.lemma_wf_off_board(&pre);
                        reveal_strlit(" selected — click a glowing hex.");
                    }
                    (join2(rank_name(h.unit), " selected — click a glowing hex."), owned("select"))
                } else if h.owner == me && h.unit != 0 {
                    (owned("Spent — it already acted this turn."), String::new())
                } else {
                    (String::new(), String::new())
                }
            },
            Some(_) => {
                self.sel = None;
                proof {
                    self.lemma_wf_off_board(&pre);
                }
                (String::new(), String::new())
            },
        }
    }

    /// The selected man on `s` is ordered to `t`, which then has the focus.
    fn order(&mut self, s: (i32, i32), t: (i32, i32)) -> (r: (String, String))
        requires
            old(self).wf(),
            old(self).sel_ok(),
            old(self).inside(s),
            old(self).inside(t),
            s != t,
        ensures
            final(self).wf(),
            final(self).sel_ok(),
            Game::ordered(old(self), final(self), s, t, r.0@, r.1@),
    {
        proof {
            self.lemma_inside_index(s);
            self.lemma_inside_index(t);
        }
        let i = Game::idx(self.cols, t.0, t.1);
        let owner = self.grid[i].owner;
        let me: i8 = 0;
        let own_target = match self.terr_at(s.0, s.1) {
            Some(ti) => has_hex(&self.terrs[ti].hexes, t),
            None => false,
        };
        if owner == me && own_target {
            match self.do_move(s.0, s.1, t.0, t.1) {
                Ok(m) => {
                    proof {
                        reveal_strlit("Combined");
                        reveal_strlit("Chopped");
                    }
                    let fx = if starts_with(m.as_str(), "Combined") {
                        "combine"
                    } else if starts_with(m.as_str(), "Chopped") {
                        "chop"
                    } else {
                        "move"
                    };
                    let sel = if self.grid[i].acted {
                        None
                    } else {
                        Some(t)
                    };
                    self.mark(sel, Some(t));
                    (m, owned(fx))
                },
                Err(e) => {
                    let sel = self.sel;
                    self.mark(sel, Some(t));
                    (e, owned("error"))
                },
            }
        } else {
            match self.do_attack(s.0, s.1, t.0, t.1, me) {
                Ok(m) => {
                    self.mark(None, Some(t));
                    (m, owned("attack"))
                },
                Err(e) => {
                    let sel = self.sel;
                    self.mark(sel, Some(t));
                    (e, owned("error"))
                },
            }
        }
    }

    /// Sets the selection and the focus; nothing else changes.
    fn mark(&mut self, sel: Option<(i32, i32)>, focus: Option<(i32, i32)>)
        requires
            old(self).wf(),
        ensures
            final(self).wf(),
            *final(self) == (Game { sel: sel, focus: focus, ..*old(self) }),
    {
        let ghost pre = *self;
        self.sel = sel;
        self.focus = focus;
        proof {
            self.lemma_wf_off_board(&pre);
        }
    }
}

impl Game {
    /// `self` is `pre` after buying at `p` for the seat to play: the hex
    /// holds the purchase and its territory paid for it.
    pub open spec fn bought_at(&self, pre: &Game, p: (i32, i32), castle: bool) -> bool {
        let ti = pre.terr_of(p).unwrap() as int;
        let t = pre.terrs@[ti];
        &&& self.grid@ == pre.grid@.update(
            crate::hexgrid::ix(pre.cols as int, p),
            crate::economy::bought_hex(pre.hex_at(p), castle),
        )
        &&& self.terrs@ == pre.terrs@.update(
            ti,
            Terr { savings: (t.savings - crate::economy::buy_cost(castle)) as i64, ..t },
        )
        &&& self.same_setup(pre)
        &&& self.round == pre.round
        &&& self.current == pre.current
        &&& self.log@ == pre.log@
        &&& self.sel == pre.sel
        &&& self.focus == pre.focus
        &&& self.rng == pre.rng
    }

    /// Buys a castle (`kind` "castle") or else a peasant on the focused hex
    /// for the player, seat 0. Without a focus nothing is bought.
    pub fn buy_at_focus(&mut self, kind: &str) -> (r: (String, String))
        requires
            old(self).wf(),
            old(self).sel_ok(),
        ensures
            final(self).wf(),
            final(self).sel_ok(),
            match old(self).focus {
                None => *final(self) == *old(self) && r.0@ == no_focus_msg(),
                Some(p) => match old(self).buy_result(p, kind@ == "castle"@, 0) {
                    Err(e) => *final(self) == *old(self) && r.0@ == e,
                    Ok(m) => r.0@ == m && final(self).bought_at(old(self), p, kind@ == "castle"@),
                },
            },
            r.1@ == buy_sfx(r.0@),
    {
        let me: i8 = 0;
        let msg = match self.focus {
            Some(p) => match self.buy(p.0, p.1, kind, me) {
                Ok(m) => m,
                Err(e) => e,
            },
            None => owned("Click one of your open hexes first."),
        };
        let sfx = if str_eq(msg.as_str(), "Peasant ready.") {
            owned("buy")
        } else if str_eq(msg.as_str(), "Castle built.") {
            owned("castle")
        } else if starts_with(msg.as_str(), "Click") {
            String::new()
        } else {
            owned("error")
        };
        (msg, sfx)
    }

    /// Sum of all treasuries.
    pub fn gold_total(&self) -> (t: i128)
        requires
            self.terrs@.len() <= 4 * 4096,
        ensures
            t == total_gold(self.terrs@),
    {
        let ghost ts = self.terrs@;
        let mut acc: i128 = 0;
        let mut i: usize = 0;
        while i < self.terrs.len()
            invariant
                ts == self.terrs@,
                ts.len() <= 4 * 4096,
                i <= ts.len(),
                acc == total_gold(ts.take(i as int)),
                -(i as int) * 9223372036854775808 <= acc <= (i as int) * 9223372036854775808,
            decreases ts.len() - i,
        {
            proof {
                assert(ts.take(i + 1).drop_last() =~= ts.take(i as int));
            }
            acc = acc + self.terrs[i].savings as i128;
            i += 1;
        }
        proof {
            assert(ts.take(ts.len() as int) =~= ts);
        }
        acc
    }

    /// The treasuries leave room to start seat `p`'s turn.
    pub fn can_start_turn(&self, p: i8) -> (b: bool)
        requires
            self.wf(),
        ensures
            b == (total_gold(self.terrs@) + crate::game::owned_count(self.terrs@, p) <= GOLD_CAP),
    {
        proof {
            self.lemma_wf_sizes();
        }
        self.gold_total() + self.hexes_of(p) as i128 <= GOLD_CAP as i128
    }

    /// The round counter and the treasuries leave room to end the turn.
    pub fn can_end_turn(&self) -> (b: bool)
        requires
            self.wf(),
        ensures
            b == (self.round <= u32::MAX - 2 && total_gold(self.terrs@) + 5 * TURN_GOLD <= GOLD_CAP),
    {
        proof {
            self.lemma_wf_sizes();
        }
        self.round <= u32::MAX - 2 && self.gold_total() + 5 * (TURN_GOLD as i128) <= GOLD_CAP as i128
    }

    /// Ends the player's turn: the computer seats still alive play in seat
    /// order, each its whole turn, until one leaves a winner; if none does,
    /// a new round begins with the player's turn. The player's seat 0 is to
    /// play afterwards either way.
    pub fn end_turn(&mut self) -> (r: (String, String))
        requires
            old(self).wf(),
            old(self).round <= u32::MAX - 2,
            total_gold(old(self).terrs@) + 5 * TURN_GOLD <= GOLD_CAP,
        ensures
            final(self).wf(),
            final(self).sel is None,
            final(self).same_setup(old(self)),
            final(self).focus == old(self).focus,
            final(self).current == 0,
            exists|sts: Seq<Game>|
                #[trigger] Game::computers_played(old(self), sts) && Game::round_closed(old(self), sts, final(self))
                    && if Game::computer_won(sts) {
                    r.0@ == Seq::<char>::empty() && r.1@ == Seq::<char>::empty()
                } else {
                    r.0@ == round_msg(final(self).round) && r.1@ == "turn"@
                },
    {
        let ghost pre = *self;
        proof {
            self.lemma_wf_sizes();
            lemma_alive_len(self, self.players@.len() as int);
        }
        let alive = self.alive();
        let ghost pred = |o: i8| o != 0;
        let mut order: Vec<i8> = Vec::new();
        let mut j: usize = 0;
        while j < alive.len()
            invariant
                j <= alive@.len(),
                pred == (|o: i8| o != 0),
                order@ == alive@.take(j as int).filter(pred),
                order@.len() <= j,
            decreases alive@.len() - j,
        {
            proof {
                assert(alive@.take(j + 1).drop_last() =~= alive@.take(j as int));
                assert(alive@.take(j + 1).last() == alive@[j as int]);
                reveal(Seq::filter);
            }
            if alive[j] != 0 {
                order.push(alive[j]);
            }
            j += 1;
        }
        proof {
            assert(alive@.take(alive@.len() as int) =~= alive@);
            assert(order@ == computer_order(&pre));
        }
        self.sel = None;
        proof {
            self.lemma_wf_off_board(&pre);
        }
        let ghost mut sts: Seq<Game> = seq![*self];
        let mut k: usize = 0;
        let mut over = false;
        while k < order.len() && !over
            invariant
                pre.wf(),
                pre.round <= u32::MAX - 2,
                self.wf(),
                self.same_setup(&pre),
                self.sel is None,
                self.focus == pre.focus,
                self.round == pre.round,
                order@ == computer_order(&pre),
                order@.len() <= 4,
                k <= order@.len(),
                total_gold(self.terrs@) + (5 - k) * TURN_GOLD <= GOLD_CAP,
                sts.len() == k + 1,
                sts.last() == *self,
                sts[0] == (Game { sel: None, ..pre }),
                forall|i: int|
                    0 <= i < sts.len() - 1 ==> #[trigger] Game::ai_turn(
                        &Game::seated(&sts[i], order@[i]),
                        &sts[i + 1],
                        order@[i],
                    ),
                forall|i: int| 1 <= i < sts.len() - 1 ==> (#[trigger] sts[i]).winner_spec() is None,
                over ==> k >= 1 && self.winner_spec() is Some,
                !over && k >= 1 ==> self.winner_spec() is None,
            decreases order@.len() - k,
        {
            let ai = order[k];
            let ghost before = *self;
            self.current = ai;
            proof {
                self.lemma_wf_off_board(&before);
                self.lemma_owned_small();
                assert(*self == Game::seated(&sts[k as int], order@[k as int]));
            }
            self.ai_take_turn(ai);
            proof {
                self.lemma_wf_sizes();
                let sts1 = sts.push(*self);
                assert forall|i: int|
                    0 <= i < sts1.len() - 1 implies #[trigger] Game::ai_turn(
                    &Game::seated(&sts1[i], order@[i]),
                    &sts1[i + 1],
                    order@[i],
                ) by {
                    if i < sts.len() - 1 {
                        assert(sts1[i] == sts[i] && sts1[i + 1] == sts[i + 1]);
                    } else {
                        assert(sts1[i] == before && sts1[i + 1] == *self);
                    }
                }
                assert forall|i: int| 1 <= i < sts1.len() - 1 implies (#[trigger] sts1[i]).winner_spec() is None by {
                    assert(sts1[i] == sts[i]);
                }
                sts = sts1;
            }
            if self.winner().is_some() {
                over = true;
            }
            k += 1;
        }
        proof {
            assert(Game::computers_played(&pre, sts));
        }
        if over {
            let ghost last = *self;
            self.current = 0;
            proof {
                self.lemma_wf_off_board(&last);
                assert(self.alive_spec() == last.alive_spec()) by {
                    lemma_alive_same(&last, self, self.players@.len() as int);
                }
                assert(Game::round_closed(&pre, sts, self));
            }
            proof {
                assert(Game::computer_won(sts));
            }
            (String::new(), String::new())
        } else {
            let ghost last = *self;
            self.round = self.round + 1;
            self.current = 0;
            proof {
                self.lemma_wf_off_board(&last);
                self.lemma_owned_small();
            }
            let ghost opened = *self;
            self.start_turn(0);
            proof {
                assert(opened == Game { round: (last.round + 1) as u32, current: 0, ..last });
                assert(Game::round_closed(&pre, sts, self));
                assert(!Game::computer_won(sts));
            }
            let mut m = owned("Round ");
            append_int(&mut m, self.round as i64);
            m.append(". Treasuries paid out.");
            (m, owned("turn"))
        }
    }
}

/// The computer seats that play when the player ends a turn: the living
/// seats other than the player's seat 0, in seat order.
pub open spec fn computer_order(g: &Game) -> Seq<i8> {
    g.alive_spec().filter(|o: i8| o != 0)
}

impl Game {
    /// `g` with seat `p` to play.
    pub open spec fn seated(g: &Game, p: i8) -> Game {
        Game { current: p, ..*g }
    }

    /// `sts` are the states after the player ended the turn in `pre`: the
    /// selection dropped, then each seat of `computer_order` in turn takes
    /// its whole turn, play going on while nobody has won.
    pub open spec fn computers_played(pre: &Game, sts: Seq<Game>) -> bool {
        let order = computer_order(pre);
        &&& 1 <= sts.len() <= order.len() + 1
        &&& sts[0] == (Game { sel: None, ..*pre })
        &&& forall|i: int|
            0 <= i < sts.len() - 1 ==> #[trigger] Game::ai_turn(&Game::seated(&sts[i], order[i]), &sts[i + 1], order[i])
        &&& forall|i: int| 1 <= i < sts.len() - 1 ==> (#[trigger] sts[i]).winner_spec() is None
    }

    /// The last of the computer turns `sts` left a winner.
    pub open spec fn computer_won(sts: Seq<Game>) -> bool {
        sts.len() > 1 && sts.last().winner_spec() is Some
    }

    /// How the computer turns `sts` after `pre` end in `post`: a computer
    /// turn left a winner and the player's seat is marked to play; or all
    /// of them played without a winner and the next round opens with the
    /// player's turn.
    pub open spec fn round_closed(pre: &Game, sts: Seq<Game>, post: &Game) -> bool {
        let last = sts.last();
        ||| sts.len() > 1 && last.winner_spec() is Some && *post == (Game { current: 0, ..last })
        ||| sts.len() == computer_order(pre).len() + 1 && (sts.len() == 1 || last.winner_spec() is None)
            && Game::turn_started(&Game { round: (last.round + 1) as u32, current: 0, ..last }, post, 0)
    }
}

/// At most one living seat per seat counted.
proof fn lemma_alive_len(g: &Game, k: int)
    requires
        k >= 0,
    ensures
        g.alive_upto(k).len() <= k,
    decreases k,
{
    if k > 0 {
        lemma_alive_len(g, k - 1);
    }
}

/// Which seats live reads the territories, the board and the seats, not who
/// is to play.
proof fn lemma_alive_same(a: &Game, b: &Game, k: int)
    requires
        *b == (Game { current: b.current, ..*a }),
    ensures
        b.alive_upto(k) == a.alive_upto(k),
    decreases k,
{
    if k > 0 {
        lemma_alive_same(a, b, k - 1);
        let o = a.players@[k - 1];
        assert(b.viable_spec(o) == a.viable_spec(o));
    }
}

proof fn lemma_sfx_not_error(m: Seq<char>)
    ensures
        move_sfx(m) != "error"@,
        "attack"@ != "error"@,
{
    reveal_strlit("error");
    reveal_strlit("combine");
    reveal_strlit("chop");
    reveal_strlit("move");
    reveal_strlit("attack");
    assert("error"@.len() == 5);
    assert("combine"@.len() == 7);
    assert("chop"@.len() == 4);
    assert("move"@.len() == 4);
    assert("attack"@.len() == 6);
}

/// With the man on `s` selected, a hex `t` of his own territory lights up
/// exactly when the move there succeeds.
proof fn lemma_lit_move(pre: &Game, s: (i32, i32), t: (i32, i32))
    requires
        pre.wf(),
        pre.sel == Some(s),
        s != t,
        pre.hex_at(s).owner == pre.current,
        !(pre.hex_at(t).castle && pre.hex_at(t).unit != 0),
        pre.terr_of(s) matches Some(fti) && pre.terrs@[fti as int].hexes@.contains(t),
    ensures
        pre.hex_at(t).owner == pre.current,
        pre.same_terr(s, t),
        pre.sel_target(t) <==> pre.move_result(s, t) is Ok,
{
    crate::economy::lemma_terr_of_some(pre, s);
    let fti = pre.terr_of(s).unwrap() as int;
    pre.lemma_member(fti, s);
    pre.lemma_member(fti, t);
    assert(!pre.attack_target(s, fti, t));
}

/// With the man on `s` selected, a hex `t` off his own territory or of
/// another seat lights up exactly when the attack there is allowed.
proof fn lemma_lit_attack(pre: &Game, s: (i32, i32), t: (i32, i32))
    requires
        pre.wf(),
        pre.sel == Some(s),
        s != t,
        pre.hex_at(s).owner == pre.current,
        !(pre.hex_at(t).owner == pre.current && pre.same_terr(s, t)),
    ensures
        pre.sel_target(t) <==> pre.attack_error(s, t) is None,
{
    crate::economy::lemma_terr_of_some(pre, s);
    match pre.terr_of(s) {
        None => {},
        Some(fti) => {
            pre.lemma_member(fti as int, s);
            if pre.terrs@[fti as int].hexes@.contains(t) {
                pre.lemma_member(fti as int, t);
            }
            assert(!pre.move_target(s, fti as int, t));
        },
    }
}

/// A hex lights up for the selected man of the seat to play exactly when
/// the order there would be obeyed: inside his territory a move that
/// succeeds, elsewhere an allowed attack. A castle hex that also holds a
/// man is left out: it takes a combine but is never lit.
pub proof fn lemma_targets_exact(pre: &Game, t: (i32, i32))
    requires
        pre.wf(),
        pre.sel matches Some(s) && s != t && pre.hex_at(s).owner == pre.current,
        !(pre.hex_at(t).castle && pre.hex_at(t).unit != 0),
    ensures
        pre.sel_target(t) <==> if pre.same_terr(pre.sel.unwrap(), t) {
            pre.move_result(pre.sel.unwrap(), t) is Ok
        } else {
            pre.attack_error(pre.sel.unwrap(), t) is None
        },
{
    let s = pre.sel.unwrap();
    crate::economy::lemma_terr_of_some(pre, s);
    if pre.same_terr(s, t) {
        lemma_lit_move(pre, s, t);
    } else {
        lemma_lit_attack(pre, s, t);
    }
}

/// While the player's seat 0 is to play, a hex lights up for the selected
/// man exactly when a click on it is obeyed: a lit hex takes the order, any other hex answers
/// with an error. A castle hex that also holds a man is left out: it takes
/// a combine but is never lit.
pub proof fn lemma_lit_iff_obeyed(pre: &Game, fin: &Game, t: (i32, i32), msg: Seq<char>, sfx: Seq<char>)
    requires
        pre.wf(),
        pre.inside(t),
        pre.current == 0,
        pre.sel matches Some(s) && s != t && pre.hex_at(s).owner == pre.current,
        !(pre.hex_at(t).castle && pre.hex_at(t).unit != 0),
        Game::clicked(pre, fin, t, msg, sfx),
    ensures
        pre.sel_target(t) <==> sfx != "error"@,
{
    let s = pre.sel.unwrap();
    assert(Game::ordered(pre, fin, s, t, msg, sfx));
    crate::economy::lemma_terr_of_some(pre, s);
    if pre.terr_of(s) matches Some(fti) && pre.terrs@[fti as int].hexes@.contains(t) {
        lemma_lit_move(pre, s, t);
        match pre.move_result(s, t) {
            Ok(m) => lemma_sfx_not_error(m),
            Err(_) => {},
        }
    } else {
        assert(!pre.same_terr(s, t));
        lemma_lit_attack(pre, s, t);
        lemma_sfx_not_error(msg);
    }
}

/// Two clicks on the same board hex with nothing selected leave the game as
/// it was, but for the focus on that hex: a man picked up by the first is
/// put down by the second.
pub proof fn lemma_click_twice(pre: &Game, mid: &Game, fin: &Game, t: (i32, i32), m1: Seq<char>, s1: Seq<char>, m2: Seq<char>, s2: Seq<char>)
    requires
        pre.inside(t),
        pre.sel is None,
        Game::clicked(pre, mid, t, m1, s1),
        Game::clicked(mid, fin, t, m2, s2),
    ensures
        *fin == (Game { focus: Some(t), ..*pre }),
{
}

} // verus!
