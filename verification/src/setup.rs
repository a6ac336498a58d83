//! Setting up a new game: hand-painted islands and their checks, the
//! table of seats, and the opening treasuries.
use crate::game::{lex_lt, sorted_hexes, terr_shape, total_gold, CustomSpec, Game, Terr, GOLD_CAP};
use crate::economy::{lemma_total_gold_update, log_view};
use crate::mapgen::{count_true, gen_side_ok, land_drawn, land_mask, Draws, lemma_palms_same, one_piece, palms_on_coast, spaced, spaced_land, starts_for};
use crate::rules::START_GOLD;
use crate::hexgrid::{in_grid, ix, lemma_ix_bounds, lemma_ix_inj};
use crate::mapgen::distinct_hexes;
use crate::rules::{land_hex, sea_hex, Hex, Tree};
use crate::text::owned;
use crate::territory::{blank_mask, board_ok, cell, mask_to_hexes};
use vstd::prelude::*;

verus! {

/// `p` is a land hex of the custom island that lies on its board.
pub open spec fn custom_land_has(c: CustomSpec, p: (i32, i32)) -> bool {
    &&& c.land@.contains(p)
    &&& 0 <= p.0 < c.cols
    &&& 0 <= p.1 < c.rows
}

/// The land of the custom island that lies on its board.
pub open spec fn custom_land(c: CustomSpec) -> Set<(i32, i32)> {
    Set::new(|p: (i32, i32)| custom_land_has(c, p))
}

/// The first `k` listed starts that lie on the island's land, each kept
/// once, in the listed order.
pub open spec fn kept_starts(c: CustomSpec, k: int) -> Seq<(i32, i32)>
    decreases k,
{
    if k <= 0 {
        seq![]
    } else {
        let prev = kept_starts(c, k - 1);
        let p = c.starts@[k - 1];
        if custom_land_has(c, p) && !prev.contains(p) {
            prev.push(p)
        } else {
            prev
        }
    }
}

/// All the kept starts of the custom island.
pub open spec fn custom_starts(c: CustomSpec) -> Seq<(i32, i32)> {
    kept_starts(c, c.starts@.len() as int)
}

/// A custom island is used when its board is between 4 by 4 and 24 by 18,
/// it has at least 12 land hexes on the board, and two to four starts on land.
pub open spec fn custom_ok(c: CustomSpec) -> bool {
    &&& 4 <= c.cols <= 24
    &&& 4 <= c.rows <= 18
    &&& custom_land(c).len() >= 12
    &&& 2 <= custom_starts(c).len() <= 4
}

proof fn lemma_kept_starts(c: CustomSpec, k: int)
    requires
        0 <= k <= c.starts@.len(),
    ensures
        distinct_hexes(kept_starts(c, k)),
        forall|i: int| 0 <= i < kept_starts(c, k).len() ==> custom_land_has(c, #[trigger] kept_starts(c, k)[i]),
        kept_starts(c, k).len() <= k,
    decreases k,
{
    if k > 0 {
        lemma_kept_starts(c, k - 1);
        let prev = kept_starts(c, k - 1);
        let p = c.starts@[k - 1];
        if custom_land_has(c, p) && !prev.contains(p) {
            let cur = prev.push(p);
            assert forall|i: int, j: int| 0 <= i < cur.len() && 0 <= j < cur.len() && i != j implies #[trigger] cur[i]
                != #[trigger] cur[j] by {
                if i < prev.len() && j < prev.len() {
                } else if i < prev.len() {
                    assert(prev.contains(prev[i]));
                } else {
                    assert(prev.contains(prev[j]));
                }
            }
            assert forall|i: int| 0 <= i < cur.len() implies custom_land_has(c, #[trigger] cur[i]) by {
                if i < prev.len() {
                    assert(cur[i] == prev[i]);
                }
            }
        }
    }
}

/// The land and the starts of a custom island when it may be used: the
/// land in (column, row) order, the starts as kept. `None` otherwise.
pub fn validate_custom(c: &CustomSpec) -> (r: Option<(Vec<(i32, i32)>, Vec<(i32, i32)>)>)
    ensures
        r is Some <==> custom_ok(*c),
        r matches Some((land, starts)) ==> {
            &&& sorted_hexes(land@)
            &&& forall|p: (i32, i32)| #[trigger] land@.contains(p) <==> custom_land_has(*c, p)
            &&& starts@ == custom_starts(*c)
        },
{
    if !(c.cols >= 4 && c.rows >= 4 && c.cols <= 24 && c.rows <= 18) {
        return None;
    }
    let cols = c.cols;
    let rows = c.rows;
    let ghost cc = cols as int;
    let ghost rr = rows as int;
    proof {
        assert(0 < cc * rr <= 24 * 18) by (nonlinear_arith)
            requires
                4 <= cc <= 24,
                4 <= rr <= 18,
        ;
    }
    let n = (cols * rows) as usize;
    let mut mask = blank_mask(n);
    proof {
        assert forall|q: (i32, i32)| in_grid(cc, rr, q) implies (#[trigger] mask@[ix(cc, q)] <==> exists|j: int|
            0 <= j < 0 && c.land@[j] == q) by {
            lemma_ix_bounds(cc, rr, q);
        }
    }
    let mut k: usize = 0;
    while k < c.land.len()
        invariant
            4 <= cc <= 24,
            4 <= rr <= 18,
            cc == cols,
            rr == rows,
            cols == c.cols,
            rows == c.rows,
            n == cc * rr,
            mask@.len() == n,
            k <= c.land@.len(),
            forall|q: (i32, i32)|
                in_grid(cc, rr, q) ==> (#[trigger] mask@[ix(cc, q)] <==> exists|j: int| 0 <= j < k && c.land@[j] == q),
        decreases c.land@.len() - k,
    {
        let p = c.land[k];
        if p.0 >= 0 && p.0 < cols && p.1 >= 0 && p.1 < rows {
            let i = cell(cols, rows, p);
            mask.set(i, true);
            proof {
                assert forall|q: (i32, i32)| in_grid(cc, rr, q) implies (#[trigger] mask@[ix(cc, q)] <==> exists|j: int|
                    0 <= j < k + 1 && c.land@[j] == q) by {
                    lemma_ix_bounds(cc, rr, q);
                    if ix(cc, q) == ix(cc, p) {
                        lemma_ix_inj(cc, rr, p, q);
                        assert(c.land@[k as int] == q);
                    }
                }
            }
        } else {
            proof {
                assert forall|q: (i32, i32)| in_grid(cc, rr, q) implies (#[trigger] mask@[ix(cc, q)] <==> exists|j: int|
                    0 <= j < k + 1 && c.land@[j] == q) by {
                    if exists|j: int| 0 <= j < k + 1 && c.land@[j] == q {
                        let j = choose|j: int| 0 <= j < k + 1 && c.land@[j] == q;
                        if j == k {
                            assert(!in_grid(cc, rr, q));
                        }
                    }
                }
            }
        }
        k += 1;
    }
    let land = mask_to_hexes(cols, rows, &mask);
    proof {
        assert forall|p: (i32, i32)| #[trigger] land@.contains(p) <==> custom_land_has(*c, p) by {
            if custom_land_has(*c, p) {
                let j = choose|j: int| 0 <= j < c.land@.len() && c.land@[j] == p;
                assert(exists|jj: int| 0 <= jj < c.land@.len() && c.land@[jj] == p);
            }
            if land@.contains(p) {
                let j = choose|j: int| 0 <= j < c.land@.len() && c.land@[j] == p;
                assert(c.land@.contains(p));
            }
        }
        assert(land@.no_duplicates()) by {
            assert forall|i: int, j: int| 0 <= i < land@.len() && 0 <= j < land@.len() && i != j implies land@[i]
                != land@[j] by {
                if i < j {
                    assert(lex_lt(land@[i], land@[j]));
                } else {
                    assert(lex_lt(land@[j], land@[i]));
                }
            }
        }
        land@.unique_seq_to_set();
        assert(land@.to_set() =~= custom_land(*c));
    }
    let mut starts: Vec<(i32, i32)> = Vec::new();
    let mut k: usize = 0;
    while k < c.starts.len()
        invariant
            k <= c.starts@.len(),
            starts@ == kept_starts(*c, k as int),
            forall|p: (i32, i32)| #[trigger] land@.contains(p) <==> custom_land_has(*c, p),
        decreases c.starts@.len() - k,
    {
        let p = c.starts[k];
        if crate::game::has_hex(&land, p) && !crate::game::has_hex(&starts, p) {
            starts.push(p);
        }
        k += 1;
    }
    proof {
        lemma_kept_starts(*c, c.starts@.len() as int);
    }
    if land.len() >= 12 && starts.len() >= 2 && starts.len() <= 4 {
        Some((land, starts))
    } else {
        None
    }
}

/// How many of the first `k` land hexes are not starts.
pub open spec fn wild_rank(land: Seq<(i32, i32)>, starts: Seq<(i32, i32)>, k: int) -> int
    decreases k,
{
    if k <= 0 {
        0
    } else {
        wild_rank(land, starts, k - 1) + if !starts.contains(land[k - 1]) {
            1int
        } else {
            0int
        }
    }
}

/// The seat whose start is `q`, or -1.
pub open spec fn start_owner(starts: Seq<(i32, i32)>, q: (i32, i32)) -> i8 {
    if starts.contains(q) {
        (choose|k: int| 0 <= k < starts.len() && starts[k] == q) as i8
    } else {
        -1i8
    }
}

/// A pine grows on `q` of the painted island: `q` is a wild land hex
/// (not a start) and the wild hexes before it number a multiple of nine.
pub open spec fn painted_pine(land: Seq<(i32, i32)>, starts: Seq<(i32, i32)>, q: (i32, i32)) -> bool {
    exists|k: int|
        0 <= k < land.len() && #[trigger] land[k] == q && !starts.contains(q) && wild_rank(land, starts, k) % 9 == 0
}

/// The hex at `q` of a painted island: sea off the land; on land the
/// start's seat or none, and a pine on every ninth wild hex from the first.
pub open spec fn painted_hex(land: Seq<(i32, i32)>, starts: Seq<(i32, i32)>, q: (i32, i32)) -> Hex {
    if land.contains(q) {
        Hex {
            owner: start_owner(starts, q),
            tree: if painted_pine(land, starts, q) {
                Some(Tree::Pine)
            } else {
                None
            },
            ..land_hex()
        }
    } else {
        sea_hex()
    }
}

impl Game {
    /// Paints the hand-made island: its land, each start owned by its seat,
    /// and a pine on every ninth wild hex.
    fn paint_custom(&mut self, land: &Vec<(i32, i32)>, starts: &Vec<(i32, i32)>)
        requires
            old(self).dims_ok(),
            old(self).players@.len() == starts@.len(),
            starts@.len() <= 4,
            sorted_hexes(land@),
            forall|i: int| 0 <= i < land@.len() ==> old(self).inside(#[trigger] land@[i]),
            distinct_hexes(starts@),
            forall|k: int| 0 <= k < starts@.len() ==> land@.contains(#[trigger] starts@[k]),
        ensures
            final(self).same_but_map(old(self)),
            final(self).dims_ok(),
            final(self).arch@ == "Custom"@,
            final(self).starts@ == starts@,
            forall|q: (i32, i32)| final(self).inside(q) ==> #[trigger] final(self).hex_at(q) == painted_hex(land@, starts@, q),
    {
        let ghost pre = *self;
        let ghost c = self.cols as int;
        let ghost r = self.rows as int;
        self.arch = owned("Custom");
        let n = self.grid.len();
        let mut g: Vec<Hex> = Vec::new();
        let mut i: usize = 0;
        while i < n
            invariant
                1 <= c <= 64,
                1 <= r <= 64,
                c == self.cols,
                n == c * r,
                i <= n,
                g@.len() == i,
                forall|j: int| 0 <= j < i ==> #[trigger] g@[j] == if land@.contains(crate::hexgrid::point_of(c, j)) {
                    land_hex()
                } else {
                    sea_hex()
                },
            decreases n - i,
        {
            proof {
                crate::hexgrid::lemma_point_of(c, r, i as int);
            }
            let x = (i % (self.cols as usize)) as i32;
            let y = (i / (self.cols as usize)) as i32;
            if crate::game::has_hex(land, (x, y)) {
                g.push(Hex::land());
            } else {
                g.push(Hex::sea());
            }
            i += 1;
        }
        self.grid = g;
        let mut st: Vec<(i32, i32)> = Vec::new();
        let mut k: usize = 0;
        while k < starts.len()
            invariant
                k <= starts@.len(),
                st@ == starts@.take(k as int),
            decreases starts@.len() - k,
        {
            st.push(starts[k]);
            k += 1;
        }
        proof {
            assert(starts@.take(starts@.len() as int) =~= starts@);
        }
        self.starts = st;
        proof {
            assert forall|q: (i32, i32)| self.inside(q) implies #[trigger] self.hex_at(q) == if land@.contains(q) {
                land_hex()
            } else {
                sea_hex()
            } by {
                lemma_ix_bounds(c, r, q);
                crate::hexgrid::lemma_point_of(c, r, ix(c, q));
                lemma_ix_inj(c, r, q, crate::hexgrid::point_of(c, ix(c, q)));
            }
        }
        // each start belongs to its seat
        let mut k: usize = 0;
        while k < starts.len()
            invariant
                self.same_but_map(&pre),
                self.dims_ok(),
                self.arch@ == "Custom"@,
                self.starts@ == starts@,
                c == self.cols,
                r == self.rows,
                starts@.len() <= 4,
                distinct_hexes(starts@),
                forall|u: int| 0 <= u < starts@.len() ==> land@.contains(#[trigger] starts@[u]),
                forall|u: int| 0 <= u < land@.len() ==> self.inside(#[trigger] land@[u]),
                k <= starts@.len(),
                forall|q: (i32, i32)| self.inside(q) ==> #[trigger] self.hex_at(q) == if land@.contains(q) {
                    Hex {
                        owner: if exists|u: int| 0 <= u < k && starts@[u] == q {
                            start_owner(starts@, q)
                        } else {
                            -1i8
                        },
                        ..land_hex()
                    }
                } else {
                    sea_hex()
                },
            decreases starts@.len() - k,
        {
            let p = starts[k];
            proof {
                assert(land@.contains(starts@[k as int]));
                let j = choose|j: int| 0 <= j < land@.len() && land@[j] == p;
                assert(self.inside(land@[j]));
            }
            let i = cell(self.cols, self.rows, p);
            let mut h = self.grid[i];
            h.owner = k as i8;
            let ghost before = *self;
            self.grid.set(i, h);
            proof {
                assert(start_owner(starts@, p) == k as i8) by {
                    assert(starts@.contains(p));
                    let u = choose|u: int| 0 <= u < starts@.len() && starts@[u] == p;
                    assert(u == k);
                }
                assert forall|q: (i32, i32)| self.inside(q) implies #[trigger] self.hex_at(q) == if land@.contains(q) {
                    Hex {
                        owner: if exists|u: int| 0 <= u < k + 1 && starts@[u] == q {
                            start_owner(starts@, q)
                        } else {
                            -1i8
                        },
                        ..land_hex()
                    }
                } else {
                    sea_hex()
                } by {
                    lemma_ix_bounds(c, r, q);
                    if q == p {
                        assert(before.hex_at(q) == (Hex { owner: -1i8, ..land_hex() })) by {
                            if exists|u: int| 0 <= u < k && starts@[u] == q {
                                let u = choose|u: int| 0 <= u < k && starts@[u] == q;
                                assert(starts@[u] != starts@[k as int]);
                            }
                        }
                    } else {
                        if ix(c, q) == i as int {
                            lemma_ix_inj(c, r, q, p);
                        }
                        assert(self.hex_at(q) == before.hex_at(q));
                        if exists|u: int| 0 <= u < k + 1 && starts@[u] == q {
                            let u = choose|u: int| 0 <= u < k + 1 && starts@[u] == q;
                            assert(u < k);
                        }
                    }
                }
            }
            k += 1;
        }
        // a pine on every ninth wild hex
        let mut w: usize = 0;
        let mut m: usize = 0;
        while m < land.len()
            invariant
                self.same_but_map(&pre),
                self.dims_ok(),
                self.arch@ == "Custom"@,
                self.starts@ == starts@,
                c == self.cols,
                r == self.rows,
                sorted_hexes(land@),
                forall|u: int| 0 <= u < land@.len() ==> self.inside(#[trigger] land@[u]),
                m <= land@.len(),
                w == wild_rank(land@, starts@, m as int),
                w <= m,
                forall|q: (i32, i32)| self.inside(q) ==> #[trigger] self.hex_at(q) == if land@.contains(q) {
                    Hex {
                        owner: start_owner(starts@, q),
                        tree: if exists|kk: int|
                            0 <= kk < m && #[trigger] land@[kk] == q && !starts@.contains(q) && wild_rank(land@, starts@, kk) % 9
                                == 0 {
                            Some(Tree::Pine)
                        } else {
                            None
                        },
                        ..land_hex()
                    }
                } else {
                    sea_hex()
                },
            decreases land@.len() - m,
        {
            let p = land[m];
            proof {
                assert(self.inside(land@[m as int]));
            }
            if !crate::game::has_hex(starts, p) {
                if w % 9 == 0 {
                    let i = cell(self.cols, self.rows, p);
                    let mut h = self.grid[i];
                    h.tree = Some(Tree::Pine);
                    let ghost before = *self;
                    self.grid.set(i, h);
                    proof {
                        assert forall|q: (i32, i32)| self.inside(q) implies #[trigger] self.hex_at(q) == if land@.contains(q) {
                            Hex {
                                owner: start_owner(starts@, q),
                                tree: if exists|kk: int|
                                    0 <= kk < m + 1 && #[trigger] land@[kk] == q && !starts@.contains(q) && wild_rank(land@, starts@, kk)
                                        % 9 == 0 {
                                    Some(Tree::Pine)
                                } else {
                                    None
                                },
                                ..land_hex()
                            }
                        } else {
                            sea_hex()
                        } by {
                            lemma_ix_bounds(c, r, q);
                            if q == p {
                                assert(land@.contains(q));
                                assert(land@[m as int] == q);
                            } else {
                                if ix(c, q) == i as int {
                                    lemma_ix_inj(c, r, q, p);
                                }
                                assert(self.hex_at(q) == before.hex_at(q));
                                if exists|kk: int|
                                    0 <= kk < m + 1 && #[trigger] land@[kk] == q && !starts@.contains(q) && wild_rank(land@, starts@, kk) % 9
                                        == 0 {
                                    let kk = choose|kk: int|
                                        0 <= kk < m + 1 && #[trigger] land@[kk] == q && !starts@.contains(q) && wild_rank(land@, starts@, kk)
                                            % 9 == 0;
                                    assert(kk < m);
                                }
                            }
                        }
                    }
                } else {
                    proof {
                        self.lemma_pine_step(land@, starts@, m as int);
                    }
                }
                w += 1;
            } else {
                proof {
                    self.lemma_pine_step(land@, starts@, m as int);
                }
            }
            m += 1;
        }
        proof {
            assert forall|q: (i32, i32)| self.inside(q) implies #[trigger] self.hex_at(q) == painted_hex(land@, starts@, q) by {
                if land@.contains(q) {
                    if painted_pine(land@, starts@, q) {
                        let kk = choose|kk: int|
                            0 <= kk < land@.len() && #[trigger] land@[kk] == q && !starts@.contains(q) && wild_rank(land@, starts@, kk) % 9
                                == 0;
                        assert(land@[kk] == q);
                    }
                }
            }
        }
    }

    /// A land hex that gets no pine leaves the pines unchanged.
    proof fn lemma_pine_step(&self, land: Seq<(i32, i32)>, starts: Seq<(i32, i32)>, m: int)
        requires
            sorted_hexes(land),
            0 <= m < land.len(),
            starts.contains(land[m]) || wild_rank(land, starts, m) % 9 != 0,
            forall|q: (i32, i32)| self.inside(q) ==> #[trigger] self.hex_at(q) == if land.contains(q) {
                Hex {
                    owner: start_owner(starts, q),
                    tree: if exists|kk: int|
                        0 <= kk < m && #[trigger] land[kk] == q && !starts.contains(q) && wild_rank(land, starts, kk) % 9 == 0 {
                        Some(Tree::Pine)
                    } else {
                        None
                    },
                    ..land_hex()
                }
            } else {
                sea_hex()
            },
        ensures
            forall|q: (i32, i32)| self.inside(q) ==> #[trigger] self.hex_at(q) == if land.contains(q) {
                Hex {
                    owner: start_owner(starts, q),
                    tree: if exists|kk: int|
                        0 <= kk < m + 1 && #[trigger] land[kk] == q && !starts.contains(q) && wild_rank(land, starts, kk) % 9
                            == 0 {
                        Some(Tree::Pine)
                    } else {
                        None
                    },
                    ..land_hex()
                }
            } else {
                sea_hex()
            },
    {
        assert forall|q: (i32, i32)| self.inside(q) implies #[trigger] self.hex_at(q) == if land.contains(q) {
            Hex {
                owner: start_owner(starts, q),
                tree: if exists|kk: int|
                    0 <= kk < m + 1 && #[trigger] land[kk] == q && !starts.contains(q) && wild_rank(land, starts, kk) % 9
                        == 0 {
                    Some(Tree::Pine)
                } else {
                    None
                },
                ..land_hex()
            }
        } else {
            sea_hex()
        } by {
            if exists|kk: int|
                0 <= kk < m + 1 && #[trigger] land[kk] == q && !starts.contains(q) && wild_rank(land, starts, kk) % 9 == 0 {
                let kk = choose|kk: int|
                    0 <= kk < m + 1 && #[trigger] land[kk] == q && !starts.contains(q) && wild_rank(land, starts, kk) % 9 == 0;
                if kk == m {
                    assert(false);
                }
            }
        }
    }
}

/// The number of computer opponents asked for, held between one and three.
pub open spec fn clamp_enemies(e: u8) -> u8 {
    if e < 1 {
        1
    } else if e > 3 {
        3
    } else {
        e
    }
}

/// Board size of a generated island: small, medium or large.
pub open spec fn size_dims(size: u8) -> (i32, i32) {
    if size == 0 {
        (12, 9)
    } else if size == 1 {
        (15, 11)
    } else {
        (18, 13)
    }
}

/// The hand-painted island is used.
pub open spec fn custom_used(custom: Option<CustomSpec>) -> bool {
    custom matches Some(c) && custom_ok(c)
}

/// Number of seats: one per start of a used custom island, else the
/// player and the clamped number of opponents.
pub open spec fn seat_count(enemies: u8, custom: Option<CustomSpec>) -> int {
    match custom {
        Some(c) => if custom_ok(c) {
            custom_starts(c).len() as int
        } else {
            clamp_enemies(enemies) + 1
        },
        None => clamp_enemies(enemies) + 1,
    }
}

/// The human seats: those asked for that are seats, or the first seat
/// alone when none is.
pub open spec fn humans_spec(hs: Seq<i8>, n: int) -> Seq<i8> {
    let f = hs.filter(|o: i8| 0 <= o < n);
    if f.len() == 0 {
        seq![0i8]
    } else {
        f
    }
}

/// The opening treasury of territory `i`: 25 for the player's home on
/// the tutorial, otherwise the start gold.
pub open spec fn opening_gold(g: &Game, i: int) -> int {
    if g.tutorial && g.starts@.len() > 0 && g.terr_of(g.starts@[0]) == Some(i as usize) && g.terrs@[i].owner == 0 {
        25
    } else {
        START_GOLD as int
    }
}

/// The two opening messages.
pub open spec fn opening_log() -> Seq<Seq<char>> {
    seq!["Buy peasants, grow, combine into armies."@, "Cut enemies in half - the poor side starves."@]
}

impl Game {
    /// A painted island is a fresh board.
    proof fn lemma_painted_fresh(&self, land: Seq<(i32, i32)>, starts: Seq<(i32, i32)>)
        requires
            self.dims_ok(),
            self.players@.len() == starts.len(),
            starts.len() <= 4,
            self.starts@ == starts,
            distinct_hexes(starts),
            forall|k: int| 0 <= k < starts.len() ==> land.contains(#[trigger] starts[k]),
            forall|k: int| 0 <= k < land.len() ==> self.inside(#[trigger] land[k]),
            forall|q: (i32, i32)| self.inside(q) ==> #[trigger] self.hex_at(q) == painted_hex(land, starts, q),
        ensures
            self.fresh_board(),
    {
        let c = self.cols as int;
        let r = self.rows as int;
        assert forall|k: int| 0 <= k < starts.len() implies start_owner(starts, #[trigger] starts[k]) == k by {
            assert(starts.contains(starts[k]));
            let u = choose|u: int| 0 <= u < starts.len() && starts[u] == starts[k];
            if u != k {
                assert(starts[u] != starts[k]);
            }
            assert(u == k);
            assert(0 <= u < 4);
        }
        assert forall|i: int| 0 <= i < self.grid@.len() implies {
            let h = #[trigger] self.grid@[i];
            &&& h.unit == 0 && !h.acted && !h.castle && !h.grave
            &&& h.water ==> h.owner == -1 && h.tree is None
            &&& -1 <= h.owner < self.players@.len()
            &&& h.owner != -1 ==> h.tree is None
        } by {
            crate::hexgrid::lemma_point_of(c, r, i);
            let q = crate::hexgrid::point_of(c, i);
            assert(self.hex_at(q) == painted_hex(land, starts, q));
            if land.contains(q) && starts.contains(q) {
                let u = choose|u: int| 0 <= u < starts.len() && starts[u] == q;
                assert(start_owner(starts, starts[u]) == u);
            }
        }
        assert forall|k: int|
            0 <= k < starts.len() implies self.inside(#[trigger] starts[k]) && !self.hex_at(starts[k]).water
                && self.hex_at(starts[k]).owner == k by {
            assert(land.contains(starts[k]));
            let j = choose|j: int| 0 <= j < land.len() && land[j] == starts[k];
            assert(self.inside(land[j]));
        }
        assert forall|p: (i32, i32)| self.inside(p) && #[trigger] self.hex_at(p).owner != -1 implies starts.contains(p) by {
            assert(self.hex_at(p) == painted_hex(land, starts, p));
        }
    }

    /// Sets every treasury to the start gold, and the player's home to 25
    /// on the tutorial.
    fn open_treasuries(&mut self)
        requires
            old(self).wf(),
            total_gold(old(self).terrs@) == 0,
        ensures
            final(self).wf(),
            final(self).same_setup(old(self)),
            final(self).grid@ == old(self).grid@,
            final(self).round == old(self).round,
            final(self).current == old(self).current,
            final(self).log@ == old(self).log@,
            final(self).sel == old(self).sel,
            final(self).focus == old(self).focus,
            final(self).terrs@.len() == old(self).terrs@.len(),
            forall|i: int|
                0 <= i < final(self).terrs@.len() ==> (#[trigger] final(self).terrs@[i]).hexes@ == old(self).terrs@[i].hexes@
                    && final(self).terrs@[i].owner == old(self).terrs@[i].owner && final(self).terrs@[i].capital
                    == old(self).terrs@[i].capital && final(self).terrs@[i].savings == opening_gold(final(self), i),
    {
        self.fund_all();
        self.grant_home();
    }

    /// Every treasury holds the start gold.
    fn fund_all(&mut self)
        requires
            old(self).wf(),
            total_gold(old(self).terrs@) == 0,
        ensures
            final(self).wf(),
            final(self).same_setup(old(self)),
            final(self).grid@ == old(self).grid@,
            final(self).round == old(self).round,
            final(self).current == old(self).current,
            final(self).log@ == old(self).log@,
            final(self).sel == old(self).sel,
            final(self).focus == old(self).focus,
            final(self).terrs@.len() == old(self).terrs@.len(),
            forall|i: int|
                0 <= i < final(self).terrs@.len() ==> (#[trigger] final(self).terrs@[i]).hexes@ == old(self).terrs@[i].hexes@
                    && final(self).terrs@[i].owner == old(self).terrs@[i].owner && final(self).terrs@[i].capital
                    == old(self).terrs@[i].capital && final(self).terrs@[i].savings == START_GOLD,
    {
        let ghost pre = *self;
        proof {
            pre.lemma_wf_sizes();
        }
        let n = self.terrs.len();
        let mut i: usize = 0;
        while i < n
            invariant
                pre.wf(),
                n == pre.terrs@.len(),
                n <= 16384,
                self.same_setup(&pre),
                self.grid@ == pre.grid@,
                self.round == pre.round,
                self.current == pre.current,
                self.log@ == pre.log@,
                self.sel == pre.sel,
                self.focus == pre.focus,
                self.terrs@.len() == n,
                i <= n,
                forall|j: int|
                    0 <= j < n ==> (#[trigger] self.terrs@[j]).hexes@ == pre.terrs@[j].hexes@ && self.terrs@[j].owner
                        == pre.terrs@[j].owner && self.terrs@[j].capital == pre.terrs@[j].capital,
                forall|j: int| 0 <= j < n ==> (#[trigger] self.terrs@[j]).savings == if j < i {
                    START_GOLD
                } else {
                    pre.terrs@[j].savings
                },
                forall|j: int| 0 <= j < n ==> (#[trigger] self.terrs@[j]).savings >= 0,
                total_gold(self.terrs@) <= 10 * i,
            decreases n - i,
        {
            let ghost before = self.terrs@;
            let mut t = self.terrs.remove(i);
            t.savings = START_GOLD;
            self.terrs.insert(i, t);
            proof {
                assert(self.terrs@ =~= before.update(i as int, t));
                lemma_total_gold_update(before, i as int, t);
            }
            i += 1;
        }
        proof {
            assert(total_gold(self.terrs@) <= GOLD_CAP) by (nonlinear_arith)
                requires
                    total_gold(self.terrs@) <= 10 * n,
                    n <= 16384,
            ;
            assert forall|k: int| 0 <= k < self.terrs@.len() implies terr_shape(
                self.cols as int,
                self.rows as int,
                self.players@.len() as int,
                #[trigger] self.terrs@[k],
            ) by {
                assert(terr_shape(pre.cols as int, pre.rows as int, pre.players@.len() as int, pre.terrs@[k]));
            }
            assert forall|k: int| 0 <= k < self.grid@.len() implies (#[trigger] self.grid@[k]).water == pre.grid@[k].water
                && self.grid@[k].owner == pre.grid@[k].owner && self.grid@[k].unit <= 4 by {
                assert(crate::game::hex_ok(pre.grid@[k]));
            }
            self.lemma_same_land(&pre);
        }
    }

    /// On the tutorial the player's home territory holds 25 gold.
    fn grant_home(&mut self)
        requires
            old(self).wf(),
            forall|i: int| 0 <= i < old(self).terrs@.len() ==> (#[trigger] old(self).terrs@[i]).savings == START_GOLD,
        ensures
            final(self).wf(),
            final(self).same_setup(old(self)),
            final(self).grid@ == old(self).grid@,
            final(self).round == old(self).round,
            final(self).current == old(self).current,
            final(self).log@ == old(self).log@,
            final(self).sel == old(self).sel,
            final(self).focus == old(self).focus,
            final(self).terrs@.len() == old(self).terrs@.len(),
            forall|i: int|
                0 <= i < final(self).terrs@.len() ==> (#[trigger] final(self).terrs@[i]).hexes@ == old(self).terrs@[i].hexes@
                    && final(self).terrs@[i].owner == old(self).terrs@[i].owner && final(self).terrs@[i].capital
                    == old(self).terrs@[i].capital && final(self).terrs@[i].savings == opening_gold(final(self), i),
    {
        let ghost pre = *self;
        match self.home_territory() {
            Some(ti) => {
                let ghost before = self.terrs@;
                let mut t = self.terrs.remove(ti);
                t.savings = 25;
                self.terrs.insert(ti, t);
                proof {
                    assert(self.terrs@ =~= before.update(ti as int, t));
                    lemma_granted(&pre, self, ti as int);
                }
            },
            None => {},
        }
    }

    /// The player's territory at the first start, on the tutorial.
    fn home_territory(&self) -> (r: Option<usize>)
        requires
            self.wf(),
            forall|i: int| 0 <= i < self.terrs@.len() ==> (#[trigger] self.terrs@[i]).savings == START_GOLD,
        ensures
            match r {
                Some(ti) => {
                    &&& self.tutorial
                    &&& self.starts@.len() > 0
                    &&& ti < self.terrs@.len()
                    &&& self.terrs@[ti as int].hexes@.contains(self.starts@[0])
                    &&& self.terrs@[ti as int].owner == 0
                },
                None => forall|i: int| 0 <= i < self.terrs@.len() ==> (#[trigger] self.terrs@[i]).savings == opening_gold(self, i),
            },
    {
        if self.tutorial && self.starts.len() > 0 {
            let s0 = self.starts[0];
            match self.terr_at(s0.0, s0.1) {
                Some(ti) => {
                    if self.terrs[ti].owner == 0 {
                        return Some(ti);
                    }
                    proof {
                        lemma_not_granted(self, Some(ti));
                    }
                    None
                },
                None => {
                    proof {
                        lemma_not_granted(self, None);
                    }
                    None
                },
            }
        } else {
            proof {
                lemma_not_granted(self, None);
            }
            None
        }
    }
}

/// Treasuries all holding `v` sum to `v` per territory.
proof fn lemma_total_gold_const(ts: Seq<Terr>, v: int)
    requires
        forall|i: int| 0 <= i < ts.len() ==> (#[trigger] ts[i]).savings == v,
    ensures
        total_gold(ts) == v * ts.len(),
    decreases ts.len(),
{
    if ts.len() > 0 {
        let d = ts.drop_last();
        assert forall|i: int| 0 <= i < d.len() implies (#[trigger] d[i]).savings == v by {
            assert(d[i] == ts[i]);
        }
        lemma_total_gold_const(d, v);
        assert(v * (d.len() as int) + v == v * (ts.len() as int)) by (nonlinear_arith)
            requires
                d.len() + 1 == ts.len(),
        ;
    }
}

/// Granting 25 gold to the player's home keeps the game well-formed and
/// gives every territory its opening gold.
proof fn lemma_granted(pre: &Game, post: &Game, ti: int)
    requires
        pre.wf(),
        forall|i: int| 0 <= i < pre.terrs@.len() ==> (#[trigger] pre.terrs@[i]).savings == START_GOLD,
        pre.tutorial,
        pre.starts@.len() > 0,
        0 <= ti < pre.terrs@.len(),
        pre.terrs@[ti].hexes@.contains(pre.starts@[0]),
        pre.terrs@[ti].owner == 0,
        post.terrs@ == pre.terrs@.update(ti, Terr { savings: 25, ..pre.terrs@[ti] }),
        post.same_setup(pre),
        post.grid@ == pre.grid@,
        post.log@ == pre.log@,
    ensures
        post.wf(),
        forall|j: int| 0 <= j < post.terrs@.len() ==> (#[trigger] post.terrs@[j]).savings == opening_gold(post, j),
{
    pre.lemma_wf_sizes();
    let s0 = pre.starts@[0];
    lemma_total_gold_const(pre.terrs@, 10);
    lemma_total_gold_update(pre.terrs@, ti, Terr { savings: 25, ..pre.terrs@[ti] });
    assert(total_gold(post.terrs@) <= GOLD_CAP) by (nonlinear_arith)
        requires
            total_gold(post.terrs@) == 10 * pre.terrs@.len() - 10 + 25,
            pre.terrs@.len() <= 16384,
    ;
    assert forall|k: int| 0 <= k < post.terrs@.len() implies terr_shape(
        post.cols as int,
        post.rows as int,
        post.players@.len() as int,
        #[trigger] post.terrs@[k],
    ) by {
        assert(terr_shape(pre.cols as int, pre.rows as int, pre.players@.len() as int, pre.terrs@[k]));
    }
    assert forall|k: int| 0 <= k < post.grid@.len() implies (#[trigger] post.grid@[k]).water == pre.grid@[k].water
        && post.grid@[k].owner == pre.grid@[k].owner && post.grid@[k].unit <= 4 by {
        assert(crate::game::hex_ok(pre.grid@[k]));
    }
    post.lemma_same_land(pre);
    post.lemma_terr_of(ti, s0);
}

/// The board, land and starts of the hand-painted island when it is used.
fn pick_custom(custom: &Option<CustomSpec>) -> (r: Option<(i32, i32, Vec<(i32, i32)>, Vec<(i32, i32)>)>)
    ensures
        r is Some <==> custom_used(*custom),
        r matches Some(pk) ==> {
            let c = custom.unwrap();
            &&& pk.0 == c.cols
            &&& pk.1 == c.rows
            &&& 4 <= pk.0 <= 24
            &&& 4 <= pk.1 <= 18
            &&& sorted_hexes(pk.2@)
            &&& forall|p: (i32, i32)| #[trigger] pk.2@.contains(p) <==> custom_land_has(c, p)
            &&& forall|i: int| 0 <= i < pk.2@.len() ==> in_grid(pk.0 as int, pk.1 as int, #[trigger] pk.2@[i])
            &&& pk.3@ == custom_starts(c)
            &&& 2 <= pk.3@.len() <= 4
            &&& distinct_hexes(pk.3@)
            &&& forall|k: int| 0 <= k < pk.3@.len() ==> pk.2@.contains(#[trigger] pk.3@[k])
        },
{
    match custom {
        Some(c) => match validate_custom(c) {
            Some((land, st)) => {
                proof {
                    lemma_kept_starts(*c, c.starts@.len() as int);
                    assert forall|i: int| 0 <= i < land@.len() implies in_grid(c.cols as int, c.rows as int, #[trigger] land@[i]) by {
                        assert(land@.contains(land@[i]));
                    }
                    assert forall|k: int| 0 <= k < st@.len() implies land@.contains(#[trigger] st@[k]) by {
                        assert(custom_land_has(*c, st@[k]));
                    }
                }
                Some((c.cols, c.rows, land, st))
            },
            None => None,
        },
        None => None,
    }
}

/// Without a grant every territory holds the start gold, as it should.
proof fn lemma_not_granted(g: &Game, found: Option<usize>)
    requires
        g.wf(),
        forall|i: int| 0 <= i < g.terrs@.len() ==> (#[trigger] g.terrs@[i]).savings == START_GOLD,
        g.tutorial && g.starts@.len() > 0 ==> found == g.terr_of(g.starts@[0]),
        g.tutorial && g.starts@.len() > 0 ==> match found {
            Some(ti) => ti < g.terrs@.len() && g.terrs@[ti as int].owner != 0,
            None => true,
        },
    ensures
        forall|i: int| 0 <= i < g.terrs@.len() ==> (#[trigger] g.terrs@[i]).savings == opening_gold(g, i),
{
    g.lemma_wf_sizes();
    assert forall|i: int| 0 <= i < g.terrs@.len() implies (#[trigger] g.terrs@[i]).savings == opening_gold(g, i) by {
        if g.tutorial && g.starts@.len() > 0 {
            match found {
                Some(ti) => {
                    if (i as usize) == ti {
                        assert(i == ti as int);
                    }
                },
                None => {},
            }
        }
    }
}

/// How the island was drawn reads only the board, its size and its kind.
proof fn lemma_drawn_frame(a: &Game, b: &Game)
    requires
        b.grid@ == a.grid@,
        b.cols == a.cols,
        b.rows == a.rows,
        b.arch@ == a.arch@,
        exists|kind: Seq<char>, tries: Seq<Draws>, last: Draws|
            #[trigger] land_drawn(a.cols as int, a.rows as int, kind, tries, last, a.arch@, land_mask(a)),
    ensures
        exists|kind: Seq<char>, tries: Seq<Draws>, last: Draws|
            #[trigger] land_drawn(b.cols as int, b.rows as int, kind, tries, last, b.arch@, land_mask(b)),
{
    let (kind, tries, last) = choose|kind: Seq<char>, tries: Seq<Draws>, last: Draws|
        #[trigger] land_drawn(a.cols as int, a.rows as int, kind, tries, last, a.arch@, land_mask(a));
    assert(land_mask(b) == land_mask(a));
    assert(land_drawn(b.cols as int, b.rows as int, kind, tries, last, b.arch@, land_mask(b)));
}

/// Whether the starts must be spread reads only the board, the starts and
/// the seats.
proof fn lemma_spaced_frame(a: &Game, b: &Game)
    requires
        b.grid@ == a.grid@,
        b.starts@ == a.starts@,
        b.players@ == a.players@,
        b.cols == a.cols,
        b.rows == a.rows,
        (exists|w: Seq<(i32, i32)>| #[trigger] spaced_land(a, w) && w.len() == a.players@.len()) ==> spaced(a.starts@),
    ensures
        (exists|w: Seq<(i32, i32)>| #[trigger] spaced_land(b, w) && w.len() == b.players@.len()) ==> spaced(b.starts@),
{
    if exists|w: Seq<(i32, i32)>| #[trigger] spaced_land(b, w) && w.len() == b.players@.len() {
        let w = choose|w: Seq<(i32, i32)>| #[trigger] spaced_land(b, w) && w.len() == b.players@.len();
        assert forall|j: int| 0 <= j < w.len() implies a.inside(#[trigger] w[j]) && !a.hex_at(w[j]).water by {
            assert(b.inside(w[j]) && !b.hex_at(w[j]).water);
        }
        assert(spaced_land(a, w));
    }
}

/// Fresh boards depend on the board, the starts and the seats alone.
proof fn lemma_fresh_frame(a: &Game, b: &Game)
    requires
        a.fresh_board(),
        b.grid@ == a.grid@,
        b.starts@ == a.starts@,
        b.players@ == a.players@,
        b.cols == a.cols,
        b.rows == a.rows,
    ensures
        b.fresh_board(),
{
    assert forall|p: (i32, i32)| b.inside(p) && #[trigger] b.hex_at(p).owner != -1 implies b.starts@.contains(p) by {
        assert(a.hex_at(p) == b.hex_at(p));
    }
    assert forall|k: int|
        0 <= k < b.starts@.len() implies b.inside(#[trigger] b.starts@[k]) && !b.hex_at(b.starts@[k]).water
            && b.hex_at(b.starts@[k]).owner == k by {
        assert(a.hex_at(a.starts@[k]) == b.hex_at(b.starts@[k]));
    }
}

/// The territories of a new game in seat order: territory `i` belongs to
/// seat `i` and is its start hex alone, without a house.
pub open spec fn seat_terrs(g: &Game) -> bool {
    &&& g.terrs@.len() == g.starts@.len()
    &&& forall|i: int|
        0 <= i < g.terrs@.len() ==> (#[trigger] g.terrs@[i]).owner == i && g.terrs@[i].hexes@ == seq![g.starts@[i]]
            && g.terrs@[i].capital is None
}

/// Some territory of `ts` belongs to seat `k`.
pub open spec fn seat_listed(ts: Seq<Terr>, k: int) -> bool {
    exists|a: int| 0 <= a < ts.len() && #[trigger] ts[a].owner == k
}

/// Owners that rise strictly along `ts`, stay below `n`, and include every
/// seat below `n` are the seats in order.
proof fn lemma_owners_in_order(ts: Seq<Terr>, n: int, i: int)
    requires
        0 <= i < ts.len(),
        forall|a: int, b: int| 0 <= a < b < ts.len() ==> (#[trigger] ts[a]).owner < (#[trigger] ts[b]).owner,
        forall|a: int| 0 <= a < ts.len() ==> 0 <= #[trigger] ts[a].owner < n,
        forall|k: int| 0 <= k < n ==> #[trigger] seat_listed(ts, k),
    ensures
        ts[i].owner == i,
    decreases i,
{
    if i > 0 {
        lemma_owners_in_order(ts, n, i - 1);
    }
    assert(ts[i].owner >= i) by {
        if i > 0 {
            assert(ts[i - 1].owner < ts[i].owner);
        }
    }
    let k = i;
    assert(k < n);
    assert(seat_listed(ts, k));
    let a = choose|a: int| 0 <= a < ts.len() && #[trigger] ts[a].owner == k;
    if a < i {
        assert(ts[a].owner < ts[i].owner);
        if a < i - 1 || i == 0 {
            if i > 0 {
                lemma_owners_in_order(ts, n, a);
            }
        }
    } else if a > i {
        assert(ts[i].owner < ts[a].owner);
    }
}

/// On a fresh board whose territories are counted, the territories are the
/// start hexes alone, in seat order.
proof fn lemma_fresh_terrs(g: &Game)
    requires
        g.dims_ok(),
        g.fresh_board(),
        g.terrs_shape_ok(),
        g.terrs_partition(),
        crate::territory::terrs_ordered(g.terrs@),
    ensures
        seat_terrs(g),
{
    reveal(Game::terrs_partition);
    let ts = g.terrs@;
    let n = g.starts@.len() as int;
    // each territory is the start hex of its owner
    assert forall|i: int| 0 <= i < ts.len() implies 0 <= (#[trigger] ts[i]).owner < n && ts[i].hexes@ == seq![
        g.starts@[ts[i].owner as int],
    ] && ts[i].capital is None by {
        let t = ts[i];
        assert(terr_shape(g.cols as int, g.rows as int, g.players@.len() as int, t));
        assert(g.terr_fits(t));
        let p0 = t.hexes@[0];
        assert(t.hexes@.contains(p0));
        assert(g.land_of(t.owner).contains(p0));
        assert(g.starts@.contains(p0));
        let k = choose|k: int| 0 <= k < n && g.starts@[k] == p0;
        assert(g.hex_at(g.starts@[k]).owner == k);
        assert(t.owner == k);
        if t.hexes@.len() > 1 {
            let p1 = t.hexes@[1];
            assert(t.hexes@.contains(p1));
            assert(g.land_of(t.owner).contains(p1));
            assert(g.starts@.contains(p1));
            let k1 = choose|k1: int| 0 <= k1 < n && g.starts@[k1] == p1;
            assert(g.hex_at(g.starts@[k1]).owner == k1);
            assert(k1 == k);
            assert(lex_lt(p0, p1));
            assert(false);
        }
        assert(t.hexes@ =~= seq![g.starts@[k]]);
    }
    // owners rise strictly
    assert forall|a: int, b: int| 0 <= a < b < ts.len() implies (#[trigger] ts[a]).owner < (#[trigger] ts[b]).owner by {
        if ts[a].owner == ts[b].owner {
            let p = g.starts@[ts[a].owner as int];
            assert(ts[a].hexes@[0] == p);
            assert(ts[a].hexes@.contains(p));
            assert(ts[b].hexes@[0] == p);
            assert(ts[b].hexes@.contains(p));
        }
    }
    // every seat with a start has its territory
    assert forall|k: int| 0 <= k < n implies #[trigger] seat_listed(ts, k) by {
        let p = g.starts@[k];
        assert(g.inside(p) && !g.hex_at(p).water && g.hex_at(p).owner == k);
        assert(g.hex_at(p) == g.hex_at(p));
        let a = choose|a: int| 0 <= a < ts.len() && #[trigger] ts[a].hexes@.contains(p);
        let q = ts[a].hexes@[0];
        assert(ts[a].hexes@ == seq![q]);
        assert(q == p);
        assert(g.hex_at(q).owner == ts[a].owner) by {
            assert(g.land_of(ts[a].owner).contains(q));
        }
        assert(ts[a].owner == k);
    }
    assert forall|i: int| 0 <= i < ts.len() implies (#[trigger] ts[i]).owner == i by {
        lemma_owners_in_order(ts, n, i);
    }
    if ts.len() < n {
        let k = n - 1;
        assert(seat_listed(ts, k));
        let a = choose|a: int| 0 <= a < ts.len() && #[trigger] ts[a].owner == k;
        assert(ts[a].owner == a);
    }
    if ts.len() > n {
        assert(ts[n].owner == n);
    }
}

impl Game {
    /// A new game. The seed is the one given, or else read from the clock.
    /// A hand-painted island that passes its checks is used as it is, with
    /// one seat per start; otherwise an island is generated for the board
    /// size (12 by 9, 15 by 11 or 18 by 13) with the player and one to three
    /// opponents. Human seats are those asked for that exist, or the first.
    /// Territories are counted, every treasury holds the start gold (25 for
    /// the player's home on the tutorial), and two hints open the log.
    #[verifier::rlimit(60)]
    pub fn new(
        seed: Option<u64>,
        enemies: u8,
        difficulty: &str,
        size: u8,
        humans: Vec<i8>,
        tutorial: bool,
        custom: Option<CustomSpec>,
    ) -> (g: Game)
        ensures
            g.wf(),
            g.players@.len() == seat_count(enemies, custom),
            g.humans@ == humans_spec(humans@, seat_count(enemies, custom)),
            g.enemies == clamp_enemies(enemies),
            g.size == size,
            g.difficulty@ == difficulty@,
            g.tutorial == tutorial,
            g.custom == custom,
            seed matches Some(s) ==> g.seed == s,
            seed is None ==> exists|n: Option<u128>| g.seed == #[trigger] crate::rng::seed_from_nanos_spec(n),
            g.round == 1,
            g.current == 0,
            g.sel is None,
            g.focus is None,
            g.fresh_board(),
            custom_used(custom) ==> {
                let c = custom.unwrap();
                &&& g.cols == c.cols
                &&& g.rows == c.rows
                &&& g.arch@ == "Custom"@
                &&& g.starts@ == custom_starts(c)
                &&& exists|land: Seq<(i32, i32)>|
                    sorted_hexes(land) && (forall|p: (i32, i32)| #[trigger] land.contains(p) <==> custom_land_has(c, p))
                        && forall|q: (i32, i32)| g.inside(q) ==> #[trigger] g.hex_at(q) == painted_hex(land, g.starts@, q)
            },
            !custom_used(custom) ==> (g.cols, g.rows) == size_dims(size) && Game::arch_generated(g.arch@),
            !custom_used(custom) ==> one_piece(g.cols as int, g.rows as int, land_mask(&g)),
            !custom_used(custom) ==> count_true(land_mask(&g)) >= 25 || g.arch@ == "Isle"@,
            !custom_used(custom) ==> count_true(land_mask(&g)) > 0,
            !custom_used(custom) ==> ((exists|w: Seq<(i32, i32)>| #[trigger] spaced_land(&g, w) && w.len() == g.players@.len())
                ==> spaced(g.starts@)),
            !custom_used(custom) ==> exists|kind: Seq<char>, tries: Seq<Draws>, last: Draws|
                #[trigger] land_drawn(g.cols as int, g.rows as int, kind, tries, last, g.arch@, land_mask(&g)),
            !custom_used(custom) ==> exists|c: Seq<(i32, i32)>|
                #[trigger] starts_for(c, g.players@.len() as int) == g.starts@ && distinct_hexes(c)
                    && (forall|p: (i32, i32)| c.contains(p) <==> g.inside(p) && !g.hex_at(p).water)
                    && g.starts@.len() == if g.players@.len() < c.len() {
                    g.players@.len() as int
                } else {
                    c.len() as int
                },
            forall|i: int| 0 <= i < g.terrs@.len() ==> (#[trigger] g.terrs@[i]).savings == opening_gold(&g, i),
            log_view(g.log@) == opening_log(),
            palms_on_coast(&g),
            seat_terrs(&g),
    {
        let seed = match seed {
            Some(s) => s,
            None => crate::rng::clock_seed(),
        };
        let picked = pick_custom(&custom);
        let ghost used = custom_used(custom);
        let clamped: u8 = if enemies < 1 {
            1
        } else if enemies > 3 {
            3
        } else {
            enemies
        };
        let (cols, rows): (i32, i32) = match &picked {
            Some(pk) => (pk.0, pk.1),
            None => if size == 0 {
                (12, 9)
            } else if size == 1 {
                (15, 11)
            } else {
                (18, 13)
            },
        };
        let seats: usize = match &picked {
            Some(pk) => pk.3.len(),
            None => clamped as usize + 1,
        };
        proof {
            match &custom {
                Some(c) => {
                    if custom_ok(*c) {
                        lemma_kept_starts(*c, c.starts@.len() as int);
                    }
                },
                None => {},
            }
            assert(picked is Some <==> used);
            assert(2 <= seats <= 4);
            assert(seats == seat_count(enemies, custom));
        }
        // the human seats
        let ghost pred = |o: i8| 0 <= o < seats as int;
        let mut hs: Vec<i8> = Vec::new();
        let mut k: usize = 0;
        while k < humans.len()
            invariant
                k <= humans@.len(),
                2 <= seats <= 4,
                pred == (|o: i8| 0 <= o < seats as int),
                hs@ == humans@.take(k as int).filter(pred),
            decreases humans@.len() - k,
        {
            let o = humans[k];
            proof {
                assert(humans@.take(k + 1).drop_last() =~= humans@.take(k as int));
                assert(humans@.take(k + 1).last() == o);
                reveal(Seq::filter);
            }
            if o >= 0 && (o as usize) < seats {
                hs.push(o);
            }
            k += 1;
        }
        proof {
            assert(humans@.take(humans@.len() as int) =~= humans@);
        }
        if hs.len() == 0 {
            hs.push(0);
            proof {
                assert(hs@ =~= seq![0i8]);
            }
        }
        // the seats
        let mut players: Vec<i8> = Vec::new();
        let mut k: usize = 0;
        while k < seats
            invariant
                k <= seats,
                seats <= 4,
                players@.len() == k,
                forall|i: int| 0 <= i < k ==> #[trigger] players@[i] == i,
            decreases seats - k,
        {
            players.push(k as i8);
            k += 1;
        }
        // an empty sea
        proof {
            assert(0 < cols * rows <= 24 * 18) by (nonlinear_arith)
                requires
                    4 <= cols <= 24,
                    4 <= rows <= 18,
            ;
        }
        let n = (cols * rows) as usize;
        let mut grid: Vec<crate::rules::Hex> = Vec::new();
        let mut k: usize = 0;
        while k < n
            invariant
                k <= n,
                grid@.len() == k,
                forall|i: int| 0 <= i < k ==> #[trigger] grid@[i] == crate::rules::sea_hex(),
            decreases n - k,
        {
            grid.push(crate::rules::Hex::sea());
            k += 1;
        }
        let mut g = Game {
            cols,
            rows,
            seed,
            arch: String::new(),
            difficulty: owned(difficulty),
            enemies: clamped,
            size,
            players,
            round: 1,
            current: 0,
            grid,
            terrs: Vec::new(),
            log: Vec::new(),
            sel: None,
            focus: None,
            starts: Vec::new(),
            humans: hs,
            tutorial,
            custom,
            rng: crate::rng::rng_from_seed(seed ^ 0x9e3779b97f4a7c15),
        };
        let ghost g0 = g;
        match &picked {
            Some(pk) => {
                g.paint_custom(&pk.2, &pk.3);
                proof {
                    g.lemma_painted_fresh(pk.2@, pk.3@);
                    assert(forall|q: (i32, i32)| g.inside(q) ==> #[trigger] g.hex_at(q) == painted_hex(pk.2@, g.starts@, q));
                }
            },
            None => {
                g.gen();
            },
        }
        proof {
            assert forall|i: int| 0 <= i < g.grid@.len() implies crate::game::hex_ok(#[trigger] g.grid@[i]) by {}
            assert(g.terrs@.len() == 0);
            assert(total_gold(g.terrs@) == 0);
        }
        let ghost g1 = g;
        g.recompute();
        proof {
            assert(total_gold(g.terrs@) == 0) by {
                assert(total_gold(g1.terrs@) == 0);
                if g.terrs@.len() > 0 {
                    assert forall|k: int| 0 <= k < g.terrs@.len() implies (#[trigger] g.terrs@[k]).savings >= 0 by {
                        assert(terr_shape(g.cols as int, g.rows as int, g.players@.len() as int, g.terrs@[k]));
                    }
                    crate::economy::lemma_savings_le_total(g.terrs@, 0);
                }
            }
            lemma_fresh_frame(&g1, &g);
            lemma_fresh_terrs(&g);
        }
        let ghost g2 = g;
        g.open_treasuries();
        let ghost g3 = g;
        g.say("Buy peasants, grow, combine into armies.");
        g.say("Cut enemies in half - the poor side starves.");
        proof {
            lemma_fresh_frame(&g2, &g);
            assert(log_view(g.log@) =~= opening_log());
            g.lemma_wf_off_board(&g3);
            assert forall|i: int| 0 <= i < g.terrs@.len() implies (#[trigger] g.terrs@[i]).savings == opening_gold(&g, i) by {
                assert(g3.terrs@[i].savings == opening_gold(&g3, i));
            }
            assert forall|i: int| 0 <= i < g.terrs@.len() implies (#[trigger] g.terrs@[i]).owner == i && g.terrs@[i].hexes@
                == seq![g.starts@[i]] && g.terrs@[i].capital is None by {
                assert(g2.terrs@[i].owner == i);
            }
            if picked is None {
                assert(g.grid@ == g1.grid@);
                lemma_palms_same(&g1, &g);
                let c = choose|c: Seq<(i32, i32)>|
                    #[trigger] starts_for(c, g1.players@.len() as int) == g1.starts@ && distinct_hexes(c)
                        && (forall|p: (i32, i32)| c.contains(p) <==> g1.inside(p) && !g1.hex_at(p).water)
                        && g1.starts@.len() == if g1.players@.len() < c.len() {
                        g1.players@.len() as int
                    } else {
                        c.len() as int
                    };
                assert(starts_for(c, g.players@.len() as int) == g.starts@);
                assert(land_mask(&g) == land_mask(&g1));
                lemma_spaced_frame(&g1, &g);
                lemma_drawn_frame(&g1, &g);
            }
            if let Some(pk) = picked {
                assert(g.grid@ == g1.grid@);
                assert forall|q: (i32, i32)| g.inside(q) implies #[trigger] g.hex_at(q) == painted_hex(pk.2@, g.starts@, q) by {
                    assert(g1.hex_at(q) == painted_hex(pk.2@, g1.starts@, q));
                }
                assert forall|q: (i32, i32)|
                    g.inside(q) && #[trigger] g.hex_at(q).tree == Some(Tree::Palm) implies exists|n: (i32, i32)|
                        #[trigger] g.adj(q, n) && g.hex_at(n).water by {
                    assert(g.hex_at(q) == painted_hex(pk.2@, g.starts@, q));
                }
            }
        }
        g
    }
}

} // verus!
