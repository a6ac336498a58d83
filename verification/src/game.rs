//! The game state, its well-formedness, and the queries on territories and
//! players that every rule uses.
use crate::hexgrid::{
    adjacent, fits_i32, grid_neighbours, in_grid, ix, lemma_ix_bounds, nbrs, reachable,
};
use crate::territory::{board_ok, cell};
use crate::rules::{player_name_spec, wage, wage_spec, Hex, BUY_PEASANT, MAX_RANK};
use rand::rngs::StdRng;
use vstd::prelude::*;

verus! {

/// Total gold the treasuries may hold together; no reachable game comes near.
pub const GOLD_CAP: i64 = 1152921504606846976;

/// Longest side of a board.
pub const MAX_SIDE: i32 = 64;

/// A connected region of one owner's land, with its own treasury.
#[derive(Clone, Debug)]
pub struct Terr {
    pub owner: i8,
    /// The hexes, in increasing (column, row) order.
    pub hexes: Vec<(i32, i32)>,
    pub savings: i64,
    /// The house, present when the territory has at least two hexes.
    pub capital: Option<(i32, i32)>,
}

/// A hand-painted island for the level creator.
#[derive(Clone, Debug)]
pub struct CustomSpec {
    pub cols: i32,
    pub rows: i32,
    pub land: Vec<(i32, i32)>,
    pub starts: Vec<(i32, i32)>,
}

pub struct Game {
    pub cols: i32,
    pub rows: i32,
    pub seed: u64,
    pub arch: String,
    pub difficulty: String,
    pub enemies: u8,
    pub size: u8,
    pub players: Vec<i8>,
    pub round: u32,
    pub current: i8,
    pub grid: Vec<Hex>,
    pub terrs: Vec<Terr>,
    pub log: Vec<String>,
    pub sel: Option<(i32, i32)>,
    pub focus: Option<(i32, i32)>,
    pub starts: Vec<(i32, i32)>,
    pub humans: Vec<i8>,
    pub tutorial: bool,
    pub custom: Option<CustomSpec>,
    pub rng: StdRng,
}

// ---------- specifications of territories ----------

/// `a` comes before `b` in (column, row) order.
pub open spec fn lex_lt(a: (i32, i32), b: (i32, i32)) -> bool {
    a.0 < b.0 || (a.0 == b.0 && a.1 < b.1)
}

/// Strictly increasing in (column, row) order, hence free of repeats.
pub open spec fn sorted_hexes(s: Seq<(i32, i32)>) -> bool {
    forall|i: int, j: int| 0 <= i < j < s.len() ==> lex_lt(#[trigger] s[i], #[trigger] s[j])
}

/// Sum of all treasuries.
pub open spec fn total_gold(ts: Seq<Terr>) -> int
    decreases ts.len(),
{
    if ts.len() == 0 {
        0
    } else {
        total_gold(ts.drop_last()) + ts.last().savings
    }
}

/// Number of hexes held in the territories of owner `o`.
pub open spec fn owned_count(ts: Seq<Terr>, o: i8) -> int
    decreases ts.len(),
{
    if ts.len() == 0 {
        0
    } else {
        owned_count(ts.drop_last(), o) + if ts.last().owner == o {
            ts.last().hexes@.len() as int
        } else {
            0
        }
    }
}

/// Indices of the territories of owner `o`, in order.
pub open spec fn terr_indices(ts: Seq<Terr>, o: i8) -> Seq<usize>
    decreases ts.len(),
{
    if ts.len() == 0 {
        seq![]
    } else if ts.last().owner == o {
        terr_indices(ts.drop_last(), o).push((ts.len() - 1) as usize)
    } else {
        terr_indices(ts.drop_last(), o)
    }
}

/// The territory that lists `p`, the first one when several do.
pub open spec fn terr_index_of(ts: Seq<Terr>, p: (i32, i32)) -> Option<usize> {
    if exists|i: int| 0 <= i < ts.len() && ts[i].hexes@.contains(p) {
        Some(
            (choose|i: int|
                0 <= i < ts.len() && ts[i].hexes@.contains(p) && forall|j: int|
                    0 <= j < i ==> !ts[j].hexes@.contains(p)) as usize,
        )
    } else {
        None
    }
}

/// The shape of one territory: owner, sorted on-board hexes, treasury, house.
pub open spec fn terr_shape(cols: int, rows: int, nplayers: int, t: Terr) -> bool {
    &&& 0 <= t.owner < nplayers
    &&& 1 <= t.hexes@.len() <= cols * rows
    &&& sorted_hexes(t.hexes@)
    &&& forall|i: int| 0 <= i < t.hexes@.len() ==> in_grid(cols, rows, #[trigger] t.hexes@[i])
    &&& t.savings >= 0
    &&& match t.capital {
        Some(c) => t.hexes@.len() >= 2 && t.hexes@.contains(c),
        None => t.hexes@.len() == 1,
    }
}

/// No hex is listed by two territories.
pub open spec fn terrs_disjoint(ts: Seq<Terr>) -> bool {
    forall|i: int, j: int, p: (i32, i32)|
        0 <= i < ts.len() && 0 <= j < ts.len() && i != j && #[trigger] ts[i].hexes@.contains(p)
            ==> !#[trigger] ts[j].hexes@.contains(p)
}

pub open spec fn hex_ok(h: Hex) -> bool {
    &&& h.unit <= MAX_RANK
    &&& h.water ==> h.owner == -1
}

impl Game {
    pub open spec fn cells(&self) -> int {
        self.cols as int * self.rows as int
    }

    pub open spec fn inside(&self, p: (i32, i32)) -> bool {
        in_grid(self.cols as int, self.rows as int, p)
    }

    /// The hex at board position `p`.
    pub open spec fn hex_at(&self, p: (i32, i32)) -> Hex {
        self.grid@[ix(self.cols as int, p)]
    }

    pub open spec fn adj(&self, p: (i32, i32), q: (i32, i32)) -> bool {
        adjacent(self.cols as int, self.rows as int, p, q)
    }

    /// Grid position of `(x, y)` is computed without overflow and is a
    /// valid index of the grid.
    pub open spec fn index_ok(&self, x: i32, y: i32) -> bool {
        &&& fits_i32((y as int) * (self.cols as int))
        &&& 0 <= (y as int) * (self.cols as int) + (x as int) < self.grid@.len()
    }

    /// The land hexes of owner `o`.
    pub open spec fn land_of(&self, o: i8) -> Set<(i32, i32)> {
        Set::new(
            |p: (i32, i32)| self.inside(p) && !self.hex_at(p).water && self.hex_at(p).owner == o,
        )
    }

    pub open spec fn dims_ok(&self) -> bool {
        &&& 1 <= self.cols <= MAX_SIDE
        &&& 1 <= self.rows <= MAX_SIDE
        &&& self.grid@.len() == self.cells()
    }

    /// Seats are numbered from 0 in order; the first is the player.
    pub open spec fn players_ok(&self) -> bool {
        &&& 2 <= self.players@.len() <= 4
        &&& forall|i: int| 0 <= i < self.players@.len() ==> #[trigger] self.players@[i] == i
    }

    pub open spec fn grid_ok(&self) -> bool {
        forall|i: int|
            0 <= i < self.grid@.len() ==> hex_ok(#[trigger] self.grid@[i])
    }

    pub open spec fn terrs_shape_ok(&self) -> bool {
        &&& forall|i: int|
            0 <= i < self.terrs@.len() ==> terr_shape(
                self.cols as int,
                self.rows as int,
                self.players@.len() as int,
                #[trigger] self.terrs@[i],
            )
        &&& self.terrs@.len() <= 4 * self.cells()
        &&& total_gold(self.terrs@) <= GOLD_CAP
    }

    /// A territory is exactly one connected region of its owner's land:
    /// its hexes are the owner's land, it holds every same-owner land
    /// neighbour of its hexes, and all of it is reachable from its first hex.
    pub open spec fn terr_fits(&self, t: Terr) -> bool {
        &&& forall|p: (i32, i32)| #[trigger]
            t.hexes@.contains(p) ==> self.land_of(t.owner).contains(p)
        &&& forall|p: (i32, i32), q: (i32, i32)|
            #![trigger t.hexes@.contains(p), t.hexes@.contains(q)]
            t.hexes@.contains(p) && self.adj(p, q) && self.land_of(t.owner).contains(q)
                ==> t.hexes@.contains(q)
        &&& forall|p: (i32, i32)| #[trigger]
            t.hexes@.contains(p) ==> reachable(
                self.cols as int,
                self.rows as int,
                self.land_of(t.owner),
                t.hexes@[0],
                p,
            )
    }

    /// Every land hex a player owns lies in a territory.
    pub open spec fn terrs_cover(&self) -> bool {
        forall|p: (i32, i32)|
            #![trigger self.hex_at(p)]
            self.inside(p) && !self.hex_at(p).water && 0 <= self.hex_at(p).owner < self.players@.len()
                ==> exists|i: int|
                0 <= i < self.terrs@.len() && #[trigger] self.terrs@[i].hexes@.contains(p)
    }

    /// The territories are the connected regions of the players' land.
    #[verifier::opaque]
    pub open spec fn terrs_partition(&self) -> bool {
        &&& forall|i: int| 0 <= i < self.terrs@.len() ==> self.terr_fits(#[trigger] self.terrs@[i])
        &&& terrs_disjoint(self.terrs@)
        &&& self.terrs_cover()
    }

    pub open spec fn humans_ok(&self) -> bool {
        &&& self.humans@.len() >= 1
        &&& forall|i: int|
            0 <= i < self.humans@.len() ==> 0 <= #[trigger] self.humans@[i] < self.players@.len()
    }

    /// The invariant every game keeps between moves.
    pub open spec fn wf(&self) -> bool {
        &&& self.dims_ok()
        &&& self.players_ok()
        &&& self.grid_ok()
        &&& self.terrs_shape_ok()
        &&& self.terrs_partition()
        &&& self.humans_ok()
        &&& self.log@.len() <= 4
    }
}

impl Game {
    /// The parts of a game that no move changes.
    pub open spec fn same_setup(&self, other: &Game) -> bool {
        &&& self.cols == other.cols
        &&& self.rows == other.rows
        &&& self.seed == other.seed
        &&& self.arch == other.arch
        &&& self.difficulty == other.difficulty
        &&& self.enemies == other.enemies
        &&& self.size == other.size
        &&& self.players@ == other.players@
        &&& self.humans@ == other.humans@
        &&& self.tutorial == other.tutorial
        &&& self.custom == other.custom
        &&& self.starts@ == other.starts@
    }
}

impl Game {
    /// Everything but the random generator is the same.
    pub open spec fn same_except_rng(&self, other: &Game) -> bool {
        &&& self.same_setup(other)
        &&& self.grid@ == other.grid@
        &&& self.terrs@ == other.terrs@
        &&& self.log@ == other.log@
        &&& self.round == other.round
        &&& self.current == other.current
        &&& self.sel == other.sel
        &&& self.focus == other.focus
    }
}

// ---------- grid ----------

impl Game {
    /// Index of hex `(x, y)` in a row-major grid of `cols` columns.
    pub fn idx(cols: i32, x: i32, y: i32) -> (i: usize)
        requires
            fits_i32(y as int * cols as int),
            fits_i32(y as int * cols as int + x as int),
        ensures
            i == (y as int * cols as int + x as int) as usize,
    {
        (y * cols + x) as usize
    }

    pub fn in_bounds(&self, x: i32, y: i32) -> (b: bool)
        ensures
            b == self.inside((x, y)),
    {
        x >= 0 && x < self.cols && y >= 0 && y < self.rows
    }

    /// The on-board neighbours of `(x, y)`, in the board's fixed order.
    pub fn neighbours(&self, x: i32, y: i32) -> (out: Vec<(i32, i32)>)
        requires
            i32::MIN < x < i32::MAX,
            i32::MIN < y < i32::MAX,
        ensures
            out@ == nbrs(self.cols as int, self.rows as int, x, y),
    {
        grid_neighbours(self.cols, self.rows, x, y)
    }

    pub fn player_name(o: i8) -> (r: &'static str)
        ensures
            r@ == player_name_spec(o),
    {
        match o {
            0 => "You",
            1 => "Karg",
            2 => "Vex",
            3 => "Mord",
            _ => "?",
        }
    }
}

/// `a` and `b` are the same hex.
pub fn same_hex(a: (i32, i32), b: (i32, i32)) -> (r: bool)
    ensures
        r == (a == b),
{
    a.0 == b.0 && a.1 == b.1
}

/// `v` lists `p`.
pub fn has_hex(v: &Vec<(i32, i32)>, p: (i32, i32)) -> (b: bool)
    ensures
        b == v@.contains(p),
{
    let mut i: usize = 0;
    while i < v.len()
        invariant
            i <= v@.len(),
            forall|j: int| 0 <= j < i ==> v@[j] != p,
        decreases v.len() - i,
    {
        let q = v[i];
        if q.0 == p.0 && q.1 == p.1 {
            return true;
        }
        i += 1;
    }
    false
}


// ---------- territory queries ----------

pub proof fn lemma_owned_count_prefix(ts: Seq<Terr>, o: i8, k: int)
    requires
        0 <= k <= ts.len(),
    ensures
        0 <= owned_count(ts.take(k), o) <= owned_count(ts, o),
    decreases ts.len(),
{
    if k < ts.len() {
        assert(ts.drop_last().take(k) =~= ts.take(k));
        lemma_owned_count_prefix(ts.drop_last(), o, k);
    } else {
        assert(ts.take(k) =~= ts);
        lemma_owned_count_nonneg(ts, o);
    }
}

pub proof fn lemma_owned_count_nonneg(ts: Seq<Terr>, o: i8)
    ensures
        owned_count(ts, o) >= 0,
    decreases ts.len(),
{
    if ts.len() > 0 {
        lemma_owned_count_nonneg(ts.drop_last(), o);
    }
}

/// Land of a territory that yields gold: no tree on it.
pub open spec fn clear_count(g: &Game, hs: Seq<(i32, i32)>) -> int
    decreases hs.len(),
{
    if hs.len() == 0 {
        0
    } else {
        clear_count(g, hs.drop_last()) + if g.hex_at(hs.last()).tree is None {
            1int
        } else {
            0
        }
    }
}

/// Wages the men on the listed hexes cost.
pub open spec fn wage_sum(g: &Game, hs: Seq<(i32, i32)>) -> int
    decreases hs.len(),
{
    if hs.len() == 0 {
        0
    } else {
        wage_sum(g, hs.drop_last()) + wage_spec(g.hex_at(hs.last()).unit)
    }
}

pub proof fn lemma_income_bounds(g: &Game, hs: Seq<(i32, i32)>)
    ensures
        0 <= clear_count(g, hs) <= hs.len(),
        0 <= wage_sum(g, hs) <= 54 * hs.len(),
    decreases hs.len(),
{
    if hs.len() > 0 {
        lemma_income_bounds(g, hs.drop_last());
    }
}

/// A hex that keeps its owner in the game: a man, a castle, or clear land.
pub open spec fn hex_keeps_alive(h: Hex) -> bool {
    h.unit != 0 || h.castle || h.tree is None
}

/// A hex where a peasant could be bought.
pub open spec fn hex_free(h: Hex) -> bool {
    h.unit == 0 && !h.castle && !h.grave
}

impl Game {
    /// The territory at `p`: the first one listing it.
    pub open spec fn terr_of(&self, p: (i32, i32)) -> Option<usize> {
        terr_index_of(self.terrs@, p)
    }

    /// Every hex of territory `ti` lies on the board.
    pub open spec fn terr_on_board(&self, ti: int) -> bool {
        &&& 0 <= ti < self.terrs@.len()
        &&& forall|i: int|
            0 <= i < self.terrs@[ti].hexes@.len() ==> self.inside(#[trigger] self.terrs@[ti].hexes@[i])
    }

    /// Gold territory `ti` earns: one per clear hex.
    pub open spec fn income_of(&self, ti: int) -> int {
        clear_count(self, self.terrs@[ti].hexes@)
    }

    /// Gold territory `ti` pays its men.
    pub open spec fn wages_of(&self, ti: int) -> int {
        wage_sum(self, self.terrs@[ti].hexes@)
    }

    /// Territory `t` can still act: some hex of it keeps it alive, or it can
    /// afford a peasant and has room for one.
    pub open spec fn terr_viable(&self, t: Terr) -> bool {
        (exists|p: (i32, i32)| #[trigger] t.hexes@.contains(p) && hex_keeps_alive(self.hex_at(p))) || (
        t.savings >= BUY_PEASANT && exists|p: (i32, i32)|
            #[trigger] t.hexes@.contains(p) && hex_free(self.hex_at(p)))
    }

    /// Owner `o` still has a territory that can act.
    pub open spec fn viable_spec(&self, o: i8) -> bool {
        exists|i: int|
            0 <= i < self.terrs@.len() && (#[trigger] self.terrs@[i]).owner == o && self.terr_viable(
                self.terrs@[i],
            )
    }

    /// Seats among the first `k` that still hold land and can act.
    pub open spec fn alive_upto(&self, k: int) -> Seq<i8>
        decreases k,
    {
        if k <= 0 {
            seq![]
        } else {
            let o = self.players@[k - 1];
            if owned_count(self.terrs@, o) > 0 && self.viable_spec(o) {
                self.alive_upto(k - 1).push(o)
            } else {
                self.alive_upto(k - 1)
            }
        }
    }

    pub open spec fn alive_spec(&self) -> Seq<i8> {
        self.alive_upto(self.players@.len() as int)
    }

    pub open spec fn winner_spec(&self) -> Option<i8> {
        if self.alive_spec().len() == 1 {
            Some(self.alive_spec()[0])
        } else {
            None
        }
    }

    /// All territories lie on the board, and each owner's hex count fits.
    pub open spec fn terrs_countable(&self) -> bool {
        &&& forall|i: int| 0 <= i < self.terrs@.len() ==> self.terr_on_board(i)
        &&& forall|o: i8| owned_count(self.terrs@, o) <= usize::MAX
    }

    /// The territory listing `(x, y)`, the first one if several do.
    pub fn terr_at(&self, x: i32, y: i32) -> (r: Option<usize>)
        ensures
            r == self.terr_of((x, y)),
            r matches Some(i) ==> i < self.terrs@.len() && self.terrs@[i as int].hexes@.contains((x, y)),
            r is None ==> forall|j: int|
                0 <= j < self.terrs@.len() ==> !(#[trigger] self.terrs@[j]).hexes@.contains((x, y)),
    {
        let ghost ts = self.terrs@;
        let mut i: usize = 0;
        while i < self.terrs.len()
            invariant
                ts == self.terrs@,
                i <= ts.len(),
                forall|j: int| 0 <= j < i ==> !(#[trigger] ts[j]).hexes@.contains((x, y)),
            decreases ts.len() - i,
        {
            if has_hex(&self.terrs[i].hexes, (x, y)) {
                proof {
                    let p = (x, y);
                    assert(exists|k: int| 0 <= k < ts.len() && ts[k].hexes@.contains(p));
                    let k = choose|k: int|
                        0 <= k < ts.len() && ts[k].hexes@.contains(p) && forall|j: int|
                            0 <= j < k ==> !ts[j].hexes@.contains(p);
                    assert(k == i);
                }
                return Some(i);
            }
            i += 1;
        }
        None
    }

    /// Indices of the territories of owner `o`, in order.
    pub fn terrs_of(&self, o: i8) -> (r: Vec<usize>)
        ensures
            r@ == terr_indices(self.terrs@, o),
    {
        let ghost ts = self.terrs@;
        let mut out: Vec<usize> = Vec::new();
        let mut i: usize = 0;
        while i < self.terrs.len()
            invariant
                ts == self.terrs@,
                i <= ts.len(),
                out@ == terr_indices(ts.take(i as int), o),
            decreases ts.len() - i,
        {
            proof {
                assert(ts.take(i + 1).drop_last() =~= ts.take(i as int));
            }
            if self.terrs[i].owner == o {
                out.push(i);
            }
            i += 1;
        }
        proof {
            assert(ts.take(ts.len() as int) =~= ts);
        }
        out
    }

    /// Number of hexes owner `o` holds.
    pub fn hexes_of(&self, o: i8) -> (n: usize)
        requires
            owned_count(self.terrs@, o) <= usize::MAX,
        ensures
            n == owned_count(self.terrs@, o),
    {
        let ghost ts = self.terrs@;
        let mut sum: usize = 0;
        let mut i: usize = 0;
        while i < self.terrs.len()
            invariant
                ts == self.terrs@,
                i <= ts.len(),
                owned_count(ts, o) <= usize::MAX,
                sum == owned_count(ts.take(i as int), o),
            decreases ts.len() - i,
        {
            proof {
                assert(ts.take(i + 1).drop_last() =~= ts.take(i as int));
                lemma_owned_count_prefix(ts, o, i + 1);
            }
            if self.terrs[i].owner == o {
                sum = sum + self.terrs[i].hexes.len();
            }
            i += 1;
        }
        proof {
            assert(ts.take(ts.len() as int) =~= ts);
        }
        sum
    }

    /// Gold territory `ti` earns each turn: one per hex without a tree.
    pub fn terr_income(&self, ti: usize) -> (inc: i64)
        requires
            self.dims_ok(),
            self.terr_on_board(ti as int),
            self.terrs@[ti as int].hexes@.len() <= 4096,
        ensures
            inc == self.income_of(ti as int),
            0 <= inc <= self.terrs@[ti as int].hexes@.len(),
    {
        let ghost hs = self.terrs@[ti as int].hexes@;
        let hexes = &self.terrs[ti].hexes;
        let mut n: i64 = 0;
        let mut i: usize = 0;
        while i < hexes.len()
            invariant
                self.dims_ok(),
                self.terr_on_board(ti as int),
                hs == hexes@,
                hs == self.terrs@[ti as int].hexes@,
                i <= hs.len(),
                hs.len() <= 4096,
                n == clear_count(self, hs.take(i as int)),
                0 <= n <= i,
            decreases hs.len() - i,
        {
            proof {
                assert(hs.take(i + 1).drop_last() =~= hs.take(i as int));
                assert(self.inside(hs[i as int]));
                lemma_ix_bounds(self.cols as int, self.rows as int, hs[i as int]);
            }
            let p = hexes[i];
            let k = cell(self.cols, self.rows, p);
            if self.grid[k].tree.is_none() {
                n = n + 1;
            }
            i += 1;
        }
        proof {
            assert(hs.take(hs.len() as int) =~= hs);
        }
        n
    }

    /// Gold territory `ti` pays its men each turn.
    pub fn terr_wages(&self, ti: usize) -> (w: i64)
        requires
            self.dims_ok(),
            self.terr_on_board(ti as int),
            self.terrs@[ti as int].hexes@.len() <= 4096,
        ensures
            w == self.wages_of(ti as int),
            0 <= w <= 54 * self.terrs@[ti as int].hexes@.len(),
    {
        let ghost hs = self.terrs@[ti as int].hexes@;
        let hexes = &self.terrs[ti].hexes;
        let mut n: i64 = 0;
        let mut i: usize = 0;
        while i < hexes.len()
            invariant
                self.dims_ok(),
                self.terr_on_board(ti as int),
                hs == hexes@,
                hs == self.terrs@[ti as int].hexes@,
                hs.len() <= 4096,
                i <= hs.len(),
                n == wage_sum(self, hs.take(i as int)),
                0 <= n <= 54 * i,
            decreases hs.len() - i,
        {
            proof {
                assert(hs.take(i + 1).drop_last() =~= hs.take(i as int));
                assert(self.inside(hs[i as int]));
                lemma_ix_bounds(self.cols as int, self.rows as int, hs[i as int]);
            }
            let p = hexes[i];
            let k = cell(self.cols, self.rows, p);
            n = n + wage(self.grid[k].unit);
            i += 1;
        }
        proof {
            assert(hs.take(hs.len() as int) =~= hs);
        }
        n
    }

    /// Territory `ti` can still act.
    fn terr_viable_exec(&self, ti: usize) -> (b: bool)
        requires
            self.dims_ok(),
            self.terr_on_board(ti as int),
        ensures
            b == self.terr_viable(self.terrs@[ti as int]),
    {
        let ghost t = self.terrs@[ti as int];
        let hexes = &self.terrs[ti].hexes;
        let mut i: usize = 0;
        while i < hexes.len()
            invariant
                self.dims_ok(),
                self.terr_on_board(ti as int),
                t == self.terrs@[ti as int],
                hexes@ == t.hexes@,
                i <= hexes@.len(),
                forall|k: int| 0 <= k < i ==> !hex_keeps_alive(self.hex_at(#[trigger] hexes@[k])),
            decreases hexes.len() - i,
        {
            proof {
                lemma_ix_bounds(self.cols as int, self.rows as int, hexes@[i as int]);
            }
            let p = hexes[i];
            let h = &self.grid[cell(self.cols, self.rows, p)];
            if h.unit != 0 || h.castle || h.tree.is_none() {
                assert(t.hexes@.contains(p));
                assert(hex_keeps_alive(self.hex_at(p)));
                return true;
            }
            i += 1;
        }
        proof {
            assert forall|p: (i32, i32)| #[trigger] t.hexes@.contains(p) implies !hex_keeps_alive(self.hex_at(p)) by {
                let k = choose|k: int| 0 <= k < t.hexes@.len() && t.hexes@[k] == p;
            }
        }
        if self.terrs[ti].savings >= BUY_PEASANT {
            let mut j: usize = 0;
            while j < hexes.len()
                invariant
                    self.dims_ok(),
                    self.terr_on_board(ti as int),
                    t == self.terrs@[ti as int],
                    hexes@ == t.hexes@,
                    j <= hexes@.len(),
                    t.savings >= BUY_PEASANT,
                    forall|k: int| 0 <= k < j ==> !hex_free(self.hex_at(#[trigger] hexes@[k])),
                decreases hexes.len() - j,
            {
                proof {
                    lemma_ix_bounds(self.cols as int, self.rows as int, hexes@[j as int]);
                }
                let p = hexes[j];
                let h = &self.grid[cell(self.cols, self.rows, p)];
                if h.unit == 0 && !h.castle && !h.grave {
                    assert(t.hexes@.contains(p));
                    assert(hex_free(self.hex_at(p)));
                    assert(t.savings >= BUY_PEASANT);
                    assert(exists|q: (i32, i32)| #[trigger] t.hexes@.contains(q) && hex_free(self.hex_at(q)));
                    return true;
                }
                j += 1;
            }
            proof {
                assert forall|p: (i32, i32)| #[trigger] t.hexes@.contains(p) implies !hex_free(self.hex_at(p)) by {
                    let k = choose|k: int| 0 <= k < t.hexes@.len() && t.hexes@[k] == p;
                }
            }
        }
        false
    }

    /// Owner `o` still has a territory that can act: one with a man, a
    /// castle or clear land, or gold for a peasant and room to place it.
    pub fn viable(&self, o: i8) -> (b: bool)
        requires
            self.dims_ok(),
            forall|i: int| 0 <= i < self.terrs@.len() ==> self.terr_on_board(i),
        ensures
            b == self.viable_spec(o),
    {
        let ghost ts = self.terrs@;
        let mut i: usize = 0;
        while i < self.terrs.len()
            invariant
                self.dims_ok(),
                ts == self.terrs@,
                forall|k: int| 0 <= k < ts.len() ==> self.terr_on_board(k),
                i <= ts.len(),
                forall|k: int|
                    0 <= k < i ==> !((#[trigger] ts[k]).owner == o && self.terr_viable(ts[k])),
            decreases ts.len() - i,
        {
            if self.terrs[i].owner == o && self.terr_viable_exec(i) {
                return true;
            }
            i += 1;
        }
        false
    }

    /// Seats that still hold land and can act, in seat order.
    pub fn alive(&self) -> (a: Vec<i8>)
        requires
            self.dims_ok(),
            self.terrs_countable(),
        ensures
            a@ == self.alive_spec(),
    {
        let mut out: Vec<i8> = Vec::new();
        let mut k: usize = 0;
        while k < self.players.len()
            invariant
                self.dims_ok(),
                self.terrs_countable(),
                k <= self.players@.len(),
                out@ == self.alive_upto(k as int),
            decreases self.players@.len() - k,
        {
            let o = self.players[k];
            if self.hexes_of(o) > 0 && self.viable(o) {
                out.push(o);
            }
            k += 1;
        }
        out
    }

    /// The last seat standing, if only one is.
    pub fn winner(&self) -> (w: Option<i8>)
        requires
            self.dims_ok(),
            self.terrs_countable(),
        ensures
            w == self.winner_spec(),
    {
        let a = self.alive();
        if a.len() == 1 {
            Some(a[0])
        } else {
            None
        }
    }
}


proof fn lemma_owned_count_bound(ts: Seq<Terr>, o: i8, m: int)
    requires
        forall|i: int| 0 <= i < ts.len() ==> (#[trigger] ts[i]).hexes@.len() <= m,
        m >= 0,
    ensures
        owned_count(ts, o) <= ts.len() * m,
    decreases ts.len(),
{
    if ts.len() > 0 {
        lemma_owned_count_bound(ts.drop_last(), o, m);
        assert((ts.len() - 1) * m + m == ts.len() * m) by (nonlinear_arith);
    }
}

impl Game {
    /// In a well-formed game an owner holds at most 2^26 hexes by count.
    pub proof fn lemma_owned_small(&self)
        requires
            self.wf(),
        ensures
            forall|o: i8| #[trigger] owned_count(self.terrs@, o) <= 67108864,
    {
        self.lemma_wf_sizes();
        assert forall|o: i8| #[trigger] owned_count(self.terrs@, o) <= 67108864 by {
            lemma_owned_count_bound(self.terrs@, o, 4096);
            assert(self.terrs@.len() * 4096 <= 16384 * 4096) by (nonlinear_arith)
                requires
                    self.terrs@.len() <= 16384,
            ;
        }
    }
}

impl Game {
    /// What every well-formed game gives the queries: bounded sizes, and
    /// territories on the board.
    pub proof fn lemma_wf_sizes(&self)
        requires
            self.wf(),
        ensures
            0 < self.cells() <= 4096,
            self.terrs_countable(),
            forall|i: int| 0 <= i < self.terrs@.len() ==> (#[trigger] self.terrs@[i]).hexes@.len() <= 4096,
            self.terrs@.len() <= 4 * 4096,
    {
        let c = self.cols as int;
        let r = self.rows as int;
        assert(0 < c * r <= 4096) by (nonlinear_arith)
            requires
                1 <= c <= 64,
                1 <= r <= 64,
        ;
        assert forall|i: int| 0 <= i < self.terrs@.len() implies self.terr_on_board(i) by {
            assert(terr_shape(c, r, self.players@.len() as int, self.terrs@[i]));
        }
        assert forall|i: int| 0 <= i < self.terrs@.len() implies (#[trigger] self.terrs@[i]).hexes@.len() <= 4096 by {
            assert(terr_shape(c, r, self.players@.len() as int, self.terrs@[i]));
        }
        assert forall|o: i8| owned_count(self.terrs@, o) <= usize::MAX by {
            lemma_owned_count_bound(self.terrs@, o, 4096);
            assert(self.terrs@.len() * 4096 <= 4 * 4096 * 4096) by (nonlinear_arith)
                requires
                    self.terrs@.len() <= 4 * 4096,
            ;
        }
    }
}


impl Game {
    /// A game whose board differs from a well-formed one only in men,
    /// castles, trees, graves and spent marks, with the same territories, is
    /// well-formed.
    pub proof fn lemma_same_land(&self, pre: &Game)
        requires
            pre.wf(),
            self.same_setup(pre),
            self.terrs@.len() == pre.terrs@.len(),
            forall|i: int|
                0 <= i < self.terrs@.len() ==> (#[trigger] self.terrs@[i]).hexes@ == pre.terrs@[i].hexes@
                    && self.terrs@[i].owner == pre.terrs@[i].owner,
            self.terrs_shape_ok(),
            self.log@.len() <= 4,
            self.grid@.len() == pre.grid@.len(),
            forall|i: int|
                0 <= i < self.grid@.len() ==> (#[trigger] self.grid@[i]).water == pre.grid@[i].water
                    && self.grid@[i].owner == pre.grid@[i].owner && self.grid@[i].unit <= MAX_RANK,
        ensures
            self.wf(),
            forall|o: i8| self.land_of(o) == pre.land_of(o),
    {
        reveal(Game::terrs_partition);
        assert forall|o: i8| self.land_of(o) == pre.land_of(o) by {
            assert forall|p: (i32, i32)| self.land_of(o).contains(p) <==> pre.land_of(o).contains(p) by {
                if self.inside(p) {
                    lemma_ix_bounds(self.cols as int, self.rows as int, p);
                }
            }
            assert(self.land_of(o) =~= pre.land_of(o));
        }
        assert forall|i: int| 0 <= i < self.terrs@.len() implies self.terr_fits(#[trigger] self.terrs@[i]) by {
            assert(pre.terr_fits(pre.terrs@[i]));
        }
        assert(terrs_disjoint(self.terrs@)) by {
            assert forall|i: int, j: int, p: (i32, i32)|
                0 <= i < self.terrs@.len() && 0 <= j < self.terrs@.len() && i != j && #[trigger] self.terrs@[i].hexes@.contains(p)
                    implies !#[trigger] self.terrs@[j].hexes@.contains(p) by {
                assert(pre.terrs@[i].hexes@.contains(p));
            }
        }
        assert forall|p: (i32, i32)|
            #![trigger self.hex_at(p)]
            self.inside(p) && !self.hex_at(p).water && 0 <= self.hex_at(p).owner < self.players@.len() implies exists|i: int|
                0 <= i < self.terrs@.len() && #[trigger] self.terrs@[i].hexes@.contains(p) by {
            lemma_ix_bounds(self.cols as int, self.rows as int, p);
            assert(pre.hex_at(p).owner == self.hex_at(p).owner);
            assert(!pre.hex_at(p).water);
            let i = choose|i: int| 0 <= i < pre.terrs@.len() && #[trigger] pre.terrs@[i].hexes@.contains(p);
            assert(self.terrs@[i].hexes@.contains(p));
        }
        assert forall|i: int| 0 <= i < self.grid@.len() implies hex_ok(#[trigger] self.grid@[i]) by {
            assert(hex_ok(pre.grid@[i]));
        }
    }
}

impl Game {
    /// Well-formedness does not depend on the log's messages, the
    /// generator, the selection, the round or the seat to play.
    pub proof fn lemma_wf_off_board(&self, pre: &Game)
        requires
            pre.wf(),
            self.same_setup(pre),
            self.grid@ == pre.grid@,
            self.terrs@ == pre.terrs@,
            self.log@.len() <= 4,
        ensures
            self.wf(),
    {
        reveal(Game::terrs_partition);
        assert forall|o: i8| self.land_of(o) == pre.land_of(o) by {
            assert(self.land_of(o) =~= pre.land_of(o));
        }
        assert forall|i: int| 0 <= i < self.terrs@.len() implies self.terr_fits(#[trigger] self.terrs@[i]) by {
            assert(pre.terr_fits(pre.terrs@[i]));
        }
        assert forall|p: (i32, i32)|
            #![trigger self.hex_at(p)]
            self.inside(p) && !self.hex_at(p).water && 0 <= self.hex_at(p).owner < self.players@.len() implies exists|i: int|
                0 <= i < self.terrs@.len() && #[trigger] self.terrs@[i].hexes@.contains(p) by {
            assert(pre.hex_at(p) == self.hex_at(p));
        }
        assert forall|i: int| 0 <= i < self.grid@.len() implies hex_ok(#[trigger] self.grid@[i]) by {
            assert(hex_ok(pre.grid@[i]));
        }
    }
}

impl Game {
    /// In a well-formed game the territory of a listed hex is the one that
    /// lists it.
    pub proof fn lemma_terr_of(&self, j: int, q: (i32, i32))
        requires
            self.wf(),
            0 <= j < self.terrs@.len(),
            self.terrs@[j].hexes@.contains(q),
        ensures
            self.terr_of(q) == Some(j as usize),
    {
        reveal(Game::terrs_partition);
        let ts = self.terrs@;
        assert(exists|i: int| 0 <= i < ts.len() && ts[i].hexes@.contains(q));
        let k = choose|k: int|
            0 <= k < ts.len() && ts[k].hexes@.contains(q) && forall|i: int| 0 <= i < k ==> !ts[i].hexes@.contains(q);
        assert(forall|i: int| 0 <= i < j ==> !ts[i].hexes@.contains(q));
        if k != j {
            assert(!ts[k].hexes@.contains(q) || !ts[j].hexes@.contains(q));
        }
    }

    /// In a well-formed game no hex is listed by two territories.
    pub proof fn lemma_disjoint(&self)
        requires
            self.wf(),
        ensures
            terrs_disjoint(self.terrs@),
    {
        reveal(Game::terrs_partition);
    }
}

/// Owners without territories hold no hexes.
proof fn lemma_owned_none(ts: Seq<Terr>, o: i8)
    requires
        forall|i: int| 0 <= i < ts.len() ==> (#[trigger] ts[i]).owner != o,
    ensures
        owned_count(ts, o) == 0,
    decreases ts.len(),
{
    if ts.len() > 0 {
        let d = ts.drop_last();
        assert forall|i: int| 0 <= i < d.len() implies (#[trigger] d[i]).owner != o by {
            assert(d[i] == ts[i]);
        }
        lemma_owned_none(d, o);
        assert(ts[ts.len() - 1].owner != o);
    }
}

/// An owner with a non-empty territory holds hexes.
proof fn lemma_owned_some(ts: Seq<Terr>, o: i8, i: int)
    requires
        0 <= i < ts.len(),
        ts[i].owner == o,
        ts[i].hexes@.len() >= 1,
    ensures
        owned_count(ts, o) >= 1,
    decreases ts.len(),
{
    let d = ts.drop_last();
    if i < ts.len() - 1 {
        assert(d[i] == ts[i]);
        lemma_owned_some(d, o, i);
    }
    lemma_owned_nonneg(d, o);
}

proof fn lemma_owned_nonneg(ts: Seq<Terr>, o: i8)
    ensures
        owned_count(ts, o) >= 0,
    decreases ts.len(),
{
    if ts.len() > 0 {
        lemma_owned_nonneg(ts.drop_last(), o);
    }
}

impl Game {
    /// Seats among the first `k` that live, when only seat `o` holds land
    /// and can act.
    proof fn lemma_alive_only(&self, o: i8, k: int)
        requires
            self.players_ok(),
            0 <= o,
            0 <= k <= self.players@.len(),
            owned_count(self.terrs@, o) > 0 && self.viable_spec(o),
            forall|x: i8| x != o ==> #[trigger] owned_count(self.terrs@, x) == 0,
        ensures
            self.alive_upto(k) == if k > o {
                seq![o]
            } else {
                Seq::<i8>::empty()
            },
        decreases k,
    {
        if k > 0 {
            self.lemma_alive_only(o, k - 1);
            let p = self.players@[k - 1];
            assert(p == k - 1);
            if p != o {
                assert(owned_count(self.terrs@, p) == 0);
            } else {
                assert(Seq::<i8>::empty().push(o) =~= seq![o]);
            }
        } else {
            assert(self.alive_upto(0) =~= Seq::<i8>::empty());
        }
    }

    /// A seat that holds every land hex of the island and can still act has
    /// won: it is the only seat left alive.
    pub proof fn lemma_conqueror_wins(&self, o: i8)
        requires
            self.wf(),
            0 <= o < self.players@.len(),
            self.viable_spec(o),
            exists|p: (i32, i32)| self.inside(p) && !#[trigger] self.hex_at(p).water,
            forall|p: (i32, i32)| self.inside(p) && !#[trigger] self.hex_at(p).water ==> self.hex_at(p).owner == o,
        ensures
            self.winner_spec() == Some(o),
    {
        reveal(Game::terrs_partition);
        let ts = self.terrs@;
        let p = choose|p: (i32, i32)| self.inside(p) && !#[trigger] self.hex_at(p).water;
        assert(self.hex_at(p).owner == o);
        let i = choose|i: int| 0 <= i < ts.len() && #[trigger] ts[i].hexes@.contains(p);
        assert(self.terr_fits(ts[i]));
        assert(self.land_of(ts[i].owner).contains(p));
        lemma_owned_some(ts, o, i);
        assert forall|x: i8| x != o implies #[trigger] owned_count(ts, x) == 0 by {
            assert forall|j: int| 0 <= j < ts.len() implies (#[trigger] ts[j]).owner != x by {
                assert(terr_shape(self.cols as int, self.rows as int, self.players@.len() as int, ts[j]));
                let q = ts[j].hexes@[0];
                assert(ts[j].hexes@.contains(q));
                assert(self.terr_fits(ts[j]));
                assert(self.land_of(ts[j].owner).contains(q));
            }
            lemma_owned_none(ts, x);
        }
        self.lemma_alive_only(o, self.players@.len() as int);
    }

    /// A seat with a territory that holds a hex without a tree can still
    /// act, whatever else that territory holds or lacks.
    pub proof fn lemma_clear_hex_viable(&self, o: i8, i: int, p: (i32, i32))
        requires
            0 <= i < self.terrs@.len(),
            self.terrs@[i].owner == o,
            self.terrs@[i].hexes@.contains(p),
            self.hex_at(p).tree is None,
        ensures
            self.viable_spec(o),
    {
        assert(self.terr_viable(self.terrs@[i]));
    }

    /// A seat whose every territory is all trees, with no man and no
    /// castle, and cannot buy a peasant (under 10 gold, or no hex free of
    /// a grave), can no longer act.
    pub proof fn lemma_wooded_not_viable(&self, o: i8)
        requires
            forall|i: int, p: (i32, i32)|
                #![trigger self.terrs@[i].hexes@.contains(p)]
                0 <= i < self.terrs@.len() && self.terrs@[i].owner == o && self.terrs@[i].hexes@.contains(p)
                    ==> self.hex_at(p).tree is Some && self.hex_at(p).unit == 0 && !self.hex_at(p).castle,
            forall|i: int|
                0 <= i < self.terrs@.len() && (#[trigger] self.terrs@[i]).owner == o ==> self.terrs@[i].savings
                    < BUY_PEASANT || forall|p: (i32, i32)| self.terrs@[i].hexes@.contains(p) ==> self.hex_at(p).grave,
        ensures
            !self.viable_spec(o),
    {
        assert forall|i: int|
            0 <= i < self.terrs@.len() && (#[trigger] self.terrs@[i]).owner == o implies !self.terr_viable(self.terrs@[i]) by {
            let t = self.terrs@[i];
            assert forall|p: (i32, i32)| #[trigger] t.hexes@.contains(p) implies !hex_keeps_alive(self.hex_at(p)) by {
                assert(self.terrs@[i].hexes@.contains(p));
            }
            if t.savings >= BUY_PEASANT {
                assert forall|p: (i32, i32)| #[trigger] t.hexes@.contains(p) implies !hex_free(self.hex_at(p)) by {
                    assert(self.terrs@[i].hexes@.contains(p));
                }
            }
        }
    }

    /// Seats among the first `k` that live include seat `o` once `k`
    /// passes it, when it holds land and can act.
    proof fn lemma_alive_has(&self, o: i8, k: int)
        requires
            self.players_ok(),
            0 <= o < k <= self.players@.len(),
            owned_count(self.terrs@, o) > 0 && self.viable_spec(o),
        ensures
            self.alive_upto(k).contains(o),
        decreases k,
    {
        let x = self.players@[k - 1];
        if x == o {
            assert(self.alive_upto(k) == self.alive_upto(k - 1).push(o));
            assert(self.alive_upto(k)[self.alive_upto(k).len() - 1] == o);
        } else {
            assert(k - 1 != o);
            self.lemma_alive_has(o, k - 1);
            let s = self.alive_upto(k - 1);
            let j = choose|j: int| 0 <= j < s.len() && s[j] == o;
            if owned_count(self.terrs@, x) > 0 && self.viable_spec(x) {
                assert(self.alive_upto(k)[j] == o);
            }
        }
    }

    /// A seat of the game whose territory holds a hex without a tree is
    /// still alive.
    pub proof fn lemma_clear_hex_alive(&self, o: i8, i: int, p: (i32, i32))
        requires
            self.wf(),
            0 <= o < self.players@.len(),
            0 <= i < self.terrs@.len(),
            self.terrs@[i].owner == o,
            self.terrs@[i].hexes@.contains(p),
            self.hex_at(p).tree is None,
        ensures
            self.alive_spec().contains(o),
    {
        self.lemma_clear_hex_viable(o, i, p);
        assert(self.terrs@[i].hexes@.len() >= 1);
        lemma_owned_some(self.terrs@, o, i);
        self.lemma_alive_has(o, self.players@.len() as int);
    }

    /// While two seats each hold a territory with a hex without a tree,
    /// nobody has won.
    pub proof fn lemma_no_winner_while_clear(
        &self,
        o1: i8,
        i1: int,
        p1: (i32, i32),
        o2: i8,
        i2: int,
        p2: (i32, i32),
    )
        requires
            self.wf(),
            0 <= o1 < self.players@.len(),
            0 <= o2 < self.players@.len(),
            o1 != o2,
            0 <= i1 < self.terrs@.len(),
            self.terrs@[i1].owner == o1,
            self.terrs@[i1].hexes@.contains(p1),
            self.hex_at(p1).tree is None,
            0 <= i2 < self.terrs@.len(),
            self.terrs@[i2].owner == o2,
            self.terrs@[i2].hexes@.contains(p2),
            self.hex_at(p2).tree is None,
        ensures
            self.winner_spec() is None,
    {
        self.lemma_clear_hex_alive(o1, i1, p1);
        self.lemma_clear_hex_alive(o2, i2, p2);
        let s = self.alive_spec();
        let j1 = choose|j: int| 0 <= j < s.len() && s[j] == o1;
        let j2 = choose|j: int| 0 <= j < s.len() && s[j] == o2;
        assert(j1 != j2);
    }
}

} // verus!
