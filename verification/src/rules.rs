//! The fixed numbers of the game: prices, defences, wages and names.
use vstd::prelude::*;

verus! {

pub const BUY_PEASANT: i64 = 10;

pub const BUY_CASTLE: i64 = 15;

pub const START_GOLD: i64 = 10;

pub const CASTLE_DEF: u8 = 2;

pub const CAPITAL_DEF: u8 = 1;

pub const GRAVE_DEF: u8 = 1;

/// The strongest rank a man can reach by combining.
pub const MAX_RANK: u8 = 4;

pub open spec fn wage_spec(rank: u8) -> i64 {
    if rank == 1 {
        2
    } else if rank == 2 {
        6
    } else if rank == 3 {
        18
    } else if rank == 4 {
        54
    } else {
        0
    }
}

/// Gold a man of the given rank costs each turn: 2, 6, 18, 54; nothing for
/// an empty hex.
pub fn wage(rank: u8) -> (w: i64)
    ensures
        w == wage_spec(rank),
{
    match rank {
        1 => 2,
        2 => 6,
        3 => 18,
        4 => 54,
        _ => 0,
    }
}

pub open spec fn rank_name_spec(s: u8) -> Seq<char> {
    if s == 1 {
        "Peasant"@
    } else if s == 2 {
        "Spearman"@
    } else if s == 3 {
        "Knight"@
    } else if s == 4 {
        "Baron"@
    } else {
        "?"@
    }
}

/// Display name of a rank.
pub fn rank_name(s: u8) -> (r: &'static str)
    ensures
        r@ == rank_name_spec(s),
{
    match s {
        1 => "Peasant",
        2 => "Spearman",
        3 => "Knight",
        4 => "Baron",
        _ => "?",
    }
}

pub open spec fn player_name_spec(o: i8) -> Seq<char> {
    if o == 0 {
        "You"@
    } else if o == 1 {
        "Karg"@
    } else if o == 2 {
        "Vex"@
    } else if o == 3 {
        "Mord"@
    } else {
        "?"@
    }
}

#[derive(Clone, Copy, PartialEq, Eq, Debug, Structural)]
pub enum Tree {
    Pine,
    Palm,
}

/// One hex of the board.
#[derive(Clone, Copy, Debug)]
pub struct Hex {
    pub water: bool,
    pub owner: i8,
    pub unit: u8,
    pub acted: bool,
    pub castle: bool,
    pub tree: Option<Tree>,
    pub grave: bool,
}

pub open spec fn sea_hex() -> Hex {
    Hex { water: true, owner: -1i8, unit: 0u8, acted: false, castle: false, tree: None, grave: false }
}

pub open spec fn land_hex() -> Hex {
    Hex { water: false, ..sea_hex() }
}

impl Hex {
    /// An empty sea hex.
    pub fn sea() -> (h: Self)
        ensures
            h == sea_hex(),
    {
        Hex { water: true, owner: -1, unit: 0, acted: false, castle: false, tree: None, grave: false }
    }

    /// An empty, unowned land hex.
    pub fn land() -> (h: Self)
        ensures
            h == land_hex(),
    {
        Hex { water: false, ..Hex::sea() }
    }
}

pub open spec fn is_pine(t: Option<Tree>) -> bool {
    t == Some(Tree::Pine)
}

pub open spec fn is_palm(t: Option<Tree>) -> bool {
    t == Some(Tree::Palm)
}

pub fn pine_here(t: Option<Tree>) -> (r: bool)
    ensures
        r == is_pine(t),
{
    match t {
        Some(Tree::Pine) => true,
        _ => false,
    }
}

pub fn palm_here(t: Option<Tree>) -> (r: bool)
    ensures
        r == is_palm(t),
{
    match t {
        Some(Tree::Palm) => true,
        _ => false,
    }
}

} // verus!
