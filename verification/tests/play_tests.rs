use slay::game::Game;
use slay::hexgrid::hex_dist;
use slay::economy::sprout_choice;
use slay::mapgen::{first_tree, pick_starts};
use slay::rng::seed_from_nanos;
use slay::rules::{rank_name, wage, Hex, Tree};
use slay::theme::{parse_theme, theme_name};

/// A one-seat-plus-computer tutorial game at the start of the player's turn.
fn opened() -> Game {
    let mut g = Game::new(Some(424242), 1, "easy", 0, vec![0], true, None);
    g.start_turn(0);
    g
}

fn wild_neighbour(g: &Game, sx: i32, sy: i32) -> (i32, i32) {
    g.neighbours(sx, sy)
        .into_iter()
        .find(|&(nx, ny)| {
            let h = &g.grid[Game::idx(g.cols, nx, ny)];
            h.owner == -1 && !h.water
        })
        .expect("a wild neighbour")
}

fn open_wild_neighbour(g: &Game, sx: i32, sy: i32) -> (i32, i32) {
    g.neighbours(sx, sy)
        .into_iter()
        .find(|&(nx, ny)| {
            let h = &g.grid[Game::idx(g.cols, nx, ny)];
            h.owner == -1 && !h.water && g.can_attack(sx, sy, nx, ny).is_ok()
        })
        .expect("an open wild neighbour")
}

#[test]
fn wage_table() {
    assert_eq!(wage(0), 0);
    assert_eq!(wage(1), 2);
    assert_eq!(wage(2), 6);
    assert_eq!(wage(3), 18);
    assert_eq!(wage(4), 54);
    assert_eq!(wage(5), 0);
}

#[test]
fn rank_names() {
    assert_eq!(rank_name(1), "Peasant");
    assert_eq!(rank_name(2), "Spearman");
    assert_eq!(rank_name(3), "Knight");
    assert_eq!(rank_name(4), "Baron");
    assert_eq!(rank_name(0), "?");
    assert_eq!(Game::player_name(0), "You");
    assert_eq!(Game::player_name(3), "Mord");
    assert_eq!(Game::player_name(7), "?");
}

#[test]
fn hex_dist_is_a_metric_on_samples() {
    let pts = [(0, 0), (1, 0), (0, 1), (3, 2), (5, 5), (2, 7), (7, 3)];
    for &a in &pts {
        assert_eq!(hex_dist(a, a), 0);
        for &b in &pts {
            assert_eq!(hex_dist(a, b), hex_dist(b, a));
            if a != b {
                assert!(hex_dist(a, b) >= 1);
            }
            for &c in &pts {
                assert!(hex_dist(a, c) <= hex_dist(a, b) + hex_dist(b, c));
            }
        }
    }
    assert_eq!(hex_dist((0, 0), (0, 2)), 2);
    assert_eq!(hex_dist((0, 0), (3, 4)), 5);
}

#[test]
fn sea_and_land_hexes() {
    let s = Hex::sea();
    assert!(s.water && s.owner == -1 && s.unit == 0 && s.tree.is_none());
    let l = Hex::land();
    assert!(!l.water && l.owner == -1 && l.unit == 0 && !l.castle && !l.grave);
}

#[test]
fn new_game_opening() {
    let g = Game::new(Some(7), 2, "normal", 1, vec![0], false, None);
    assert_eq!(g.players, vec![0, 1, 2]);
    assert_eq!((g.cols, g.rows), (15, 11));
    assert_eq!(g.round, 1);
    assert_eq!(g.current, 0);
    assert!(g.sel.is_none() && g.focus.is_none());
    let g = Game::new(Some(7), 9, "hard", 2, vec![0], false, None);
    assert_eq!(g.enemies, 3);
    assert_eq!(g.players.len(), 4);
    assert_eq!((g.cols, g.rows), (18, 13));
}

#[test]
fn buy_errors_and_prices() {
    let mut g = opened();
    let (sx, sy) = g.starts[0];
    let ti = g.terr_at(sx, sy).unwrap();
    let before = g.terrs[ti].savings;
    assert_eq!(g.buy(sx, sy, "man", 0), Ok("Peasant ready.".to_string()));
    assert_eq!(g.terrs[ti].savings, before - 10);
    assert_eq!(g.buy(sx, sy, "man", 0), Err("Occupied.".to_string()));
    assert_eq!(g.buy(sx, sy, "man", 1), Err("Your territory only.".to_string()));
    let (wx, wy) = wild_neighbour(&g, sx, sy);
    assert_eq!(g.buy(wx, wy, "man", 0), Err("Your territory only.".to_string()));
    let ti = g.terr_at(sx, sy).unwrap();
    g.terrs[ti].savings = 3;
    g.grid[Game::idx(g.cols, sx, sy)].unit = 0;
    assert_eq!(
        g.buy(sx, sy, "castle", 0),
        Err("Need 15 gold (territory has 3).".to_string())
    );
    g.terrs[ti].savings = 40;
    g.grid[Game::idx(g.cols, sx, sy)].tree = Some(Tree::Palm);
    assert_eq!(g.buy(sx, sy, "castle", 0), Err("Chop the tree first.".to_string()));
    g.grid[Game::idx(g.cols, sx, sy)].tree = None;
    assert_eq!(g.buy(sx, sy, "castle", 0), Ok("Castle built.".to_string()));
    assert_eq!(g.terrs[ti].savings, 25);
    assert!(g.grid[Game::idx(g.cols, sx, sy)].castle);
}

#[test]
fn click_selects_orders_and_spends() {
    let mut g = opened();
    let (sx, sy) = g.starts[0];
    // a click off the board does nothing
    assert_eq!(g.click(-1, 0), (String::new(), String::new()));
    assert!(g.focus.is_none());
    // an empty own hex only takes the focus
    assert_eq!(g.click(sx, sy), (String::new(), String::new()));
    assert_eq!(g.focus, Some((sx, sy)));
    assert_eq!(g.buy_at_focus("man"), ("Peasant ready.".to_string(), "buy".to_string()));
    // pick the peasant up and put him down again
    assert_eq!(
        g.click(sx, sy),
        ("Peasant selected — click a glowing hex.".to_string(), "select".to_string())
    );
    assert_eq!(g.sel, Some((sx, sy)));
    assert_eq!(g.click(sx, sy), (String::new(), String::new()));
    assert!(g.sel.is_none());
    // pick him up and take a wild hex
    let (tx, ty) = open_wild_neighbour(&g, sx, sy);
    g.click(sx, sy);
    assert_eq!(g.click(tx, ty), ("Peasant takes a hex.".to_string(), "attack".to_string()));
    assert!(g.sel.is_none());
    assert_eq!(g.grid[Game::idx(g.cols, tx, ty)].owner, 0);
    // he is spent now
    assert_eq!(
        g.click(tx, ty),
        ("Spent — it already acted this turn.".to_string(), String::new())
    );
    // a second peasant joins him: they combine
    g.click(sx, sy);
    assert_eq!(g.buy_at_focus("man"), ("Peasant ready.".to_string(), "buy".to_string()));
    g.click(sx, sy);
    assert_eq!(
        g.click(tx, ty),
        ("Combined into Spearman.".to_string(), "combine".to_string())
    );
    assert!(g.sel.is_none());
    assert_eq!(g.grid[Game::idx(g.cols, tx, ty)].unit, 2);
}

#[test]
fn click_move_keeps_the_man_selected() {
    let mut g = opened();
    let (sx, sy) = g.starts[0];
    g.grid[Game::idx(g.cols, sx, sy)].unit = 1;
    let (tx, ty) = open_wild_neighbour(&g, sx, sy);
    g.grid[Game::idx(g.cols, tx, ty)].owner = 0;
    g.recompute();
    g.grid[Game::idx(g.cols, tx, ty)].tree = None;
    g.click(sx, sy);
    assert_eq!(g.click(tx, ty), ("Moved.".to_string(), "move".to_string()));
    assert_eq!(g.sel, Some((tx, ty)));
    // a tree on his own land is chopped, which spends him
    g.grid[Game::idx(g.cols, sx, sy)].tree = Some(Tree::Pine);
    assert_eq!(g.click(sx, sy), ("Chopped a tree.".to_string(), "chop".to_string()));
    assert!(g.sel.is_none());
    assert!(g.grid[Game::idx(g.cols, sx, sy)].tree.is_none());
}

#[test]
fn click_refusals_answer_error() {
    let mut g = opened();
    let (sx, sy) = g.starts[0];
    g.grid[Game::idx(g.cols, sx, sy)].unit = 1;
    g.click(sx, sy);
    // a far hex cannot be attacked
    let far = (0..g.rows)
        .flat_map(|y| (0..g.cols).map(move |x| (x, y)))
        .find(|&(x, y)| hex_dist((x, y), (sx, sy)) > 3 && !g.grid[Game::idx(g.cols, x, y)].water)
        .unwrap();
    assert_eq!(
        g.click(far.0, far.1),
        ("Too far: attacks must touch your territory.".to_string(), "error".to_string())
    );
    assert_eq!(g.sel, Some((sx, sy)));
}

#[test]
fn buy_at_focus_without_focus() {
    let mut g = opened();
    assert_eq!(
        g.buy_at_focus("man"),
        ("Click one of your open hexes first.".to_string(), String::new())
    );
    let (sx, sy) = g.starts[0];
    let (wx, wy) = wild_neighbour(&g, sx, sy);
    g.click(wx, wy);
    assert_eq!(g.buy_at_focus("castle"), ("Your territory only.".to_string(), "error".to_string()));
}

#[test]
fn end_turn_greets_next_round() {
    let mut g = opened();
    assert!(g.can_end_turn());
    let r = g.end_turn();
    if g.winner().is_none() {
        assert_eq!(r, (format!("Round {}. Treasuries paid out.", g.round), "turn".to_string()));
        assert_eq!(g.round, 2);
        assert_eq!(g.current, 0);
    }
    assert!(g.sel.is_none());
}

#[test]
fn gold_total_sums_treasuries() {
    let g = opened();
    let sum: i128 = g.terrs.iter().map(|t| t.savings as i128).sum();
    assert_eq!(g.gold_total(), sum);
    assert!(g.can_start_turn(1));
}

#[test]
fn recount_creates_no_gold() {
    let mut g = Game::new(Some(5), 2, "normal", 0, vec![0], false, None);
    let before = g.gold_total();
    // join every wild land hex next to the player's home to it
    let (sx, sy) = g.starts[0];
    for (nx, ny) in g.neighbours(sx, sy) {
        let h = &mut g.grid[Game::idx(g.cols, nx, ny)];
        if !h.water && h.owner == -1 {
            h.owner = 0;
        }
    }
    g.recompute();
    assert!(g.gold_total() <= before);
    let ti = g.terr_at(sx, sy).unwrap();
    assert!(g.terrs[ti].hexes.contains(&(sx, sy)));
}

#[test]
fn payday_pays_income_minus_wages() {
    let mut g = Game::new(Some(2), 1, "normal", 0, vec![0], false, None);
    let (sx, sy) = g.starts[0];
    let ti = g.terr_at(sx, sy).unwrap();
    for h in g.grid.iter_mut() {
        h.tree = None;
        h.unit = 0;
        h.grave = false;
    }
    g.grid[Game::idx(g.cols, sx, sy)].unit = 2;
    g.terrs[ti].savings = 100;
    let n = g.terrs[ti].hexes.len() as i64;
    g.start_turn(0);
    let ti = g.terr_at(sx, sy).unwrap();
    assert_eq!(g.terrs[ti].savings, 100 + n - 6);
    assert!(!g.grid[Game::idx(g.cols, sx, sy)].acted);
}

#[test]
fn split_pieces_on_a_line() {
    let mut g = Game::new(Some(0), 1, "normal", 0, vec![0], false, None);
    for h in g.grid.iter_mut() {
        *h = Hex::sea();
    }
    for x in 1..6 {
        let i = Game::idx(g.cols, x, 2);
        g.grid[i] = Hex::land();
        g.grid[i].owner = 1;
    }
    g.recompute();
    assert_eq!(g.split_pieces(3, 2, 1), 2);
    assert_eq!(g.split_pieces(1, 2, 1), 1);
    assert_eq!(g.split_pieces(5, 2, 1), 1);
    let ti = g.terr_at(3, 2).unwrap();
    assert_eq!(g.choke_hexes(ti), vec![(2, 2), (3, 2), (4, 2)]);
}

#[test]
fn defence_counts_guards() {
    let mut g = Game::new(Some(0), 1, "normal", 0, vec![0], false, None);
    for h in g.grid.iter_mut() {
        *h = Hex::sea();
    }
    for x in 1..5 {
        let i = Game::idx(g.cols, x, 2);
        g.grid[i] = Hex::land();
        g.grid[i].owner = 1;
    }
    g.recompute();
    g.grid[Game::idx(g.cols, 2, 2)].castle = true;
    assert!(g.defence(3, 2) >= 2);
    g.grid[Game::idx(g.cols, 4, 2)].unit = 3;
    assert_eq!(g.defence(3, 2), 3);
}

#[test]
fn winner_when_one_seat_is_left() {
    let mut g = Game::new(Some(4), 1, "normal", 0, vec![0], false, None);
    for h in g.grid.iter_mut() {
        if !h.water {
            h.owner = 0;
            h.unit = 0;
        }
    }
    g.recompute();
    assert_eq!(g.alive(), vec![0]);
    assert_eq!(g.winner(), Some(0));
}

#[test]
fn theme_reads_colours() {
    let text = "background = \"#1a1b26\"\nforeground = '#C0CAF5'\r\ncolor12 = \"#7aa2f7\"\ncyan = \"#7dcfff\"\n";
    let th = parse_theme("tokyo-night", text).unwrap();
    assert_eq!(th.name, "tokyo-night");
    assert_eq!(th.bg, "#1a1b26");
    assert_eq!(th.fg, "#C0CAF5");
    assert_eq!(th.accent, "#7aa2f7");
}

#[test]
fn theme_keys_ignore_case_and_bullets() {
    let text = "* BACKGROUND: #000\n- Foreground: #fff\nbold_accent = #abc\n";
    let th = parse_theme("mono", text).unwrap();
    assert_eq!(th.bg, "#000");
    assert_eq!(th.fg, "#fff");
    assert_eq!(th.accent, "#abc");
}

#[test]
fn theme_accent_falls_back_to_foreground() {
    let th = parse_theme("plain", "background=#111111\nforeground=#eeeeee").unwrap();
    assert_eq!(th.accent, "#eeeeee");
}

#[test]
fn theme_needs_background_and_foreground() {
    assert!(parse_theme("x", "background = #111111\n").is_none());
    assert!(parse_theme("x", "").is_none());
    // values that are no colour are passed over
    assert!(parse_theme("x", "background = red\nforeground = #fff\n").is_none());
    assert!(parse_theme("x", "background = #12345\nforeground = #fff\n").is_none());
}

#[test]
fn theme_lines_without_separator_are_skipped() {
    let text = "[colors.primary]\nbackground = '#1a1b26'\nforeground = '#c0caf5'\n";
    let th = parse_theme("tokyo", text).unwrap();
    assert_eq!(th.name, "tokyo");
    assert_eq!(th.bg, "#1a1b26");
    assert_eq!(th.fg, "#c0caf5");
    assert_eq!(th.accent, "#c0caf5");
    let text = "background = \"#1a1b26\"\n\n# a comment\nforeground = \"#c0caf5\"\n";
    assert!(parse_theme("x", text).is_some());
    assert!(parse_theme("x", "[colors]\nno colours here\n").is_none());
}

#[test]
fn theme_first_colour_wins() {
    let text = "background = #111\nbackground = #222\nforeground = #333\nforeground = #444\n";
    let th = parse_theme("x", text).unwrap();
    assert_eq!(th.bg, "#111");
    assert_eq!(th.fg, "#333");
    assert_eq!(th.accent, "#333");
}

#[test]
fn theme_name_is_first_non_blank() {
    let cands = vec!["  \n".to_string(), "  catppuccin \n".to_string(), "nord".to_string()];
    assert_eq!(theme_name(&cands), Some("catppuccin".to_string()));
    assert_eq!(theme_name(&vec![" ".to_string()]), None);
    assert_eq!(theme_name(&vec![]), None);
}

#[test]
fn first_fit_starts_keep_their_distance() {
    let spots = pick_starts(vec![(0, 0), (1, 0), (5, 5), (0, 1), (9, 9)], 2);
    assert_eq!(spots, vec![(0, 0), (5, 5)]);
    let spots = pick_starts(vec![(0, 0), (1, 0), (5, 5), (0, 1), (9, 9)], 3);
    assert_eq!(spots, vec![(0, 0), (5, 5), (9, 9)]);
    for (i, &a) in spots.iter().enumerate() {
        for &b in &spots[i + 1..] {
            assert!(hex_dist(a, b) >= 3);
        }
    }
}

#[test]
fn crowded_starts_spread_greedily() {
    // first fit finds one spot only: the spread starts from the last
    // candidate and takes the farthest of the rest, the first on a tie
    assert_eq!(pick_starts(vec![(0, 0), (1, 0), (2, 0)], 2), vec![(2, 0), (0, 0)]);
    assert_eq!(pick_starts(vec![(1, 0), (3, 0), (2, 0)], 2), vec![(2, 0), (1, 0)]);
    assert_eq!(pick_starts(vec![(0, 0), (1, 0)], 4), vec![(1, 0), (0, 0)]);
    assert_eq!(pick_starts(vec![], 2), Vec::<(i32, i32)>::new());
}

#[test]
fn lit_targets_obey_clicks() {
    let mut g = opened();
    let (sx, sy) = g.starts[0];
    g.grid[Game::idx(g.cols, sx, sy)].unit = 1;
    g.click(sx, sy);
    let targets = g.sel_targets();
    assert!(!targets.is_empty());
    for y in 0..g.rows {
        for x in 0..g.cols {
            if (x, y) == (sx, sy) {
                continue;
            }
            let mut h = Game::new(Some(424242), 1, "easy", 0, vec![0], true, None);
            h.start_turn(0);
            h.grid[Game::idx(h.cols, sx, sy)].unit = 1;
            h.click(sx, sy);
            let (_, sfx) = h.click(x, y);
            assert_eq!(targets.contains(&(x, y)), sfx != "error", "hex {x},{y}");
        }
    }
}

#[test]
fn two_clicks_on_a_man_put_him_down() {
    let mut g = opened();
    let (sx, sy) = g.starts[0];
    g.grid[Game::idx(g.cols, sx, sy)].unit = 1;
    let units: Vec<u8> = g.grid.iter().map(|h| h.unit).collect();
    g.click(sx, sy);
    assert_eq!(g.sel, Some((sx, sy)));
    assert_eq!(g.click(sx, sy), (String::new(), String::new()));
    assert!(g.sel.is_none());
    assert_eq!(g.focus, Some((sx, sy)));
    assert_eq!(g.grid.iter().map(|h| h.unit).collect::<Vec<u8>>(), units);
}

#[test]
fn computer_chops_first() {
    let mut g = Game::new(Some(8), 1, "normal", 0, vec![0], false, None);
    for h in g.grid.iter_mut() {
        if !h.water {
            h.tree = None;
        }
    }
    let (sx, sy) = g.starts[1];
    let (nx, ny) = wild_neighbour(&g, sx, sy);
    g.grid[Game::idx(g.cols, nx, ny)].owner = 1;
    g.recompute();
    g.grid[Game::idx(g.cols, sx, sy)].unit = 1;
    let ti = g.terr_at(sx, sy).unwrap();
    let tree_at = if g.terrs[ti].capital == Some((nx, ny)) { (sx, sy) } else { (nx, ny) };
    let man_at = if tree_at == (nx, ny) { (sx, sy) } else { (nx, ny) };
    g.grid[Game::idx(g.cols, sx, sy)].unit = 0;
    g.grid[Game::idx(g.cols, man_at.0, man_at.1)].unit = 1;
    g.grid[Game::idx(g.cols, tree_at.0, tree_at.1)].tree = Some(Tree::Pine);
    assert!(g.ai_step(1, 10));
    assert!(g.grid[Game::idx(g.cols, tree_at.0, tree_at.1)].tree.is_none());
    assert_eq!(g.grid[Game::idx(g.cols, tree_at.0, tree_at.1)].unit, 1);
    assert!(g.grid[Game::idx(g.cols, tree_at.0, tree_at.1)].acted);
}

#[test]
fn computer_turn_ends_with_nothing_left_to_do() {
    let mut g = Game::new(Some(21), 2, "normal", 0, vec![0], false, None);
    g.ai_take_turn(1);
    assert!(!g.ai_step(1, 10));
    g.ai_take_turn(2);
    assert!(!g.ai_step(2, 6));
}

#[test]
fn palms_grow_on_the_coast() {
    for seed in 0..20u64 {
        let g = Game::new(Some(seed), 2, "normal", (seed % 3) as u8, vec![0], false, None);
        for y in 0..g.rows {
            for x in 0..g.cols {
                if g.grid[Game::idx(g.cols, x, y)].tree == Some(Tree::Palm) {
                    assert!(g
                        .neighbours(x, y)
                        .iter()
                        .any(|&(nx, ny)| g.grid[Game::idx(g.cols, nx, ny)].water));
                }
            }
        }
    }
}

#[test]
fn generated_island_is_big_or_an_isle() {
    for seed in 0..20u64 {
        let g = Game::new(Some(seed), 1, "normal", 0, vec![0], false, None);
        let land = g.grid.iter().filter(|h| !h.water).count();
        assert!(land >= 25 || g.arch == "Isle");
        assert!(["Isle", "Atoll", "Lakes"].contains(&g.arch.as_str()));
    }
}

/// Row 2 holds land from column 1 to 6: the player's on 1..=3, seat 1's on 4..=6.
fn two_strips() -> Game {
    let mut g = Game::new(Some(0), 1, "normal", 0, vec![0], false, None);
    for h in g.grid.iter_mut() {
        *h = Hex::sea();
    }
    for x in 1..7 {
        let i = Game::idx(g.cols, x, 2);
        g.grid[i] = Hex::land();
        g.grid[i].owner = if x <= 3 { 0 } else { 1 };
    }
    g.recompute();
    g
}

#[test]
fn move_refusals() {
    let mut g = two_strips();
    g.grid[Game::idx(g.cols, 1, 2)].unit = 1;
    assert_eq!(g.do_move(1, 2, 4, 2), Err("Same territory only.".to_string()));
    assert_eq!(g.do_move(2, 2, 3, 2), Err("That man already acted.".to_string()));
    assert_eq!(g.do_move(0, 0, 1, 2), Err("Move inside your own territory.".to_string()));
    g.grid[Game::idx(g.cols, 3, 2)].castle = true;
    assert_eq!(g.do_move(1, 2, 3, 2), Err("Occupied by a castle.".to_string()));
    g.grid[Game::idx(g.cols, 1, 2)].unit = 3;
    g.grid[Game::idx(g.cols, 2, 2)].unit = 2;
    assert_eq!(g.do_move(1, 2, 2, 2), Err("Too strong to combine (max Baron).".to_string()));
    g.grid[Game::idx(g.cols, 2, 2)].unit = 1;
    assert_eq!(g.do_move(1, 2, 2, 2), Ok("Combined into Baron.".to_string()));
    assert_eq!(g.grid[Game::idx(g.cols, 2, 2)].unit, 4);
    assert_eq!(g.grid[Game::idx(g.cols, 1, 2)].unit, 0);
}

#[test]
fn attack_refusals() {
    let mut g = two_strips();
    g.grid[Game::idx(g.cols, 3, 2)].unit = 1;
    assert_eq!(
        g.do_attack(3, 2, 6, 2, 0),
        Err("Too far: attacks must touch your territory.".to_string())
    );
    assert_eq!(g.do_attack(3, 2, 3, 3, 0), Err("Water.".to_string()));
    assert_eq!(
        g.do_attack(3, 2, 2, 2, 0),
        Err("Own hex (move/combine instead).".to_string())
    );
    g.grid[Game::idx(g.cols, 4, 2)].castle = true;
    assert_eq!(
        g.do_attack(3, 2, 4, 2, 0),
        Err("Too strong (def 2). Combine men first.".to_string())
    );
    g.grid[Game::idx(g.cols, 3, 2)].unit = 3;
    assert_eq!(g.do_attack(3, 2, 4, 2, 0), Ok("Knight takes a hex.".to_string()));
    let h = g.grid[Game::idx(g.cols, 4, 2)];
    assert!(h.owner == 0 && h.unit == 3 && h.acted && !h.castle);
    // the rest of seat 1's land stays one territory
    assert_eq!(g.terrs_of(1).len(), 1);
    let ti = g.terr_at(5, 2).unwrap();
    assert_eq!(g.terrs[ti].hexes, vec![(5, 2), (6, 2)]);
}

#[test]
fn graves_guard_their_neighbours() {
    let mut g = Game::new(Some(0), 1, "normal", 0, vec![0], false, None);
    for h in g.grid.iter_mut() {
        *h = Hex::sea();
    }
    for x in 1..9 {
        let i = Game::idx(g.cols, x, 2);
        g.grid[i] = Hex::land();
        g.grid[i].owner = if x <= 3 { 0 } else { 1 };
    }
    g.recompute();
    let ti = g.terr_at(6, 2).unwrap();
    assert_eq!(g.terrs[ti].capital, Some((6, 2)));
    assert_eq!(g.defence(4, 2), 0);
    g.grid[Game::idx(g.cols, 5, 2)].grave = true;
    assert_eq!(g.defence(5, 2), 1);
    assert_eq!(g.defence(4, 2), 1);
    g.grid[Game::idx(g.cols, 3, 2)].unit = 1;
    assert_eq!(
        g.can_attack(3, 2, 4, 2),
        Err("Too strong (def 1). Combine men first.".to_string())
    );
}

#[test]
fn tree_decisions_follow_their_draws() {
    // first trees: one time in ten, palms on the coast six times in ten
    assert_eq!(first_tree(0, false, 0), Some(Tree::Pine));
    assert_eq!(first_tree(u64::MAX, true, 0), None);
    assert_eq!(first_tree(0, true, 0), Some(Tree::Palm));
    assert_eq!(first_tree(0, true, u64::MAX), Some(Tree::Pine));
    // sprouting: a pine beside two pines, else a palm on the coast, each at even odds
    assert_eq!(sprout_choice(2, 0, false, 0, 0), Some(Tree::Pine));
    assert_eq!(sprout_choice(2, 0, false, u64::MAX, 0), None);
    assert_eq!(sprout_choice(2, 1, true, u64::MAX, 0), Some(Tree::Palm));
    assert_eq!(sprout_choice(1, 1, false, 0, 0), None);
    assert_eq!(sprout_choice(1, 1, true, 0, u64::MAX), None);
}

#[test]
fn clock_readings_give_seeds() {
    assert_eq!(seed_from_nanos(None), 0x853c49e6748fea9);
    assert_eq!(seed_from_nanos(Some(5)), 5);
    assert_eq!(seed_from_nanos(Some((1u128 << 64) + 7)), 7);
}

#[test]
fn shuffle_keeps_every_hex_once() {
    let mut g = opened();
    let orig: Vec<(i32, i32)> = (0..30).map(|k| (k % 7, k / 7)).collect();
    let mut v = orig.clone();
    g.shuffle(&mut v);
    assert_eq!(v.len(), orig.len());
    let mut a = v.clone();
    let mut b = orig.clone();
    a.sort();
    b.sort();
    assert_eq!(a, b);
}

#[test]
fn first_trees_stand_on_wild_land() {
    for seed in 0..20u64 {
        let g = Game::new(Some(seed), 2, "normal", 0, vec![0], false, None);
        for h in g.grid.iter() {
            if h.tree.is_some() {
                assert!(!h.water);
                assert_eq!(h.owner, -1);
            }
        }
    }
}

#[test]
fn click_follows_the_players_seat() {
    let mut g = opened();
    let (sx, sy) = g.starts[0];
    g.click(sx, sy);
    assert_eq!(g.buy_at_focus("man"), ("Peasant ready.".to_string(), "buy".to_string()));
    // with another seat marked to play, a click still picks up seat 0's man
    g.current = 1;
    assert_eq!(
        g.click(sx, sy),
        ("Peasant selected — click a glowing hex.".to_string(), "select".to_string())
    );
    assert_eq!(g.sel, Some((sx, sy)));
    // and the conquest is made for seat 0
    let (tx, ty) = open_wild_neighbour(&g, sx, sy);
    assert_eq!(g.click(tx, ty), ("Peasant takes a hex.".to_string(), "attack".to_string()));
    assert_eq!(g.grid[Game::idx(g.cols, tx, ty)].owner, 0);
}

#[test]
fn new_game_territories_in_seat_order() {
    for seed in 0..12u64 {
        let g = Game::new(Some(seed), (seed % 3) as u8 + 1, "normal", (seed % 3) as u8, vec![0], seed % 2 == 0, None);
        assert_eq!(g.terrs.len(), g.starts.len());
        assert_eq!(g.starts.len(), g.players.len());
        for (i, t) in g.terrs.iter().enumerate() {
            assert_eq!(t.owner as usize, i);
            assert_eq!(t.hexes, vec![g.starts[i]]);
            assert!(t.capital.is_none());
        }
    }
}

#[test]
fn generated_land_is_one_piece() {
    for seed in 0..12u64 {
        let g = Game::new(Some(seed), 2, "normal", (seed % 3) as u8, vec![0], false, None);
        let land: Vec<(i32, i32)> = (0..g.rows)
            .flat_map(|y| (0..g.cols).map(move |x| (x, y)))
            .filter(|&(x, y)| !g.grid[Game::idx(g.cols, x, y)].water)
            .collect();
        assert!(!land.is_empty());
        let mut seen = vec![land[0]];
        let mut k = 0;
        while k < seen.len() {
            let (x, y) = seen[k];
            for q in g.neighbours(x, y) {
                if !g.grid[Game::idx(g.cols, q.0, q.1)].water && !seen.contains(&q) {
                    seen.push(q);
                }
            }
            k += 1;
        }
        assert_eq!(seen.len(), land.len());
    }
}

#[test]
fn end_turn_hands_play_back_to_the_player() {
    let mut g = opened();
    let before = g.round;
    g.current = 0;
    let r = g.end_turn();
    assert_eq!(g.current, 0);
    if g.winner().is_none() {
        assert_eq!(g.round, before + 1);
        assert_eq!(r.1, "turn");
    }
}

#[test]
fn recount_twice_is_recount_once() {
    let mut g = opened();
    let (sx, sy) = g.starts[0];
    g.click(sx, sy);
    g.buy_at_focus("man");
    g.click(sx, sy);
    let (tx, ty) = open_wild_neighbour(&g, sx, sy);
    g.click(tx, ty);
    g.recompute();
    let once: Vec<(i8, Vec<(i32, i32)>, i64, Option<(i32, i32)>)> =
        g.terrs.iter().map(|t| (t.owner, t.hexes.clone(), t.savings, t.capital)).collect();
    g.recompute();
    let twice: Vec<(i8, Vec<(i32, i32)>, i64, Option<(i32, i32)>)> =
        g.terrs.iter().map(|t| (t.owner, t.hexes.clone(), t.savings, t.capital)).collect();
    assert_eq!(once, twice);
}

#[test]
fn sprouted_trees_follow_the_growth_rule() {
    for seed in 0..8u64 {
        let mut g = Game::new(Some(seed), 1, "normal", 1, vec![0], false, None);
        for _ in 0..6 {
            let before = g.grid.clone();
            if !g.can_start_turn(0) {
                break;
            }
            g.start_turn(0);
            for y in 0..g.rows {
                for x in 0..g.cols {
                    let i = Game::idx(g.cols, x, y);
                    let h0 = &before[i];
                    let empty = !h0.grave && h0.tree.is_none() && h0.unit == 0 && !h0.castle;
                    match g.grid[i].tree {
                        Some(Tree::Pine) if empty => {
                            let pines = g
                                .neighbours(x, y)
                                .iter()
                                .filter(|&&(nx, ny)| g.grid[Game::idx(g.cols, nx, ny)].tree == Some(Tree::Pine))
                                .count();
                            assert!(pines >= 2);
                        }
                        Some(Tree::Palm) if empty => {
                            assert!(g
                                .neighbours(x, y)
                                .iter()
                                .any(|&(nx, ny)| g.grid[Game::idx(g.cols, nx, ny)].water));
                        }
                        _ => {}
                    }
                }
            }
        }
    }
}

#[test]
fn starts_keep_their_distance_when_first_fit_falls_short() {
    // first fit takes (2, 0) and then finds nothing three steps away, but
    // (0, 0) and (4, 0) are: the search finds them before any spread
    let spots = pick_starts(vec![(2, 0), (0, 0), (4, 0)], 2);
    assert_eq!(spots, vec![(0, 0), (4, 0)]);
    let spots = pick_starts(vec![(3, 0), (0, 0), (1, 0), (6, 0), (3, 3)], 3);
    assert_eq!(spots.len(), 3);
    for (i, &a) in spots.iter().enumerate() {
        for &b in &spots[i + 1..] {
            assert!(hex_dist(a, b) >= 3);
        }
    }
}

#[test]
fn generated_starts_are_spread_apart() {
    for seed in 0..16u64 {
        let g = Game::new(Some(seed), 3, "normal", (seed % 3) as u8, vec![0], false, None);
        for (i, &a) in g.starts.iter().enumerate() {
            for &b in &g.starts[i + 1..] {
                assert!(hex_dist(a, b) >= 3);
            }
        }
    }
}

#[test]
fn end_turn_after_the_player_has_won_opens_a_round() {
    let mut g = opened();
    for h in g.grid.iter_mut() {
        if h.owner > 0 {
            h.owner = 0;
        }
    }
    g.recompute();
    assert_eq!(g.winner(), Some(0));
    let before = g.round;
    let (msg, sfx) = g.end_turn();
    assert_eq!(g.round, before + 1);
    assert_eq!(msg, format!("Round {}. Treasuries paid out.", before + 1));
    assert_eq!(sfx, "turn");
}
