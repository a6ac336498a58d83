//! Flood fill over the board and the territory bookkeeping built on it.
use crate::game::{lex_lt, sorted_hexes, terr_shape, terrs_disjoint, total_gold, Game, Terr, GOLD_CAP, MAX_SIDE};
use crate::hexgrid::{
    adjacent, grid_neighbours, in_grid, is_walk, ix, lemma_adjacent_symmetric, lemma_ix_bounds,
    lemma_ix_inj, lemma_nbrs, lemma_reachable_widen, lemma_walk_push, mask_set, nbrs, reachable,
};
use vstd::prelude::*;

verus! {

/// Number of unmarked entries of a mask.
pub open spec fn count_false(s: Seq<bool>) -> nat
    decreases s.len(),
{
    if s.len() == 0 {
        0
    } else {
        count_false(s.drop_last()) + if s.last() {
            0nat
        } else {
            1nat
        }
    }
}

proof fn lemma_count_false_mark(s: Seq<bool>, i: int)
    requires
        0 <= i < s.len(),
        !s[i],
    ensures
        count_false(s.update(i, true)) + 1 == count_false(s),
    decreases s.len(),
{
    let t = s.update(i, true);
    if i == s.len() - 1 {
        assert(t.drop_last() =~= s.drop_last());
    } else {
        assert(t.drop_last() =~= s.drop_last().update(i, true));
        lemma_count_false_mark(s.drop_last(), i);
    }
}

pub open spec fn board_ok(cols: int, rows: int) -> bool {
    1 <= cols <= MAX_SIDE && 1 <= rows <= MAX_SIDE
}

/// Grid index of an on-board hex.
pub fn cell(cols: i32, rows: i32, p: (i32, i32)) -> (i: usize)
    requires
        board_ok(cols as int, rows as int),
        in_grid(cols as int, rows as int, p),
    ensures
        i == ix(cols as int, p),
        i < cols * rows,
{
    proof {
        lemma_ix_bounds(cols as int, rows as int, p);
        assert(0 <= p.1 * cols <= 64 * 64) by (nonlinear_arith)
            requires
                0 <= p.1 < rows,
                board_ok(cols as int, rows as int),
        ;
    }
    (p.1 * cols + p.0) as usize
}

/// A mask of `n` unmarked entries.
pub fn blank_mask(n: usize) -> (m: Vec<bool>)
    ensures
        m@.len() == n,
        forall|i: int| 0 <= i < n ==> !#[trigger] m@[i],
{
    let mut m: Vec<bool> = Vec::new();
    let mut k: usize = 0;
    while k < n
        invariant
            k <= n,
            m@.len() == k,
            forall|i: int| 0 <= i < k ==> !#[trigger] m@[i],
        decreases n - k,
    {
        m.push(false);
        k += 1;
    }
    m
}

/// Walks witnessing that every marked hex is reachable from `s`.
pub open spec fn walks_ok(
    c: int,
    r: int,
    a: Set<(i32, i32)>,
    comp: Seq<bool>,
    wit: Map<(i32, i32), Seq<(i32, i32)>>,
    s: (i32, i32),
) -> bool {
    forall|q: (i32, i32)|
        in_grid(c, r, q) && #[trigger] comp[ix(c, q)] ==> wit.dom().contains(q) && is_walk(
            c,
            r,
            a,
            wit[q],
        ) && wit[q][0] == s && wit[q][wit[q].len() - 1] == q
}

/// Marks every allowed, unmarked neighbour of `p` and pushes it on the stack.
fn mark_neighbours(
    cols: i32,
    rows: i32,
    allowed: &Vec<bool>,
    comp: &mut Vec<bool>,
    stack: &mut Vec<(i32, i32)>,
    p: (i32, i32),
    s: (i32, i32),
    Ghost(wit0): Ghost<Map<(i32, i32), Seq<(i32, i32)>>>,
) -> (wit: Ghost<Map<(i32, i32), Seq<(i32, i32)>>>)
    requires
        board_ok(cols as int, rows as int),
        allowed@.len() == cols * rows,
        old(comp)@.len() == cols * rows,
        in_grid(cols as int, rows as int, p),
        old(comp)@[ix(cols as int, p)],
        forall|i: int| 0 <= i < cols * rows && #[trigger] old(comp)@[i] ==> allowed@[i],
        forall|k: int|
            0 <= k < old(stack)@.len() ==> in_grid(cols as int, rows as int, #[trigger] old(stack)@[k])
                && old(comp)@[ix(cols as int, old(stack)@[k])],
        old(stack)@.no_duplicates(),
        !old(stack)@.contains(p),
        walks_ok(
            cols as int,
            rows as int,
            mask_set(cols as int, rows as int, allowed@),
            old(comp)@,
            wit0,
            s,
        ),
    ensures
        final(comp)@.len() == cols * rows,
        forall|i: int| 0 <= i < cols * rows && #[trigger] old(comp)@[i] ==> final(comp)@[i],
        forall|i: int| 0 <= i < cols * rows && #[trigger] final(comp)@[i] ==> allowed@[i],
        forall|q: (i32, i32)|
            adjacent(cols as int, rows as int, p, q) && #[trigger] allowed@[ix(cols as int, q)]
                ==> final(comp)@[ix(cols as int, q)],
        final(stack)@.len() >= old(stack)@.len(),
        forall|k: int| 0 <= k < old(stack)@.len() ==> #[trigger] final(stack)@[k] == old(stack)@[k],
        forall|k: int|
            old(stack)@.len() <= k < final(stack)@.len() ==> in_grid(
                cols as int,
                rows as int,
                #[trigger] final(stack)@[k],
            ) && !old(comp)@[ix(cols as int, final(stack)@[k])] && final(comp)@[ix(
                cols as int,
                final(stack)@[k],
            )],
        forall|q: (i32, i32)|
            in_grid(cols as int, rows as int, q) && #[trigger] final(comp)@[ix(cols as int, q)]
                && !old(comp)@[ix(cols as int, q)] ==> final(stack)@.contains(q),
        final(stack)@.no_duplicates(),
        !final(stack)@.contains(p),
        count_false(final(comp)@) * 7 + final(stack)@.len() <= count_false(old(comp)@) * 7 + old(
            stack,
        )@.len(),
        walks_ok(
            cols as int,
            rows as int,
            mask_set(cols as int, rows as int, allowed@),
            final(comp)@,
            wit@,
            s,
        ),
{
    let ghost c = cols as int;
    let ghost r = rows as int;
    let ghost a = mask_set(c, r, allowed@);
    let ghost n = c * r;
    let ghost comp0 = comp@;
    let ghost stack0 = stack@;
    let ghost mut w = wit0;
    let nb = grid_neighbours(cols, rows, p.0, p.1);
    proof {
        lemma_nbrs(c, r, p.0, p.1);
        lemma_ix_bounds(c, r, p);
        assert forall|jj: int| 0 <= jj < nb@.len() implies 0 <= #[trigger] ix(c, nb@[jj]) < n by {
            lemma_ix_bounds(c, r, nb@[jj]);
        }
    }
    let mut j: usize = 0;
    while j < nb.len()
        invariant
            board_ok(c, r),
            c == cols,
            r == rows,
            n == c * r,
            allowed@.len() == n,
            a == mask_set(c, r, allowed@),
            comp@.len() == n,
            in_grid(c, r, p),
            j <= nb@.len(),
            nb@ == nbrs(c, r, p.0, p.1),
            forall|q: (i32, i32)| nb@.contains(q) <==> adjacent(c, r, p, q),
            forall|jj: int| 0 <= jj < nb@.len() ==> in_grid(c, r, #[trigger] nb@[jj]),
            forall|i: int| 0 <= i < n && #[trigger] comp0[i] ==> comp@[i],
            forall|i: int| 0 <= i < n && #[trigger] comp@[i] ==> allowed@[i],
            comp@[ix(c, p)],
            0 <= ix(c, p) < n,
            forall|jj: int| 0 <= jj < nb@.len() ==> 0 <= #[trigger] ix(c, nb@[jj]) < n,
            stack@.len() >= stack0.len(),
            forall|k: int| 0 <= k < stack0.len() ==> #[trigger] stack@[k] == stack0[k],
            forall|k: int|
                0 <= k < stack0.len() ==> in_grid(c, r, #[trigger] stack0[k]) && comp0[ix(c, stack0[k])],
            forall|k: int|
                stack0.len() <= k < stack@.len() ==> in_grid(c, r, #[trigger] stack@[k])
                    && !comp0[ix(c, stack@[k])] && comp@[ix(c, stack@[k])],
            forall|q: (i32, i32)|
                in_grid(c, r, q) && #[trigger] comp@[ix(c, q)] && !comp0[ix(c, q)]
                    ==> stack@.contains(q),
            stack0.no_duplicates(),
            stack@.no_duplicates(),
            !stack0.contains(p),
            !stack@.contains(p),
            count_false(comp@) * 7 + stack@.len() <= count_false(comp0) * 7 + stack0.len(),
            forall|jj: int|
                0 <= jj < j && #[trigger] allowed@[ix(c, nb@[jj])] ==> comp@[ix(c, nb@[jj])],
            walks_ok(c, r, a, comp@, w, s),
        decreases nb@.len() - j,
    {
        let q = nb[j];
        let qi = cell(cols, rows, q);
        if allowed[qi] && !comp[qi] {
            let ghost comp_before = comp@;
            let ghost stack_before = stack@;
            proof {
                lemma_count_false_mark(comp@, qi as int);
                assert(nb@.contains(q));
                assert(a.contains(q));
                lemma_walk_push(c, r, a, w[p], q);
                assert(!stack@.contains(q)) by {
                    if stack@.contains(q) {
                        let k = choose|k: int| 0 <= k < stack@.len() && stack@[k] == q;
                        if k < stack0.len() {
                            assert(stack0[k] == q);
                        }
                    }
                }
            }
            comp.set(qi, true);
            stack.push(q);
            proof {
                w = w.insert(q, w[p].push(q));
                assert forall|x: (i32, i32)|
                    in_grid(c, r, x) && #[trigger] comp@[ix(c, x)] && !comp_before[ix(c, x)]
                        implies x == q by {
                    lemma_ix_bounds(c, r, x);
                    if x != q && ix(c, x) == ix(c, q) {
                        lemma_ix_inj(c, r, x, q);
                    }
                }
                assert forall|x: (i32, i32)|
                    in_grid(c, r, x) && #[trigger] comp@[ix(c, x)] && !comp0[ix(c, x)]
                        implies stack@.contains(x) by {
                    if x == q {
                        assert(stack@[stack@.len() - 1] == q);
                    } else {
                        lemma_ix_bounds(c, r, x);
                        assert(comp_before[ix(c, x)]);
                        let k = choose|k: int| 0 <= k < stack_before.len() && stack_before[k] == x;
                        assert(stack@[k] == x);
                    }
                }
                assert forall|x: (i32, i32)|
                    in_grid(c, r, x) && #[trigger] comp@[ix(c, x)] implies w.dom().contains(x)
                        && is_walk(c, r, a, w[x]) && w[x][0] == s && w[x][w[x].len() - 1] == x by {
                    if x != q {
                        lemma_ix_bounds(c, r, x);
                        if ix(c, x) == ix(c, q) {
                            lemma_ix_inj(c, r, x, q);
                        }
                        assert(comp_before[ix(c, x)]);
                    }
                }
                assert forall|k: int|
                    stack0.len() <= k < stack@.len() implies in_grid(c, r, #[trigger] stack@[k])
                        && !comp0[ix(c, stack@[k])] && comp@[ix(c, stack@[k])] by {
                    if k < stack@.len() - 1 {
                        assert(stack@[k] == stack_before[k]);
                        lemma_ix_bounds(c, r, stack@[k]);
                    }
                }
            }
        }
        j += 1;
    }
    proof {
        assert forall|q: (i32, i32)|
            adjacent(c, r, p, q) && #[trigger] allowed@[ix(c, q)] implies comp@[ix(c, q)] by {
            assert(nb@.contains(q));
            let jj = choose|jj: int| 0 <= jj < nb@.len() && nb@[jj] == q;
        }
    }
    Ghost(w)
}

/// The hexes reachable from `s` by neighbour steps through hexes marked in
/// `allowed`: `s` is in it, it holds only allowed hexes, it holds every
/// allowed neighbour of its hexes, and each of its hexes is reachable.
pub fn flood(cols: i32, rows: i32, allowed: &Vec<bool>, s: (i32, i32)) -> (comp: Vec<bool>)
    requires
        board_ok(cols as int, rows as int),
        allowed@.len() == cols * rows,
        in_grid(cols as int, rows as int, s),
        allowed@[ix(cols as int, s)],
    ensures
        comp@.len() == cols * rows,
        comp@[ix(cols as int, s)],
        forall|i: int| 0 <= i < comp@.len() && #[trigger] comp@[i] ==> allowed@[i],
        forall|p: (i32, i32), q: (i32, i32)|
            in_grid(cols as int, rows as int, p) && #[trigger] comp@[ix(cols as int, p)] && adjacent(
                cols as int,
                rows as int,
                p,
                q,
            ) && #[trigger] allowed@[ix(cols as int, q)] ==> comp@[ix(cols as int, q)],
        forall|p: (i32, i32)|
            in_grid(cols as int, rows as int, p) && #[trigger] comp@[ix(cols as int, p)]
                ==> reachable(
                cols as int,
                rows as int,
                mask_set(cols as int, rows as int, allowed@),
                s,
                p,
            ),
{
    let ghost c = cols as int;
    let ghost r = rows as int;
    let ghost a = mask_set(c, r, allowed@);
    proof {
        assert(0 < c * r <= 4096) by (nonlinear_arith)
            requires
                board_ok(c, r),
        ;
    }
    let n = (cols * rows) as usize;
    let mut comp = blank_mask(n);
    let si = cell(cols, rows, s);
    comp.set(si, true);
    let mut stack: Vec<(i32, i32)> = Vec::new();
    stack.push(s);
    let ghost mut wit: Map<(i32, i32), Seq<(i32, i32)>> = Map::empty().insert(s, seq![s]);
    let ghost mut done: Set<(i32, i32)> = Set::empty();
    proof {
        assert(a.contains(s));
        assert(is_walk(c, r, a, seq![s]));
        assert(stack@[0] == s);
        assert forall|p: (i32, i32)| in_grid(c, r, p) && #[trigger] comp@[ix(c, p)] implies p
            == s by {
            lemma_ix_bounds(c, r, p);
            if p != s && ix(c, p) == ix(c, s) {
                lemma_ix_inj(c, r, p, s);
            }
        }
        assert(stack@.no_duplicates());
    }
    while stack.len() > 0
        invariant
            board_ok(c, r),
            c == cols,
            r == rows,
            n == c * r,
            allowed@.len() == n,
            a == mask_set(c, r, allowed@),
            comp@.len() == n,
            comp@[ix(c, s)],
            0 <= ix(c, s) < n,
            forall|i: int| 0 <= i < n && #[trigger] comp@[i] ==> allowed@[i],
            forall|k: int|
                0 <= k < stack@.len() ==> in_grid(c, r, #[trigger] stack@[k]) && comp@[ix(
                    c,
                    stack@[k],
                )],
            stack@.no_duplicates(),
            forall|p: (i32, i32)|
                in_grid(c, r, p) && #[trigger] comp@[ix(c, p)] ==> (done.contains(p)
                    <==> !stack@.contains(p)),
            forall|p: (i32, i32)| #[trigger] done.contains(p) ==> in_grid(c, r, p) && comp@[ix(c, p)],
            forall|p: (i32, i32), q: (i32, i32)|
                #[trigger] done.contains(p) && adjacent(c, r, p, q) && #[trigger] allowed@[ix(c, q)]
                    ==> comp@[ix(c, q)],
            walks_ok(c, r, a, comp@, wit, s),
        decreases count_false(comp@) * 7 + stack@.len(),
    {
        let ghost stack_before = stack@;
        let ghost comp0 = comp@;
        let p = stack.pop().unwrap();
        let ghost stack_after_pop = stack@;
        proof {
            assert(stack_before =~= stack_after_pop.push(p));
            assert(stack_before[stack_before.len() - 1] == p);
            assert(!stack_after_pop.contains(p)) by {
                if stack_after_pop.contains(p) {
                    let k = choose|k: int| 0 <= k < stack_after_pop.len() && stack_after_pop[k] == p;
                    assert(stack_before[k] == stack_before[stack_before.len() - 1]);
                }
            }
            assert(stack_after_pop.no_duplicates()) by {
                assert forall|i: int, k: int|
                    0 <= i < k < stack_after_pop.len() implies stack_after_pop[i]
                    != stack_after_pop[k] by {
                    assert(stack_before[i] == stack_after_pop[i] && stack_before[k]
                        == stack_after_pop[k]);
                }
            }
            assert forall|k: int| 0 <= k < stack_after_pop.len() implies in_grid(c, r, #[trigger] stack_after_pop[k])
                && comp@[ix(c, stack_after_pop[k])] by {
                assert(stack_before[k] == stack_after_pop[k]);
            }
        }
        let Ghost(w2) = mark_neighbours(cols, rows, allowed, &mut comp, &mut stack, p, s, Ghost(wit));
        proof {
            assert forall|k: int| 0 <= k < stack@.len() implies in_grid(c, r, #[trigger] stack@[k])
                && comp@[ix(c, stack@[k])] by {
                if k < stack_after_pop.len() {
                    assert(stack@[k] == stack_after_pop[k]);
                    lemma_ix_bounds(c, r, stack@[k]);
                }
            }
            wit = w2;
            let done0 = done;
            done = done.insert(p);
            assert forall|x: (i32, i32), y: (i32, i32)|
                #[trigger] done.contains(x) && adjacent(c, r, x, y) && #[trigger] allowed@[ix(c, y)]
                    implies comp@[ix(c, y)] by {
                if x != p {
                    assert(done0.contains(x));
                    lemma_ix_bounds(c, r, y);
                    assert(comp0[ix(c, y)]);
                }
            }
            assert forall|x: (i32, i32)| #[trigger] done.contains(x) implies in_grid(c, r, x)
                && comp@[ix(c, x)] by {
                if x != p {
                    assert(done0.contains(x));
                }
                lemma_ix_bounds(c, r, x);
                assert(comp0[ix(c, x)]);
            }
            assert forall|x: (i32, i32)|
                in_grid(c, r, x) && #[trigger] comp@[ix(c, x)] implies (done.contains(x)
                    <==> !stack@.contains(x)) by {
                lemma_ix_bounds(c, r, x);
                if !comp0[ix(c, x)] {
                    assert(stack@.contains(x));
                    assert(!done0.contains(x));
                } else if x == p {
                } else {
                    assert(stack_before.contains(x) <==> stack_after_pop.contains(x)) by {
                        if stack_before.contains(x) {
                            let k = choose|k: int| 0 <= k < stack_before.len() && stack_before[k] == x;
                            assert(k < stack_after_pop.len());
                            assert(stack_after_pop[k] == x);
                        }
                        if stack_after_pop.contains(x) {
                            let k = choose|k: int|
                                0 <= k < stack_after_pop.len() && stack_after_pop[k] == x;
                            assert(stack_before[k] == x);
                        }
                    }
                    assert(stack_after_pop.contains(x) <==> stack@.contains(x)) by {
                        if stack_after_pop.contains(x) {
                            let k = choose|k: int|
                                0 <= k < stack_after_pop.len() && stack_after_pop[k] == x;
                            assert(stack@[k] == x);
                        }
                        if stack@.contains(x) {
                            let k = choose|k: int| 0 <= k < stack@.len() && stack@[k] == x;
                            if k >= stack_after_pop.len() {
                                assert(!comp0[ix(c, stack@[k])]);
                            } else {
                                assert(stack_after_pop[k] == x);
                            }
                        }
                    }
                }
            }
        }
    }
    proof {
        assert forall|p: (i32, i32), q: (i32, i32)|
            in_grid(c, r, p) && #[trigger] comp@[ix(c, p)] && adjacent(c, r, p, q)
                && #[trigger] allowed@[ix(c, q)] implies comp@[ix(c, q)] by {
            assert(done.contains(p));
        }
        assert forall|p: (i32, i32)|
            in_grid(c, r, p) && #[trigger] comp@[ix(c, p)] implies reachable(c, r, a, s, p) by {
            let w = wit[p];
            assert(is_walk(c, r, a, w) && w[0] == s && w[w.len() - 1] == p);
        }
    }
    comp
}


/// Scan key of an on-board hex: column-major position, so that keys order
/// hexes exactly as (column, row) pairs.
pub open spec fn key(rows: int, p: (i32, i32)) -> int {
    p.0 as int * rows + p.1 as int
}

pub proof fn lemma_key_lex(cols: int, rows: int, p: (i32, i32), q: (i32, i32))
    requires
        board_ok(cols, rows),
        in_grid(cols, rows, p),
        in_grid(cols, rows, q),
    ensures
        lex_lt(p, q) <==> key(rows, p) < key(rows, q),
        key(rows, p) == key(rows, q) ==> p == q,
        0 <= key(rows, p) < cols * rows,
{
    let (px, py, qx, qy) = (p.0 as int, p.1 as int, q.0 as int, q.1 as int);
    if px < qx {
        assert(px * rows + py < qx * rows + qy) by (nonlinear_arith)
            requires
                px < qx,
                0 <= py < rows,
                0 <= qy,
        ;
    } else if qx < px {
        assert(qx * rows + qy < px * rows + py) by (nonlinear_arith)
            requires
                qx < px,
                0 <= qy < rows,
                0 <= py,
        ;
    }
    assert(0 <= px * rows + py < cols * rows) by (nonlinear_arith)
        requires
            0 <= px < cols,
            0 <= py < rows,
    ;
}

/// The hexes marked in a mask, listed in increasing (column, row) order.
pub fn mask_to_hexes(cols: i32, rows: i32, comp: &Vec<bool>) -> (v: Vec<(i32, i32)>)
    requires
        board_ok(cols as int, rows as int),
        comp@.len() == cols * rows,
    ensures
        sorted_hexes(v@),
        forall|p: (i32, i32)|
            #[trigger] v@.contains(p) <==> in_grid(cols as int, rows as int, p) && comp@[ix(
                cols as int,
                p,
            )],
        forall|i: int| 0 <= i < v@.len() ==> in_grid(cols as int, rows as int, #[trigger] v@[i]),
        v@.len() <= cols * rows,
{
    let ghost c = cols as int;
    let ghost r = rows as int;
    let mut v: Vec<(i32, i32)> = Vec::new();
    let mut x: i32 = 0;
    while x < cols
        invariant
            board_ok(c, r),
            c == cols,
            r == rows,
            comp@.len() == c * r,
            0 <= x <= cols,
            sorted_hexes(v@),
            forall|i: int| 0 <= i < v@.len() ==> in_grid(c, r, #[trigger] v@[i]) && v@[i].0 < x,
            forall|p: (i32, i32)|
                #[trigger] v@.contains(p) <==> in_grid(c, r, p) && comp@[ix(c, p)] && p.0 < x,
            v@.len() <= x * r,
        decreases cols - x,
    {
        let mut y: i32 = 0;
        while y < rows
            invariant
                board_ok(c, r),
                c == cols,
                r == rows,
                comp@.len() == c * r,
                0 <= x < cols,
                0 <= y <= rows,
                sorted_hexes(v@),
                forall|i: int|
                    0 <= i < v@.len() ==> in_grid(c, r, #[trigger] v@[i]) && lex_lt(v@[i], (x, y)),
                forall|p: (i32, i32)|
                    #[trigger] v@.contains(p) <==> in_grid(c, r, p) && comp@[ix(c, p)] && lex_lt(
                        p,
                        (x, y),
                    ),
                v@.len() <= x * r + y,
            decreases rows - y,
        {
            let i = cell(cols, rows, (x, y));
            if comp[i] {
                let ghost v0 = v@;
                v.push((x, y));
                proof {
                    let ny = (y + 1) as i32;
                    assert forall|p: (i32, i32)| #[trigger] v@.contains(p) implies in_grid(c, r, p)
                        && comp@[ix(c, p)] && lex_lt(p, (x, ny)) by {
                        let k = choose|k: int| 0 <= k < v@.len() && v@[k] == p;
                        if k < v0.len() {
                            assert(v0[k] == p);
                            assert(v0.contains(p));
                        }
                    }
                    assert forall|p: (i32, i32)|
                        in_grid(c, r, p) && comp@[ix(c, p)] && lex_lt(p, (x, ny)) implies #[trigger] v@.contains(p) by {
                        if p == (x, y) {
                            assert(v@[v@.len() - 1] == p);
                        } else {
                            assert(lex_lt(p, (x, y)));
                            assert(v0.contains(p));
                            let k = choose|k: int| 0 <= k < v0.len() && v0[k] == p;
                            assert(v@[k] == p);
                        }
                    }
                }
            } else {
                proof {
                    assert forall|p: (i32, i32)|
                        #[trigger] v@.contains(p) <==> in_grid(c, r, p) && comp@[ix(c, p)]
                            && lex_lt(p, (x, (y + 1) as i32)) by {
                        if p == (x, y) && v@.contains(p) {
                            let k = choose|k: int| 0 <= k < v@.len() && v@[k] == p;
                        }
                    }
                }
            }
            y += 1;
        }
        proof {
            assert((x + 1) * r == x * r + r) by (nonlinear_arith);
        }
        x += 1;
    }
    proof {
        assert(v@.len() <= c * r);
    }
    v
}

// ---------- houses ----------

pub open spec fn sum_x(s: Seq<(i32, i32)>) -> int
    decreases s.len(),
{
    if s.len() == 0 {
        0
    } else {
        sum_x(s.drop_last()) + s.last().0
    }
}

pub open spec fn sum_y(s: Seq<(i32, i32)>) -> int
    decreases s.len(),
{
    if s.len() == 0 {
        0
    } else {
        sum_y(s.drop_last()) + s.last().1
    }
}

/// Squared distance of `p` from the centroid of `s`, scaled by the square
/// of the number of hexes so that it is an integer.
pub open spec fn centre_score(s: Seq<(i32, i32)>, p: (i32, i32)) -> int {
    let n = s.len() as int;
    let dx = n * p.0 - sum_x(s);
    let dy = n * p.1 - sum_y(s);
    dx * dx + dy * dy
}

/// `c` is the hex of `s` nearest the centroid, the first in (column, row)
/// order among equally near ones.
pub open spec fn is_capital(s: Seq<(i32, i32)>, c: (i32, i32)) -> bool {
    &&& s.contains(c)
    &&& forall|q: (i32, i32)|
        #[trigger] s.contains(q) ==> centre_score(s, c) < centre_score(s, q) || (centre_score(s, c)
            == centre_score(s, q) && !lex_lt(q, c))
}

/// Where the house of a territory stands: nowhere on a single hex, else the
/// hex nearest the centroid.
pub open spec fn capital_ok(t: Terr) -> bool {
    match t.capital {
        Some(c) => t.hexes@.len() >= 2 && is_capital(t.hexes@, c),
        None => t.hexes@.len() < 2,
    }
}

proof fn lemma_sums_bounded(s: Seq<(i32, i32)>, k: int)
    requires
        0 <= k <= s.len(),
        forall|i: int| 0 <= i < s.len() ==> 0 <= (#[trigger] s[i]).0 < 64 && 0 <= s[i].1 < 64,
    ensures
        0 <= sum_x(s.take(k)) <= 64 * k,
        0 <= sum_y(s.take(k)) <= 64 * k,
    decreases k,
{
    if k > 0 {
        assert(s.take(k).drop_last() =~= s.take(k - 1));
        lemma_sums_bounded(s, k - 1);
    }
}

/// The hex of a territory nearest its centroid: the house.
pub fn pick_capital(hexes: &Vec<(i32, i32)>) -> (c: (i32, i32))
    requires
        1 <= hexes@.len() <= 4096,
        forall|i: int|
            0 <= i < hexes@.len() ==> 0 <= (#[trigger] hexes@[i]).0 < 64 && 0 <= hexes@[i].1 < 64,
    ensures
        is_capital(hexes@, c),
{
    let ghost s = hexes@;
    let n = hexes.len();
    let mut sx: i64 = 0;
    let mut sy: i64 = 0;
    let mut i: usize = 0;
    while i < n
        invariant
            n == s.len(),
            s == hexes@,
            1 <= n <= 4096,
            i <= n,
            forall|k: int| 0 <= k < s.len() ==> 0 <= (#[trigger] s[k]).0 < 64 && 0 <= s[k].1 < 64,
            sx == sum_x(s.take(i as int)),
            sy == sum_y(s.take(i as int)),
        decreases n - i,
    {
        proof {
            assert(s.take(i + 1).drop_last() =~= s.take(i as int));
            lemma_sums_bounded(s, i as int);
        }
        sx = sx + hexes[i].0 as i64;
        sy = sy + hexes[i].1 as i64;
        i += 1;
    }
    proof {
        assert(s.take(n as int) =~= s);
        lemma_sums_bounded(s, n as int);
    }
    let nn = n as i64;
    let mut best = hexes[0];
    let mut bd: i64 = i64::MAX;
    let mut k: usize = 0;
    while k < n
        invariant
            n == s.len(),
            s == hexes@,
            1 <= n <= 4096,
            nn == n,
            k <= n,
            forall|j: int| 0 <= j < s.len() ==> 0 <= (#[trigger] s[j]).0 < 64 && 0 <= s[j].1 < 64,
            sx == sum_x(s),
            sy == sum_y(s),
            0 <= sx <= 64 * 4096,
            0 <= sy <= 64 * 4096,
            k == 0 ==> bd == i64::MAX && best == s[0],
            k > 0 ==> s.subrange(0, k as int).contains(best) && bd == centre_score(s, best),
            forall|j: int|
                0 <= j < k ==> centre_score(s, best) < centre_score(s, #[trigger] s[j]) || (
                centre_score(s, best) == centre_score(s, s[j]) && !lex_lt(s[j], best)),
        decreases n - k,
    {
        let p = hexes[k];
        proof {
            assert(0 <= nn * (p.0 as i64) <= 4096 * 64) by (nonlinear_arith)
                requires
                    0 <= nn <= 4096,
                    0 <= p.0 < 64,
            ;
            assert(0 <= nn * (p.1 as i64) <= 4096 * 64) by (nonlinear_arith)
                requires
                    0 <= nn <= 4096,
                    0 <= p.1 < 64,
            ;
        }
        let dx = nn * (p.0 as i64) - sx;
        let dy = nn * (p.1 as i64) - sy;
        proof {
            assert(0 <= dx * dx <= 262144 * 262144) by (nonlinear_arith)
                requires
                    -262144 <= dx <= 262144,
            ;
            assert(0 <= dy * dy <= 262144 * 262144) by (nonlinear_arith)
                requires
                    -262144 <= dy <= 262144,
            ;
        }
        let d = dx * dx + dy * dy;
        proof {
            assert(d == centre_score(s, p));
        }
        let ghost best0 = best;
        if k == 0 || d < bd || (d == bd && (p.0 < best.0 || (p.0 == best.0 && p.1 < best.1))) {
            best = p;
            bd = d;
        }
        proof {
            let sub = s.subrange(0, k + 1);
            assert(sub[k as int] == p);
            if best == p {
                assert(sub.contains(best));
            } else {
                let j0 = choose|j0: int| 0 <= j0 < k && s.subrange(0, k as int)[j0] == best0;
                assert(sub[j0] == best0);
                assert(sub.contains(best));
            }
        }
        k += 1;
    }
    proof {
        assert(s.subrange(0, n as int) =~= s);
        assert forall|q: (i32, i32)| #[trigger] s.contains(q) implies centre_score(s, best)
            < centre_score(s, q) || (centre_score(s, best) == centre_score(s, q) && !lex_lt(
            q,
            best,
        )) by {
            let j = choose|j: int| 0 <= j < s.len() && s[j] == q;
        }
    }
    best
}


// ---------- treasuries when territories change ----------

/// The hex that decides where an old treasury goes: its house, or its only hex.
pub open spec fn anchor(t: Terr) -> (i32, i32) {
    match t.capital {
        Some(c) => c,
        None => t.hexes@[0],
    }
}

pub open spec fn shares_hex(a: Seq<(i32, i32)>, b: Seq<(i32, i32)>) -> bool {
    exists|p: (i32, i32)| a.contains(p) && #[trigger] b.contains(p)
}

/// An old territory hands its treasury to a new region of the same owner
/// that overlaps it and keeps its house (if it had one).
pub open spec fn inherits(t: Terr, o: i8, region: Seq<(i32, i32)>) -> bool {
    &&& t.owner == o
    &&& shares_hex(t.hexes@, region)
    &&& match t.capital {
        Some(c) => region.contains(c),
        None => true,
    }
}

/// Gold a new region of owner `o` receives from the old territories.
pub open spec fn inherited(old: Seq<Terr>, o: i8, region: Seq<(i32, i32)>) -> int
    decreases old.len(),
{
    if old.len() == 0 {
        0
    } else {
        inherited(old.drop_last(), o, region) + if inherits(old.last(), o, region) {
            old.last().savings as int
        } else {
            0
        }
    }
}

/// Gold of the territories marked in `used`.
pub open spec fn masked_gold(ts: Seq<Terr>, used: Seq<bool>) -> int
    decreases ts.len(),
{
    if ts.len() == 0 {
        0
    } else {
        masked_gold(ts.drop_last(), used.take(ts.len() - 1)) + if used[ts.len() - 1] {
            ts.last().savings as int
        } else {
            0
        }
    }
}

proof fn lemma_masked_gold_mark(ts: Seq<Terr>, used: Seq<bool>, k: int)
    requires
        used.len() == ts.len(),
        0 <= k < ts.len(),
        !used[k],
    ensures
        masked_gold(ts, used.update(k, true)) == masked_gold(ts, used) + ts[k].savings,
    decreases ts.len(),
{
    let n = ts.len() - 1;
    let u2 = used.update(k, true);
    if k == n {
        assert(u2.take(n) =~= used.take(n));
    } else {
        assert(u2.take(n) =~= used.take(n).update(k, true));
        lemma_masked_gold_mark(ts.drop_last(), used.take(n), k);
    }
}

proof fn lemma_masked_gold_bounds(ts: Seq<Terr>, used: Seq<bool>)
    requires
        used.len() == ts.len(),
        forall|i: int| 0 <= i < ts.len() ==> (#[trigger] ts[i]).savings >= 0,
    ensures
        0 <= masked_gold(ts, used) <= crate::game::total_gold(ts),
    decreases ts.len(),
{
    if ts.len() > 0 {
        lemma_masked_gold_bounds(ts.drop_last(), used.take(ts.len() - 1));
    }
}

proof fn lemma_masked_gold_none(ts: Seq<Terr>, used: Seq<bool>)
    requires
        used.len() == ts.len(),
        forall|i: int| 0 <= i < used.len() ==> !#[trigger] used[i],
    ensures
        masked_gold(ts, used) == 0,
    decreases ts.len(),
{
    if ts.len() > 0 {
        lemma_masked_gold_none(ts.drop_last(), used.take(ts.len() - 1));
    }
}

/// Some territory lists `p`.
pub open spec fn covered(ts: Seq<Terr>, p: (i32, i32)) -> bool {
    exists|i: int| 0 <= i < ts.len() && #[trigger] ts[i].hexes@.contains(p)
}

/// Territories come grouped by owner, and by first hex within an owner.
pub open spec fn terrs_ordered(ts: Seq<Terr>) -> bool {
    forall|i: int, j: int|
        0 <= i < j < ts.len() ==> (#[trigger] ts[i]).owner < (#[trigger] ts[j]).owner || (
        ts[i].owner == ts[j].owner && lex_lt(ts[i].hexes@[0], ts[j].hexes@[0]))
}


pub proof fn lemma_covered_push(ts: Seq<Terr>, t: Terr, p: (i32, i32))
    ensures
        covered(ts.push(t), p) <==> covered(ts, p) || t.hexes@.contains(p),
{
    let us = ts.push(t);
    if covered(ts, p) {
        let i = choose|i: int| 0 <= i < ts.len() && #[trigger] ts[i].hexes@.contains(p);
        assert(us[i] == ts[i]);
        assert(us[i].hexes@.contains(p));
    }
    if t.hexes@.contains(p) {
        assert(us[ts.len() as int] == t);
        assert(us[ts.len() as int].hexes@.contains(p));
    }
    if covered(us, p) {
        let i = choose|i: int| 0 <= i < us.len() && #[trigger] us[i].hexes@.contains(p);
        if i < ts.len() {
            assert(us[i] == ts[i]);
            assert(ts[i].hexes@.contains(p));
        } else {
            assert(us[i] == t);
        }
    }
}

impl Game {
    /// The territories are a fresh count of the board made from the old
    /// territories `old`: the connected regions of each player's land, in
    /// seat and then (column, row) order, each housed at its centre and
    /// funded from the old treasuries it inherits, with no gold created.
    pub open spec fn recounted(&self, old: Seq<Terr>) -> bool {
        &&& self.terrs_shape_ok()
        &&& self.terrs_partition()
        &&& terrs_ordered(self.terrs@)
        &&& forall|i: int|
            0 <= i < self.terrs@.len() ==> capital_ok(#[trigger] self.terrs@[i])
                && self.terrs@[i].savings == inherited(old, self.terrs@[i].owner, self.terrs@[i].hexes@)
        &&& total_gold(self.terrs@) <= total_gold(old)
    }

    /// The board and the old territories are in shape for a recount.
    pub open spec fn recompute_ready(&self) -> bool {
        &&& self.dims_ok()
        &&& self.players_ok()
        &&& self.grid_ok()
        &&& self.terrs_shape_ok()
    }

    /// A freshly counted territory: shaped, fitting the board, housed, and
    /// funded from the old territories `old`.
    pub open spec fn region_ok(&self, old: Seq<Terr>, t: Terr) -> bool {
        &&& terr_shape(self.cols as int, self.rows as int, self.players@.len() as int, t)
        &&& self.terr_fits(t)
        &&& capital_ok(t)
        &&& t.savings == inherited(old, t.owner, t.hexes@)
    }

    /// Territories counted so far, with the old treasuries in `used` spent.
    pub open spec fn regions_ok(&self, old: Seq<Terr>, nt: Seq<Terr>, used: Seq<bool>) -> bool {
        &&& forall|i: int| 0 <= i < nt.len() ==> self.region_ok(old, #[trigger] nt[i])
        &&& terrs_disjoint(nt)
        &&& terrs_ordered(nt)
        &&& used.len() == old.len()
        &&& total_gold(nt) == masked_gold(old, used)
        &&& forall|k: int| 0 <= k < old.len() && #[trigger] used[k] ==> covered(nt, anchor(old[k]))
    }

    /// The listed hexes include one marked in `comp`.
    fn overlaps(&self, hexes: &Vec<(i32, i32)>, comp: &Vec<bool>) -> (b: bool)
        requires
            self.dims_ok(),
            comp@.len() == self.cells(),
            forall|i: int| 0 <= i < hexes@.len() ==> self.inside(#[trigger] hexes@[i]),
        ensures
            b == exists|p: (i32, i32)|
                #[trigger] hexes@.contains(p) && self.inside(p) && comp@[ix(self.cols as int, p)],
    {
        let mut i: usize = 0;
        while i < hexes.len()
            invariant
                self.dims_ok(),
                comp@.len() == self.cells(),
                forall|k: int| 0 <= k < hexes@.len() ==> self.inside(#[trigger] hexes@[k]),
                i <= hexes@.len(),
                forall|k: int| 0 <= k < i ==> !comp@[ix(self.cols as int, #[trigger] hexes@[k])],
            decreases hexes.len() - i,
        {
            let ci = cell(self.cols, self.rows, hexes[i]);
            if comp[ci] {
                assert(hexes@.contains(hexes@[i as int]));
                return true;
            }
            i += 1;
        }
        proof {
            assert forall|p: (i32, i32)|
                #[trigger] hexes@.contains(p) implies !(self.inside(p) && comp@[ix(
                    self.cols as int,
                    p,
                )]) by {
                let k = choose|k: int| 0 <= k < hexes@.len() && hexes@[k] == p;
            }
        }
        false
    }

    /// Gold the region marked in `comp` (listed as `region`) inherits.
    fn inheritance(
        &self,
        o: i8,
        comp: &Vec<bool>,
        region: Ghost<Seq<(i32, i32)>>,
        Ghost(used): Ghost<Seq<bool>>,
        Ghost(nt): Ghost<Seq<Terr>>,
    ) -> (res: (i64, Ghost<Seq<bool>>))
        requires
            self.recompute_ready(),
            comp@.len() == self.cells(),
            forall|p: (i32, i32)|
                #[trigger] region@.contains(p) <==> self.inside(p) && comp@[ix(self.cols as int, p)],
            forall|p: (i32, i32)| #[trigger] region@.contains(p) ==> !covered(nt, p),
            used.len() == self.terrs@.len(),
            forall|k: int|
                0 <= k < self.terrs@.len() && #[trigger] used[k] ==> covered(
                    nt,
                    anchor(self.terrs@[k]),
                ),
        ensures
            res.0 == inherited(self.terrs@, o, region@),
            res.0 >= 0,
            res.1@.len() == used.len(),
            masked_gold(self.terrs@, res.1@) == masked_gold(self.terrs@, used) + res.0,
            forall|k: int|
                0 <= k < self.terrs@.len() && #[trigger] res.1@[k] ==> used[k] || region@.contains(
                    anchor(self.terrs@[k]),
                ),
    {
        let ghost old = self.terrs@;
        let ghost np = self.players@.len() as int;
        proof {
            lemma_masked_gold_bounds(old, used);
        }
        let mut gold: i64 = 0;
        let ghost mut u = used;
        let mut k: usize = 0;
        while k < self.terrs.len()
            invariant
                self.recompute_ready(),
                old == self.terrs@,
                np == self.players@.len(),
                comp@.len() == self.cells(),
                forall|p: (i32, i32)|
                    #[trigger] region@.contains(p) <==> self.inside(p) && comp@[ix(
                        self.cols as int,
                        p,
                    )],
                forall|p: (i32, i32)| #[trigger] region@.contains(p) ==> !covered(nt, p),
                used.len() == old.len(),
                forall|j: int| 0 <= j < old.len() && #[trigger] used[j] ==> covered(nt, anchor(old[j])),
                k <= old.len(),
                gold == inherited(old.take(k as int), o, region@),
                gold >= 0,
                u.len() == old.len(),
                forall|j: int| k <= j < old.len() ==> #[trigger] u[j] == used[j],
                forall|j: int|
                    0 <= j < old.len() && #[trigger] u[j] ==> used[j] || region@.contains(anchor(old[j])),
                masked_gold(old, u) == masked_gold(old, used) + gold,
                masked_gold(old, u) <= total_gold(old),
                masked_gold(old, used) >= 0,
                total_gold(old) <= GOLD_CAP,
            decreases old.len() - k,
        {
            let t = &self.terrs[k];
            proof {
                assert(old.take(k + 1).drop_last() =~= old.take(k as int));
                assert(old.take(k + 1).last() == old[k as int]);
                assert(terr_shape(self.cols as int, self.rows as int, np, old[k as int]));
            }
            let mut takes = false;
            if t.owner == o && self.overlaps(&t.hexes, comp) {
                match t.capital {
                    Some(c) => {
                        let ci = cell(self.cols, self.rows, c);
                        takes = comp[ci];
                    },
                    None => {
                        takes = true;
                    },
                }
            }
            proof {
                let tt = old[k as int];
                assert(shares_hex(tt.hexes@, region@) <==> exists|p: (i32, i32)|
                    #[trigger] tt.hexes@.contains(p) && self.inside(p) && comp@[ix(self.cols as int, p)]) by {
                    if shares_hex(tt.hexes@, region@) {
                        let p = choose|p: (i32, i32)| tt.hexes@.contains(p) && #[trigger] region@.contains(p);
                        assert(tt.hexes@.contains(p) && self.inside(p) && comp@[ix(self.cols as int, p)]);
                    }
                    if exists|p: (i32, i32)|
                        #[trigger] tt.hexes@.contains(p) && self.inside(p) && comp@[ix(self.cols as int, p)] {
                        let p = choose|p: (i32, i32)|
                            #[trigger] tt.hexes@.contains(p) && self.inside(p) && comp@[ix(self.cols as int, p)];
                        assert(region@.contains(p));
                    }
                }
                match tt.capital {
                    Some(cc) => {
                        let j = choose|j: int| 0 <= j < tt.hexes@.len() && tt.hexes@[j] == cc;
                        assert(self.inside(tt.hexes@[j]));
                    },
                    None => {},
                }
                assert(takes == inherits(tt, o, region@));
            }
            if takes {
                proof {
                    let tt = old[k as int];
                    // the anchor lies in the region, which no counted territory covers
                    assert(region@.contains(anchor(tt))) by {
                        match tt.capital {
                            Some(cc) => {},
                            None => {
                                let p = choose|p: (i32, i32)| tt.hexes@.contains(p) && #[trigger] region@.contains(p);
                                let j = choose|j: int| 0 <= j < tt.hexes@.len() && tt.hexes@[j] == p;
                                assert(j == 0);
                            },
                        }
                    }
                    assert(!used[k as int]);
                    assert(!u[k as int]);
                    lemma_masked_gold_mark(old, u, k as int);
                    u = u.update(k as int, true);
                    lemma_masked_gold_bounds(old, u);
                    assert(gold + tt.savings <= GOLD_CAP);
                }
                gold = gold + t.savings;
            }
            k += 1;
        }
        proof {
            assert(old.take(old.len() as int) =~= old);
        }
        (gold, Ghost(u))
    }
}


impl Game {
    /// Counts the region of owner `o` around the unclaimed hex `s`, funds
    /// it, houses it, and strikes its hexes from `remaining`.
    fn add_region(
        &self,
        o: i8,
        s: (i32, i32),
        remaining: &mut Vec<bool>,
        nt: &mut Vec<Terr>,
        Ghost(used): Ghost<Seq<bool>>,
    ) -> (used2: Ghost<Seq<bool>>)
        requires
            self.recompute_ready(),
            0 <= o < self.players@.len(),
            self.inside(s),
            old(remaining)@.len() == self.cells(),
            old(remaining)@[ix(self.cols as int, s)],
            forall|p: (i32, i32)|
                self.inside(p) ==> (#[trigger] old(remaining)@[ix(self.cols as int, p)] <==> (
                self.land_of(o).contains(p) && !covered(old(nt)@, p))),
            forall|p: (i32, i32)|
                self.inside(p) && key(self.rows as int, p) < key(self.rows as int, s)
                    ==> !#[trigger] old(remaining)@[ix(self.cols as int, p)],
            self.regions_ok(self.terrs@, old(nt)@, used),
            forall|i: int| 0 <= i < old(nt)@.len() ==> (#[trigger] old(nt)@[i]).owner <= o,
            forall|i: int|
                0 <= i < old(nt)@.len() && (#[trigger] old(nt)@[i]).owner == o ==> lex_lt(
                    old(nt)@[i].hexes@[0],
                    s,
                ),
        ensures
            final(remaining)@.len() == self.cells(),
            forall|p: (i32, i32)|
                self.inside(p) ==> (#[trigger] final(remaining)@[ix(self.cols as int, p)] <==> (
                self.land_of(o).contains(p) && !covered(final(nt)@, p))),
            forall|p: (i32, i32)|
                self.inside(p) && key(self.rows as int, p) <= key(self.rows as int, s)
                    ==> !#[trigger] final(remaining)@[ix(self.cols as int, p)],
            final(nt)@.len() == old(nt)@.len() + 1,
            forall|i: int| 0 <= i < old(nt)@.len() ==> #[trigger] final(nt)@[i] == old(nt)@[i],
            final(nt)@[old(nt)@.len() as int].owner == o,
            final(nt)@[old(nt)@.len() as int].hexes@[0] == s,
            self.regions_ok(self.terrs@, final(nt)@, used2@),
    {
        let ghost c = self.cols as int;
        let ghost r = self.rows as int;
        let ghost lo = self.land_of(o);
        let ghost nt0 = nt@;
        let ghost rem0 = remaining@;
        let ghost old_terrs = self.terrs@;
        let comp = flood(self.cols, self.rows, remaining, s);
        let hexes = mask_to_hexes(self.cols, self.rows, &comp);
        let ghost v = hexes@;
        proof {
            assert forall|p: (i32, i32)| #[trigger] v.contains(p) implies rem0[ix(c, p)]
                && lo.contains(p) && !covered(nt0, p) && !lex_lt(p, s) by {
                lemma_ix_bounds(c, r, p);
                lemma_key_lex(c, r, p, s);
            }
            assert(v.contains(s));
            // the scan start is the first hex of the region
            assert(v[0] == s) by {
                let k = choose|k: int| 0 <= k < v.len() && v[k] == s;
                if k > 0 {
                    assert(lex_lt(v[0], v[k]));
                    assert(v.contains(v[0]));
                }
            }
            // the region is closed under same-owner land neighbours
            assert forall|p: (i32, i32), q: (i32, i32)|
                #![trigger v.contains(p), v.contains(q)]
                v.contains(p) && self.adj(p, q) && lo.contains(q) implies v.contains(q) by {
                lemma_ix_bounds(c, r, q);
                if !rem0[ix(c, q)] {
                    assert(covered(nt0, q));
                    let i = choose|i: int| 0 <= i < nt0.len() && #[trigger] nt0[i].hexes@.contains(q);
                    assert(self.region_ok(old_terrs, nt0[i]));
                    assert(self.land_of(nt0[i].owner).contains(q));
                    lemma_adjacent_symmetric(c, r, p, q);
                    assert(nt0[i].hexes@.contains(p));
                    assert(covered(nt0, p));
                    assert(false);
                }
            }
            // every hex of it is reachable from the first
            assert(mask_set(c, r, rem0).subset_of(lo)) by {
                assert forall|p: (i32, i32)| mask_set(c, r, rem0).contains(p) implies lo.contains(p) by {
                }
            }
            assert forall|p: (i32, i32)| #[trigger] v.contains(p) implies reachable(c, r, lo, v[0], p) by {
                lemma_reachable_widen(c, r, mask_set(c, r, rem0), lo, s, p);
            }
        }
        let (gold, Ghost(u2)) = self.inheritance(o, &comp, Ghost(hexes@), Ghost(used), Ghost(nt0));
        proof {
            assert(c * r <= 4096) by (nonlinear_arith)
                requires
                    board_ok(c, r),
            ;
        }
        let capital = if hexes.len() >= 2 {
            Some(pick_capital(&hexes))
        } else {
            None
        };
        let ghost t = Terr { owner: o, hexes: hexes, savings: gold, capital: capital };
        let len0 = nt.len();
        nt.push(Terr { owner: o, hexes, savings: gold, capital });
        // strike the region from the unclaimed hexes
        let n = remaining.len();
        let mut i: usize = 0;
        while i < n
            invariant
                n == rem0.len(),
                remaining@.len() == n,
                comp@.len() == n,
                i <= n,
                forall|j: int| 0 <= j < i ==> #[trigger] remaining@[j] == (rem0[j] && !comp@[j]),
                forall|j: int| i <= j < n ==> #[trigger] remaining@[j] == rem0[j],
            decreases n - i,
        {
            if comp[i] {
                remaining.set(i, false);
            }
            i += 1;
        }
        proof {
            let nt1 = nt@;
            assert(nt1 =~= nt0.push(nt1[len0 as int]));
            let tt = nt1[len0 as int];
            assert(tt.hexes@ == v);
            assert forall|p: (i32, i32)| self.inside(p) implies (#[trigger] remaining@[ix(c, p)] <==> (
                lo.contains(p) && !covered(nt1, p))) by {
                lemma_ix_bounds(c, r, p);
                lemma_covered_push(nt0, tt, p);
            }
            assert forall|p: (i32, i32)|
                self.inside(p) && key(r, p) <= key(r, s) implies !#[trigger] remaining@[ix(c, p)] by {
                lemma_ix_bounds(c, r, p);
                lemma_key_lex(c, r, p, s);
            }
            // the new territory
            assert(sorted_hexes(v));
            assert(self.terr_fits(tt));
            assert(capital_ok(tt));
            assert(terr_shape(c, r, self.players@.len() as int, tt)) by {
                assert(v.contains(s));
                assert(1 <= v.len());
                match tt.capital {
                    Some(cc) => {},
                    None => {},
                }
            }
            assert(self.region_ok(old_terrs, tt));
            assert forall|k: int| 0 <= k < nt1.len() implies self.region_ok(old_terrs, #[trigger] nt1[k]) by {
                if k < nt0.len() {
                    assert(nt1[k] == nt0[k]);
                }
            }
            // disjointness
            assert forall|a: int, b: int, p: (i32, i32)|
                0 <= a < nt1.len() && 0 <= b < nt1.len() && a != b && #[trigger] nt1[a].hexes@.contains(p)
                    implies !#[trigger] nt1[b].hexes@.contains(p) by {
                if a < nt0.len() && b < nt0.len() {
                    assert(nt1[a] == nt0[a] && nt1[b] == nt0[b]);
                } else if a < nt0.len() {
                    assert(nt1[a] == nt0[a]);
                    assert(covered(nt0, p));
                } else {
                    assert(nt1[b] == nt0[b]);
                    if nt1[b].hexes@.contains(p) {
                        assert(nt0[b].hexes@.contains(p));
                        assert(covered(nt0, p));
                    }
                }
            }
            // order
            assert forall|a: int, b: int| 0 <= a < b < nt1.len() implies (#[trigger] nt1[a]).owner < (
            #[trigger] nt1[b]).owner || (nt1[a].owner == nt1[b].owner && lex_lt(
                nt1[a].hexes@[0],
                nt1[b].hexes@[0],
            )) by {
                assert(nt1[a] == nt0[a]);
                if b < nt0.len() {
                    assert(nt1[b] == nt0[b]);
                }
            }
            // gold
            assert(nt1.drop_last() =~= nt0);
            assert forall|k: int| 0 <= k < old_terrs.len() && #[trigger] u2[k] implies covered(
                nt1,
                anchor(old_terrs[k]),
            ) by {
                lemma_covered_push(nt0, tt, anchor(old_terrs[k]));
            }
        }
        Ghost(u2)
    }

    /// Counts every region of owner `o`, scanning the board in (column, row)
    /// order.
    fn grow_regions(&self, o: i8, nt: &mut Vec<Terr>, Ghost(used): Ghost<Seq<bool>>) -> (used2: Ghost<
        Seq<bool>,
    >)
        requires
            self.recompute_ready(),
            0 <= o < self.players@.len(),
            self.regions_ok(self.terrs@, old(nt)@, used),
            forall|i: int| 0 <= i < old(nt)@.len() ==> (#[trigger] old(nt)@[i]).owner < o,
            forall|p: (i32, i32)|
                #![trigger self.hex_at(p)]
                self.inside(p) && !self.hex_at(p).water && 0 <= self.hex_at(p).owner < o ==> covered(
                    old(nt)@,
                    p,
                ),
            old(nt)@.len() <= o * self.cells(),
        ensures
            self.regions_ok(self.terrs@, final(nt)@, used2@),
            forall|i: int| 0 <= i < final(nt)@.len() ==> (#[trigger] final(nt)@[i]).owner <= o,
            forall|p: (i32, i32)|
                #![trigger self.hex_at(p)]
                self.inside(p) && !self.hex_at(p).water && 0 <= self.hex_at(p).owner <= o ==> covered(
                    final(nt)@,
                    p,
                ),
            final(nt)@.len() <= (o + 1) * self.cells(),
    {
        let ghost c = self.cols as int;
        let ghost r = self.rows as int;
        let ghost lo = self.land_of(o);
        let ghost old_terrs = self.terrs@;
        let ghost nt0 = nt@;
        proof {
            assert(0 < c * r <= 4096) by (nonlinear_arith)
                requires
                    board_ok(c, r),
            ;
        }
        let n = (self.cols * self.rows) as usize;
        let mut remaining: Vec<bool> = Vec::new();
        let mut i: usize = 0;
        while i < n
            invariant
                self.recompute_ready(),
                n == self.cells(),
                i <= n,
                remaining@.len() == i,
                forall|j: int|
                    0 <= j < i ==> #[trigger] remaining@[j] == (self.grid@[j].owner == o
                        && !self.grid@[j].water),
            decreases n - i,
        {
            let h = &self.grid[i];
            remaining.push(h.owner == o && !h.water);
            i += 1;
        }
        proof {
            assert forall|p: (i32, i32)| self.inside(p) implies (#[trigger] remaining@[ix(c, p)] <==> (
                lo.contains(p) && !covered(nt@, p))) by {
                lemma_ix_bounds(c, r, p);
                if covered(nt@, p) {
                    let k = choose|k: int| 0 <= k < nt@.len() && #[trigger] nt@[k].hexes@.contains(p);
                    assert(self.region_ok(old_terrs, nt@[k]));
                    assert(self.land_of(nt@[k].owner).contains(p));
                }
            }
        }
        let mut t: usize = 0;
        let ghost mut u = used;
        while t < n
            invariant
                self.recompute_ready(),
                c == self.cols,
                r == self.rows,
                lo == self.land_of(o),
                old_terrs == self.terrs@,
                0 <= o < self.players@.len(),
                n == c * r,
                t <= n,
                remaining@.len() == n,
                forall|p: (i32, i32)|
                    self.inside(p) ==> (#[trigger] remaining@[ix(c, p)] <==> (lo.contains(p)
                        && !covered(nt@, p))),
                forall|p: (i32, i32)|
                    self.inside(p) && key(r, p) < t ==> !#[trigger] remaining@[ix(c, p)],
                self.regions_ok(old_terrs, nt@, u),
                forall|k: int| 0 <= k < nt@.len() ==> (#[trigger] nt@[k]).owner <= o,
                forall|k: int|
                    0 <= k < nt@.len() && (#[trigger] nt@[k]).owner == o ==> key(r, nt@[k].hexes@[0])
                        < t && self.inside(nt@[k].hexes@[0]),
                forall|k: int| 0 <= k < nt0.len() ==> #[trigger] nt@[k] == nt0[k],
                nt@.len() >= nt0.len(),
                nt@.len() <= nt0.len() + t,
                nt0.len() <= o * (c * r),
            decreases n - t,
        {
            let x = (t / (self.rows as usize)) as i32;
            let y = (t % (self.rows as usize)) as i32;
            let s = (x, y);
            proof {
                let ti = t as int;
                assert(0 <= ti / r < c && 0 <= ti % r < r && (ti / r) * r + ti % r == ti) by (nonlinear_arith)
                    requires
                        0 <= ti < c * r,
                        1 <= r,
                        1 <= c,
                ;
                assert(key(r, s) == t);
                assert(self.inside(s));
            }
            let si = cell(self.cols, self.rows, s);
            if remaining[si] {
                proof {
                    assert forall|k: int|
                        0 <= k < nt@.len() && (#[trigger] nt@[k]).owner == o implies lex_lt(
                            nt@[k].hexes@[0],
                            s,
                        ) by {
                        lemma_key_lex(c, r, nt@[k].hexes@[0], s);
                    }
                }
                let ghost nt_before = nt@;
                let Ghost(u2) = self.add_region(o, s, &mut remaining, nt, Ghost(u));
                proof {
                    u = u2;
                    assert forall|k: int|
                        0 <= k < nt@.len() && (#[trigger] nt@[k]).owner == o implies key(
                            r,
                            nt@[k].hexes@[0],
                        ) < t + 1 && self.inside(nt@[k].hexes@[0]) by {
                        if k < nt_before.len() {
                            assert(nt@[k] == nt_before[k]);
                        }
                    }
                    assert forall|k: int| 0 <= k < nt0.len() implies #[trigger] nt@[k] == nt0[k] by {
                        assert(nt@[k] == nt_before[k]);
                    }
                    assert forall|k: int| 0 <= k < nt@.len() implies (#[trigger] nt@[k]).owner <= o by {
                        if k < nt_before.len() {
                            assert(nt@[k] == nt_before[k]);
                        }
                    }
                }
            } else {
                proof {
                    assert forall|p: (i32, i32)|
                        self.inside(p) && key(r, p) < t + 1 implies !#[trigger] remaining@[ix(c, p)] by {
                        if key(r, p) == t {
                            lemma_key_lex(c, r, p, s);
                        }
                    }
                }
            }
            t += 1;
        }
        proof {
            assert forall|p: (i32, i32)|
                #![trigger self.hex_at(p)]
                self.inside(p) && !self.hex_at(p).water && 0 <= self.hex_at(p).owner <= o implies covered(
                    nt@,
                    p,
                ) by {
                if self.hex_at(p).owner < o {
                    let k = choose|k: int| 0 <= k < nt0.len() && #[trigger] nt0[k].hexes@.contains(p);
                    assert(nt@[k] == nt0[k]);
                    assert(nt@[k].hexes@.contains(p));
                } else {
                    lemma_key_lex(c, r, p, p);
                    assert(lo.contains(p));
                    assert(!remaining@[ix(c, p)]);
                }
            }
            assert((o + 1) * (c * r) == o * (c * r) + c * r) by (nonlinear_arith);
        }
        Ghost(u)
    }

    /// Recounts the territories from the board: every connected region of
    /// each player's land becomes a territory, in seat order and then in
    /// (column, row) order of first hex. A region keeps the treasuries of the
    /// old territories it overlaps whose house it holds (a house-less old
    /// territory counts wherever it lies); the house goes to the hex nearest
    /// the region's centroid. No gold is created: the treasuries sum to at
    /// most what they summed to before.
    pub fn recompute(&mut self)
        requires
            old(self).recompute_ready(),
        ensures
            final(self).recounted(old(self).terrs@),
            final(self).grid@ == old(self).grid@,
            final(self).same_setup(old(self)),
            final(self).round == old(self).round,
            final(self).current == old(self).current,
            final(self).log@ == old(self).log@,
            final(self).sel == old(self).sel,
            final(self).focus == old(self).focus,
            final(self).rng == old(self).rng,
    {
        let ghost old_terrs = self.terrs@;
        let ghost c = self.cols as int;
        let ghost r = self.rows as int;
        let mut nt: Vec<Terr> = Vec::new();
        let ghost mut u: Seq<bool> = Seq::new(self.terrs@.len(), |i: int| false);
        proof {
            lemma_masked_gold_none(old_terrs, u);
            assert(nt@ =~= Seq::<Terr>::empty());
        }
        let mut k: usize = 0;
        let np = self.players.len();
        while k < np
            invariant
                self.recompute_ready(),
                old_terrs == self.terrs@,
                np == self.players@.len(),
                k <= np,
                self.regions_ok(old_terrs, nt@, u),
                forall|i: int| 0 <= i < nt@.len() ==> (#[trigger] nt@[i]).owner < k,
                forall|p: (i32, i32)|
                    #![trigger self.hex_at(p)]
                    self.inside(p) && !self.hex_at(p).water && 0 <= self.hex_at(p).owner < k
                        ==> covered(nt@, p),
                nt@.len() <= k * self.cells(),
            decreases np - k,
        {
            let o = self.players[k];
            assert(o == k);
            let Ghost(u2) = self.grow_regions(o, &mut nt, Ghost(u));
            proof {
                u = u2;
                assert((k + 1) * self.cells() == o * self.cells() + self.cells()) by (nonlinear_arith)
                    requires
                        o == k,
                ;
            }
            k += 1;
        }
        proof {
            lemma_masked_gold_bounds(old_terrs, u);
            assert(nt@.len() <= 4 * self.cells()) by (nonlinear_arith)
                requires
                    nt@.len() <= np * self.cells(),
                    np <= 4,
                    self.cells() >= 0,
            ;
        }
        let ghost pre = *self;
        self.terrs = nt;
        proof {
            reveal(Game::terrs_partition);
            assert forall|i: int| 0 <= i < self.terrs@.len() implies self.terr_fits(#[trigger] self.terrs@[i]) by {
                assert(pre.region_ok(old_terrs, nt@[i]));
                assert(pre.land_of(nt@[i].owner) == self.land_of(nt@[i].owner));
            }
            assert forall|p: (i32, i32)|
                #![trigger self.hex_at(p)]
                self.inside(p) && !self.hex_at(p).water && 0 <= self.hex_at(p).owner < self.players@.len() implies exists|i: int|
                    0 <= i < self.terrs@.len() && #[trigger] self.terrs@[i].hexes@.contains(p) by {
                lemma_ix_bounds(c, r, p);
                assert(pre.hex_at(p) == self.hex_at(p));
                assert(0 <= pre.hex_at(p).owner < k);
                assert(covered(nt@, p));
                let i = choose|i: int| 0 <= i < nt@.len() && #[trigger] nt@[i].hexes@.contains(p);
                assert(self.terrs@[i].hexes@.contains(p));
            }
        }
    }
}

/// Two sorted lists of the same hexes are the same list.
pub proof fn lemma_sorted_same(s: Seq<(i32, i32)>, t: Seq<(i32, i32)>)
    requires
        sorted_hexes(s),
        sorted_hexes(t),
        forall|q: (i32, i32)| s.contains(q) <==> t.contains(q),
    ensures
        s == t,
    decreases s.len(),
{
    if s.len() == 0 {
        if t.len() > 0 {
            assert(t.contains(t[0]));
        }
        assert(s =~= t);
    } else {
        assert(s.contains(s[0]));
        let k = choose|k: int| 0 <= k < t.len() && t[k] == s[0];
        assert(t.contains(t[0]));
        let m = choose|m: int| 0 <= m < s.len() && s[m] == t[0];
        if m > 0 {
            assert(lex_lt(s[0], s[m]));
            if k > 0 {
                assert(lex_lt(t[0], t[k]));
            }
        }
        if k > 0 {
            assert(lex_lt(t[0], t[k]));
        }
        assert(s[0] == t[0]);
        let s1 = s.drop_first();
        let t1 = t.drop_first();
        assert forall|q: (i32, i32)| s1.contains(q) <==> t1.contains(q) by {
            if s1.contains(q) {
                let i = choose|i: int| 0 <= i < s1.len() && s1[i] == q;
                assert(s[i + 1] == q);
                assert(lex_lt(s[0], s[i + 1]));
                assert(t.contains(q));
                let j = choose|j: int| 0 <= j < t.len() && t[j] == q;
                assert(j != 0);
                assert(t1[j - 1] == q);
            }
            if t1.contains(q) {
                let i = choose|i: int| 0 <= i < t1.len() && t1[i] == q;
                assert(t[i + 1] == q);
                assert(lex_lt(t[0], t[i + 1]));
                assert(s.contains(q));
                let j = choose|j: int| 0 <= j < s.len() && s[j] == q;
                assert(j != 0);
                assert(s1[j - 1] == q);
            }
        }
        lemma_sorted_same(s1, t1);
        assert(s =~= t) by {
            assert forall|i: int| 0 <= i < s.len() implies s[i] == t[i] by {
                if i > 0 {
                    assert(s[i] == s1[i - 1] && t[i] == t1[i - 1]);
                }
            }
        }
    }
}

/// A territory has at most one house spot.
proof fn lemma_capital_unique(s: Seq<(i32, i32)>, c1: (i32, i32), c2: (i32, i32))
    requires
        is_capital(s, c1),
        is_capital(s, c2),
    ensures
        c1 == c2,
{
    assert(s.contains(c2));
    assert(s.contains(c1));
}

/// Some entry of `f` is `k`.
pub open spec fn index_hit(f: Seq<int>, k: int) -> bool {
    exists|a: int| 0 <= a < f.len() && #[trigger] f[a] == k
}

/// Indices that rise strictly, stay below `n`, and reach every index below
/// `n` are the indices themselves.
proof fn lemma_index_identity(f: Seq<int>, n: int, i: int)
    requires
        0 <= i < f.len(),
        forall|a: int, b: int| 0 <= a < b < f.len() ==> #[trigger] f[a] < #[trigger] f[b],
        forall|a: int| 0 <= a < f.len() ==> 0 <= #[trigger] f[a] < n,
        forall|k: int| 0 <= k < n ==> #[trigger] index_hit(f, k),
    ensures
        f[i] == i,
    decreases i,
{
    if i > 0 {
        lemma_index_identity(f, n, i - 1);
        assert(f[i - 1] < f[i]);
    }
    assert(f[i] >= i);
    assert(index_hit(f, i));
    let a = choose|a: int| 0 <= a < f.len() && #[trigger] f[a] == i;
    if a < i {
        lemma_index_identity(f, n, a);
    } else if a > i {
        assert(f[i] < f[a]);
    }
}

/// The old territories hand a region exactly the treasury of the one
/// territory that passes it on.
proof fn lemma_inherited_single(ts: Seq<Terr>, o: i8, region: Seq<(i32, i32)>, i: int)
    requires
        0 <= i < ts.len(),
        inherits(ts[i], o, region),
        forall|j: int| 0 <= j < ts.len() && j != i ==> !#[trigger] inherits(ts[j], o, region),
    ensures
        inherited(ts, o, region) == ts[i].savings,
    decreases ts.len(),
{
    let d = ts.drop_last();
    if i < ts.len() - 1 {
        assert forall|j: int| 0 <= j < d.len() && j != i implies !#[trigger] inherits(d[j], o, region) by {
            assert(d[j] == ts[j]);
        }
        assert(d[i] == ts[i]);
        lemma_inherited_single(d, o, region, i);
        assert(!inherits(ts[ts.len() - 1], o, region));
    } else {
        lemma_inherited_none(d, o, region);
    }
}

/// No old territory passes anything on: nothing is inherited.
proof fn lemma_inherited_none(ts: Seq<Terr>, o: i8, region: Seq<(i32, i32)>)
    requires
        forall|j: int| 0 <= j < ts.len() ==> !#[trigger] inherits(ts[j], o, region),
    ensures
        inherited(ts, o, region) == 0,
    decreases ts.len(),
{
    if ts.len() > 0 {
        let d = ts.drop_last();
        assert forall|j: int| 0 <= j < d.len() implies !#[trigger] inherits(d[j], o, region) by {
            assert(d[j] == ts[j]);
        }
        lemma_inherited_none(d, o, region);
        assert(!inherits(ts[ts.len() - 1], o, region));
    }
}

impl Game {
    /// A territory of `b` is, hexes and owner alike, a territory of `a`,
    /// when both count the regions of the same board.
    proof fn lemma_region_match(a: &Game, b: &Game, i: int) -> (j: int)
        requires
            a.cols == b.cols,
            a.rows == b.rows,
            a.grid@ == b.grid@,
            a.players@ == b.players@,
            a.terrs_shape_ok(),
            b.terrs_shape_ok(),
            a.terrs_partition(),
            b.terrs_partition(),
            0 <= i < b.terrs@.len(),
        ensures
            0 <= j < a.terrs@.len(),
            a.terrs@[j].owner == b.terrs@[i].owner,
            a.terrs@[j].hexes@ == b.terrs@[i].hexes@,
    {
        reveal(Game::terrs_partition);
        let c = a.cols as int;
        let r = a.rows as int;
        let t = b.terrs@[i];
        let o = t.owner;
        assert(terr_shape(c, r, b.players@.len() as int, t));
        assert(b.terr_fits(t));
        let u0 = t.hexes@[0];
        assert(t.hexes@.contains(u0));
        assert(b.land_of(o).contains(u0));
        assert(a.land_of(o) =~= b.land_of(o)) by {
            assert forall|p: (i32, i32)| a.land_of(o).contains(p) <==> b.land_of(o).contains(p) by {
                assert(a.hex_at(p) == b.hex_at(p));
            }
        }
        let l = a.land_of(o);
        assert(a.hex_at(u0) == b.hex_at(u0));
        assert(a.inside(u0) && !a.hex_at(u0).water && 0 <= a.hex_at(u0).owner < a.players@.len());
        let j = choose|j: int| 0 <= j < a.terrs@.len() && #[trigger] a.terrs@[j].hexes@.contains(u0);
        let s = a.terrs@[j];
        assert(terr_shape(c, r, a.players@.len() as int, s));
        assert(a.terr_fits(s));
        assert(a.land_of(s.owner).contains(u0));
        assert(s.owner == o);
        assert forall|q: (i32, i32)| #[trigger] l.contains(q) implies in_grid(c, r, q) by {}
        let xs = Set::new(|p: (i32, i32)| s.hexes@.contains(p));
        let xt = Set::new(|p: (i32, i32)| t.hexes@.contains(p));
        assert forall|p: (i32, i32), q: (i32, i32)|
            #[trigger] xs.contains(p) && adjacent(c, r, p, q) && l.contains(q) implies #[trigger] xs.contains(q) by {
            assert(s.hexes@.contains(p) && a.adj(p, q) && a.land_of(s.owner).contains(q));
        }
        assert forall|p: (i32, i32), q: (i32, i32)|
            #[trigger] xt.contains(p) && adjacent(c, r, p, q) && l.contains(q) implies #[trigger] xt.contains(q) by {
            assert(t.hexes@.contains(p) && b.adj(p, q) && b.land_of(t.owner).contains(q));
        }
        assert forall|q: (i32, i32)| t.hexes@.contains(q) implies s.hexes@.contains(q) by {
            assert(reachable(c, r, b.land_of(o), t.hexes@[0], q));
            crate::hexgrid::lemma_closed_holds_reachable(c, r, l, xs, u0, q);
        }
        let s0 = s.hexes@[0];
        assert(s.hexes@.contains(s0));
        assert(reachable(c, r, l, s0, u0));
        crate::hexgrid::lemma_reachable_symmetric(c, r, l, s0, u0);
        crate::hexgrid::lemma_closed_holds_reachable(c, r, l, xt, u0, s0);
        assert forall|q: (i32, i32)| s.hexes@.contains(q) implies t.hexes@.contains(q) by {
            assert(reachable(c, r, l, s0, q));
            crate::hexgrid::lemma_closed_holds_reachable(c, r, l, xt, s0, q);
        }
        lemma_sorted_same(s.hexes@, t.hexes@);
        j
    }

    /// Counting the territories again changes nothing: a recount of a board
    /// whose territories were just counted gives the same territories,
    /// owners, hexes, houses and treasuries, in the same order.
    pub proof fn lemma_recount_idempotent(a: &Game, b: &Game, old: Seq<Terr>)
        requires
            a.recounted(old),
            b.recounted(a.terrs@),
            a.grid@ == b.grid@,
            b.same_setup(a),
        ensures
            b.terrs@.len() == a.terrs@.len(),
            forall|i: int|
                0 <= i < b.terrs@.len() ==> (#[trigger] b.terrs@[i]).owner == a.terrs@[i].owner && b.terrs@[i].hexes@
                    == a.terrs@[i].hexes@ && b.terrs@[i].capital == a.terrs@[i].capital && b.terrs@[i].savings
                    == a.terrs@[i].savings,
    {
        reveal(Game::terrs_partition);
        let ats = a.terrs@;
        let bts = b.terrs@;
        let f = Seq::new(
            bts.len(),
            |i: int| choose|j: int| 0 <= j < ats.len() && ats[j].owner == bts[i].owner && ats[j].hexes@ == bts[i].hexes@,
        );
        assert forall|i: int| 0 <= i < bts.len() implies 0 <= #[trigger] f[i] < ats.len() && ats[f[i]].owner == bts[i].owner
            && ats[f[i]].hexes@ == bts[i].hexes@ by {
            let j = Game::lemma_region_match(a, b, i);
        }
        assert forall|x: int, y: int| 0 <= x < y < f.len() implies #[trigger] f[x] < #[trigger] f[y] by {
            assert(terr_shape(b.cols as int, b.rows as int, b.players@.len() as int, bts[x]));
            assert(terr_shape(b.cols as int, b.rows as int, b.players@.len() as int, bts[y]));
            if f[x] == f[y] {
                assert(bts[x].hexes@.contains(bts[x].hexes@[0]));
                assert(bts[y].hexes@.contains(bts[x].hexes@[0]));
            } else if f[x] > f[y] {
                assert(terrs_ordered(ats));
                assert(terrs_ordered(bts));
                assert(ats[f[y]].hexes@[0] == bts[y].hexes@[0]);
                assert(ats[f[x]].hexes@[0] == bts[x].hexes@[0]);
            }
        }
        assert forall|k: int| 0 <= k < ats.len() implies #[trigger] index_hit(f, k) by {
            let x = Game::lemma_region_match(b, a, k);
            assert(terr_shape(a.cols as int, a.rows as int, a.players@.len() as int, ats[k]));
            let p0 = ats[k].hexes@[0];
            assert(ats[k].hexes@.contains(p0));
            assert(ats[f[x]].hexes@.contains(p0));
            assert(f[x] == k);
        }
        assert forall|x: int| 0 <= x < f.len() implies (#[trigger] f[x]) == x by {
            lemma_index_identity(f, ats.len() as int, x);
        }
        if bts.len() < ats.len() {
            let k = ats.len() - 1;
            assert(index_hit(f, k));
            let x = choose|x: int| 0 <= x < f.len() && #[trigger] f[x] == k;
        }
        if bts.len() > ats.len() {
            assert(f[ats.len() as int] == ats.len());
        }
        assert forall|i: int| 0 <= i < bts.len() implies (#[trigger] bts[i]).owner == ats[i].owner && bts[i].hexes@
            == ats[i].hexes@ && bts[i].capital == ats[i].capital && bts[i].savings == ats[i].savings by {
            assert(f[i] == i);
            let t = ats[i];
            let o = t.owner;
            let region = bts[i].hexes@;
            assert(capital_ok(t) && capital_ok(bts[i]));
            match (t.capital, bts[i].capital) {
                (Some(c1), Some(c2)) => {
                    lemma_capital_unique(region, c1, c2);
                },
                _ => {},
            }
            assert(terr_shape(a.cols as int, a.rows as int, a.players@.len() as int, t));
            assert(t.hexes@.contains(t.hexes@[0]));
            assert(region.contains(t.hexes@[0]));
            assert(shares_hex(t.hexes@, region));
            assert(inherits(t, o, region));
            assert forall|j: int| 0 <= j < ats.len() && j != i implies !#[trigger] inherits(ats[j], o, region) by {
                if inherits(ats[j], o, region) {
                    let p = choose|p: (i32, i32)| ats[j].hexes@.contains(p) && #[trigger] region.contains(p);
                    assert(ats[i].hexes@.contains(p));
                }
            }
            lemma_inherited_single(ats, o, region, i);
        }
    }
}

} // verus!
