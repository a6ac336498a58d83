//! Geometry of the odd-r hex board: cell indices, the six neighbours of a
//! hex, walks between hexes and the hex-step distance.
use vstd::prelude::*;

verus! {

/// Row parity as the board uses it: odd rows are shifted half a hex right.
pub open spec fn is_odd(y: int) -> bool {
    y % 2 == 1
}

pub open spec fn in_grid(cols: int, rows: int, p: (i32, i32)) -> bool {
    0 <= p.0 < cols && 0 <= p.1 < rows
}

/// Position of hex `p` in the row-major grid vector.
pub open spec fn ix(cols: int, p: (i32, i32)) -> int {
    p.1 as int * cols + p.0 as int
}

/// The hex at grid position `i`.
pub open spec fn point_of(cols: int, i: int) -> (i32, i32) {
    ((i % cols) as i32, (i / cols) as i32)
}

/// The six neighbour offsets, in the order the board lists them.
pub open spec fn offsets(odd: bool) -> Seq<(int, int)> {
    if odd {
        seq![(1, 0), (-1, 0), (1, -1), (0, -1), (1, 1), (0, 1)]
    } else {
        seq![(1, 0), (-1, 0), (0, -1), (-1, -1), (0, 1), (-1, 1)]
    }
}

/// `q` is one hex-step away from `p` (whether or not either is on the board).
pub open spec fn step(p: (i32, i32), q: (i32, i32)) -> bool {
    let dx = q.0 - p.0;
    let dy = q.1 - p.1;
    if is_odd(p.1 as int) {
        (dy == 0 && (dx == 1 || dx == -1)) || ((dy == -1 || dy == 1) && (dx == 0 || dx == 1))
    } else {
        (dy == 0 && (dx == 1 || dx == -1)) || ((dy == -1 || dy == 1) && (dx == 0 || dx == -1))
    }
}

/// `q` is an on-board neighbour of `p`.
pub open spec fn adjacent(cols: int, rows: int, p: (i32, i32), q: (i32, i32)) -> bool {
    step(p, q) && in_grid(cols, rows, q)
}

/// The on-board neighbours of `(x, y)` among the first `k` offsets, in order.
pub open spec fn nbrs_upto(cols: int, rows: int, x: i32, y: i32, k: int) -> Seq<(i32, i32)>
    decreases k,
{
    if k <= 0 {
        seq![]
    } else {
        let prev = nbrs_upto(cols, rows, x, y, k - 1);
        let o = offsets(is_odd(y as int))[k - 1];
        let nx = x + o.0;
        let ny = y + o.1;
        if 0 <= nx < cols && 0 <= ny < rows {
            prev.push((nx as i32, ny as i32))
        } else {
            prev
        }
    }
}

/// The on-board neighbours of `(x, y)`, in the board's order.
pub open spec fn nbrs(cols: int, rows: int, x: i32, y: i32) -> Seq<(i32, i32)> {
    nbrs_upto(cols, rows, x, y, 6)
}

/// A walk through `allowed` hexes, each one step from the one before.
pub open spec fn is_walk(cols: int, rows: int, allowed: Set<(i32, i32)>, w: Seq<(i32, i32)>) -> bool {
    &&& w.len() >= 1
    &&& forall|i: int| 0 <= i < w.len() ==> #[trigger] allowed.contains(w[i])
    &&& forall|i: int| 0 <= i < w.len() - 1 ==> adjacent(cols, rows, #[trigger] w[i], w[i + 1])
}

/// `b` can be reached from `a` by a walk through `allowed` hexes.
pub open spec fn reachable(
    cols: int,
    rows: int,
    allowed: Set<(i32, i32)>,
    a: (i32, i32),
    b: (i32, i32),
) -> bool {
    exists|w: Seq<(i32, i32)>| #[trigger]
        is_walk(cols, rows, allowed, w) && w[0] == a && w[w.len() - 1] == b
}

/// The hexes marked in a grid-shaped mask.
pub open spec fn mask_set(cols: int, rows: int, m: Seq<bool>) -> Set<(i32, i32)> {
    Set::new(|p: (i32, i32)| in_grid(cols, rows, p) && m[ix(cols, p)])
}

pub proof fn lemma_ix_bounds(cols: int, rows: int, p: (i32, i32))
    requires
        1 <= cols,
        in_grid(cols, rows, p),
    ensures
        0 <= ix(cols, p) < cols * rows,
{
    let y = p.1 as int;
    let x = p.0 as int;
    assert(0 <= y * cols) by (nonlinear_arith)
        requires
            0 <= y,
            1 <= cols,
    ;
    assert(y * cols + x < cols * rows) by (nonlinear_arith)
        requires
            0 <= y < rows,
            0 <= x < cols,
    ;
}

pub proof fn lemma_ix_inj(cols: int, rows: int, p: (i32, i32), q: (i32, i32))
    requires
        1 <= cols,
        in_grid(cols, rows, p),
        in_grid(cols, rows, q),
        ix(cols, p) == ix(cols, q),
    ensures
        p == q,
{
    let (px, py, qx, qy) = (p.0 as int, p.1 as int, q.0 as int, q.1 as int);
    if py < qy {
        assert(py * cols + px < qy * cols + qx) by (nonlinear_arith)
            requires
                py < qy,
                0 <= px < cols,
                0 <= qx,
        ;
    } else if qy < py {
        assert(qy * cols + qx < py * cols + px) by (nonlinear_arith)
            requires
                qy < py,
                0 <= qx < cols,
                0 <= px,
        ;
    }
}

pub proof fn lemma_point_of(cols: int, rows: int, i: int)
    requires
        1 <= cols <= 64,
        1 <= rows <= 64,
        0 <= i < cols * rows,
    ensures
        in_grid(cols, rows, point_of(cols, i)),
        ix(cols, point_of(cols, i)) == i,
{
    assert(0 <= i / cols < rows) by (nonlinear_arith)
        requires
            1 <= cols,
            0 <= i < cols * rows,
    ;
    assert(i == (i / cols) * cols + i % cols) by (nonlinear_arith)
        requires
            1 <= cols,
    ;
}

/// Two on-board hexes are neighbours of each other or of neither.
pub proof fn lemma_adjacent_symmetric(cols: int, rows: int, p: (i32, i32), q: (i32, i32))
    requires
        in_grid(cols, rows, p),
        adjacent(cols, rows, p, q),
    ensures
        adjacent(cols, rows, q, p),
{
}

pub proof fn lemma_nbrs(cols: int, rows: int, x: i32, y: i32)
    requires
        cols <= i32::MAX,
        rows <= i32::MAX,
    ensures
        nbrs(cols, rows, x, y).len() <= 6,
        nbrs(cols, rows, x, y).no_duplicates(),
        forall|q: (i32, i32)|
            nbrs(cols, rows, x, y).contains(q) <==> adjacent(cols, rows, (x, y), q),
        forall|i: int|
            0 <= i < nbrs(cols, rows, x, y).len() ==> in_grid(
                cols,
                rows,
                #[trigger] nbrs(cols, rows, x, y)[i],
            ),
{
    reveal_with_fuel(nbrs_upto, 7);
    let s0 = nbrs_upto(cols, rows, x, y, 0);
    let s1 = nbrs_upto(cols, rows, x, y, 1);
    let s2 = nbrs_upto(cols, rows, x, y, 2);
    let s3 = nbrs_upto(cols, rows, x, y, 3);
    let s4 = nbrs_upto(cols, rows, x, y, 4);
    let s5 = nbrs_upto(cols, rows, x, y, 5);
    let s6 = nbrs_upto(cols, rows, x, y, 6);
    let os = offsets(is_odd(y as int));
    // every element of s_k comes from one of the first k offsets
    assert forall|k: int, i: int| 0 <= k <= 6 && 0 <= i < nbrs_upto(cols, rows, x, y, k).len() implies {
        let q = #[trigger] nbrs_upto(cols, rows, x, y, k)[i];
        &&& in_grid(cols, rows, q)
        &&& exists|j: int| 0 <= j < k && q.0 == x + os[j].0 && q.1 == y + os[j].1
    } by {
        lemma_nbrs_origin(cols, rows, x, y, k, i);
    }
    assert forall|q: (i32, i32)| s6.contains(q) implies adjacent(cols, rows, (x, y), q) by {
        let i = choose|i: int| 0 <= i < s6.len() && s6[i] == q;
        let j = choose|j: int| 0 <= j < 6 && q.0 == x + os[j].0 && q.1 == y + os[j].1;
    }
    assert forall|q: (i32, i32)| adjacent(cols, rows, (x, y), q) implies s6.contains(q) by {
        lemma_nbrs_complete(cols, rows, x, y, q);
    }
    assert forall|k: int| 0 <= k <= 6 implies (#[trigger] nbrs_upto(cols, rows, x, y, k)).len()
        <= k && nbrs_upto(cols, rows, x, y, k).no_duplicates() by {
        lemma_nbrs_nodup(cols, rows, x, y, k);
    }
}

proof fn lemma_nbrs_origin(cols: int, rows: int, x: i32, y: i32, k: int, i: int)
    requires
        cols <= i32::MAX,
        rows <= i32::MAX,
        0 <= k <= 6,
        0 <= i < nbrs_upto(cols, rows, x, y, k).len(),
    ensures
        ({
            let q = nbrs_upto(cols, rows, x, y, k)[i];
            let os = offsets(is_odd(y as int));
            &&& in_grid(cols, rows, q)
            &&& exists|j: int| 0 <= j < k && q.0 == x + os[j].0 && q.1 == y + os[j].1
        }),
    decreases k,
{
    let os = offsets(is_odd(y as int));
    let prev = nbrs_upto(cols, rows, x, y, k - 1);
    if i < prev.len() {
        lemma_nbrs_origin(cols, rows, x, y, k - 1, i);
    } else {
        let q = nbrs_upto(cols, rows, x, y, k)[i];
        assert(q.0 == x + os[k - 1].0 && q.1 == y + os[k - 1].1);
    }
}

proof fn lemma_nbrs_nodup(cols: int, rows: int, x: i32, y: i32, k: int)
    requires
        cols <= i32::MAX,
        rows <= i32::MAX,
        0 <= k <= 6,
    ensures
        nbrs_upto(cols, rows, x, y, k).len() <= k,
        nbrs_upto(cols, rows, x, y, k).no_duplicates(),
    decreases k,
{
    if k > 0 {
        lemma_nbrs_nodup(cols, rows, x, y, k - 1);
        let prev = nbrs_upto(cols, rows, x, y, k - 1);
        let os = offsets(is_odd(y as int));
        let nx = x + os[k - 1].0;
        let ny = y + os[k - 1].1;
        if 0 <= nx < cols && 0 <= ny < rows {
            let q = (nx as i32, ny as i32);
            assert forall|i: int| 0 <= i < prev.len() implies prev[i] != q by {
                lemma_nbrs_origin(cols, rows, x, y, k - 1, i);
            }
        }
    }
}

proof fn lemma_nbrs_complete(cols: int, rows: int, x: i32, y: i32, q: (i32, i32))
    requires
        cols <= i32::MAX,
        rows <= i32::MAX,
        adjacent(cols, rows, (x, y), q),
    ensures
        nbrs(cols, rows, x, y).contains(q),
{
    reveal_with_fuel(nbrs_upto, 7);
    let os = offsets(is_odd(y as int));
    let j = if is_odd(y as int) {
        if q.1 == y {
            if q.0 == x + 1 { 0int } else { 1int }
        } else if q.1 == y - 1 {
            if q.0 == x + 1 { 2int } else { 3int }
        } else {
            if q.0 == x + 1 { 4int } else { 5int }
        }
    } else {
        if q.1 == y {
            if q.0 == x + 1 { 0int } else { 1int }
        } else if q.1 == y - 1 {
            if q.0 == x { 2int } else { 3int }
        } else {
            if q.0 == x { 4int } else { 5int }
        }
    };
    assert(q.0 == x + os[j].0 && q.1 == y + os[j].1);
    lemma_nbrs_keeps(cols, rows, x, y, j + 1, 6);
    let sj = nbrs_upto(cols, rows, x, y, j + 1);
    assert(sj.last() == q);
}

proof fn lemma_nbrs_keeps(cols: int, rows: int, x: i32, y: i32, k: int, m: int)
    requires
        0 <= k <= m <= 6,
    ensures
        nbrs_upto(cols, rows, x, y, k).len() <= nbrs_upto(cols, rows, x, y, m).len(),
        forall|i: int|
            0 <= i < nbrs_upto(cols, rows, x, y, k).len() ==> nbrs_upto(cols, rows, x, y, m)[i]
                == nbrs_upto(cols, rows, x, y, k)[i],
    decreases m - k,
{
    if k < m {
        lemma_nbrs_keeps(cols, rows, x, y, k, m - 1);
    }
}


fn offset(odd: bool, k: usize) -> (o: (i32, i32))
    requires
        k < 6,
    ensures
        o.0 == offsets(odd)[k as int].0,
        o.1 == offsets(odd)[k as int].1,
{
    if odd {
        if k == 0 { (1, 0) } else if k == 1 { (-1, 0) } else if k == 2 { (1, -1) } else if k == 3 { (0, -1) } else if k == 4 { (1, 1) } else { (0, 1) }
    } else {
        if k == 0 { (1, 0) } else if k == 1 { (-1, 0) } else if k == 2 { (0, -1) } else if k == 3 { (-1, -1) } else if k == 4 { (0, 1) } else { (-1, 1) }
    }
}

/// The on-board neighbours of `(x, y)` on a `cols` x `rows` board.
pub fn grid_neighbours(cols: i32, rows: i32, x: i32, y: i32) -> (out: Vec<(i32, i32)>)
    requires
        i32::MIN < x < i32::MAX,
        i32::MIN < y < i32::MAX,
    ensures
        out@ == nbrs(cols as int, rows as int, x, y),
{
    let bit = y & 1;
    assert(bit == 1 <==> y % 2 == 1) by (bit_vector)
        requires
            bit == y & 1,
    ;
    let odd = bit == 1;
    let mut out: Vec<(i32, i32)> = Vec::new();
    let mut k: usize = 0;
    while k < 6
        invariant
            k <= 6,
            odd == is_odd(y as int),
            i32::MIN < x < i32::MAX,
            i32::MIN < y < i32::MAX,
            out@ == nbrs_upto(cols as int, rows as int, x, y, k as int),
        decreases 6 - k,
    {
        let o = offset(odd, k);
        let nx = x + o.0;
        let ny = y + o.1;
        if nx >= 0 && nx < cols && ny >= 0 && ny < rows {
            out.push((nx, ny));
        }
        k += 1;
    }
    out
}

/// A walk through `a` is a walk through any larger set.
pub proof fn lemma_walk_widen(
    cols: int,
    rows: int,
    a: Set<(i32, i32)>,
    b: Set<(i32, i32)>,
    w: Seq<(i32, i32)>,
)
    requires
        is_walk(cols, rows, a, w),
        a.subset_of(b),
    ensures
        is_walk(cols, rows, b, w),
{
    assert forall|i: int| 0 <= i < w.len() implies #[trigger] b.contains(w[i]) by {
        assert(a.contains(w[i]));
    }
}

/// Reachability through `a` carries over to any larger set.
pub proof fn lemma_reachable_widen(
    cols: int,
    rows: int,
    a: Set<(i32, i32)>,
    b: Set<(i32, i32)>,
    p: (i32, i32),
    q: (i32, i32),
)
    requires
        reachable(cols, rows, a, p, q),
        a.subset_of(b),
    ensures
        reachable(cols, rows, b, p, q),
{
    let w = choose|w: Seq<(i32, i32)>|
        is_walk(cols, rows, a, w) && w[0] == p && w[w.len() - 1] == q;
    lemma_walk_widen(cols, rows, a, b, w);
}

/// Appending a neighbour in `allowed` extends a walk.
pub proof fn lemma_walk_push(
    cols: int,
    rows: int,
    allowed: Set<(i32, i32)>,
    w: Seq<(i32, i32)>,
    q: (i32, i32),
)
    requires
        is_walk(cols, rows, allowed, w),
        adjacent(cols, rows, w[w.len() - 1], q),
        allowed.contains(q),
    ensures
        is_walk(cols, rows, allowed, w.push(q)),
        w.push(q)[0] == w[0],
{
    let v = w.push(q);
    assert forall|i: int| 0 <= i < v.len() implies #[trigger] allowed.contains(v[i]) by {
        if i < w.len() {
            assert(v[i] == w[i]);
        }
    }
    assert forall|i: int| 0 <= i < v.len() - 1 implies adjacent(cols, rows, #[trigger] v[i], v[i + 1]) by {
        if i < w.len() - 1 {
            assert(v[i] == w[i] && v[i + 1] == w[i + 1]);
        }
    }
}

/// Every hex can reach itself.
pub proof fn lemma_reachable_refl(cols: int, rows: int, allowed: Set<(i32, i32)>, p: (i32, i32))
    requires
        allowed.contains(p),
    ensures
        reachable(cols, rows, allowed, p, p),
{
    let w = seq![p];
    assert(is_walk(cols, rows, allowed, w));
}

/// Walks chain: from `a` to `b` and from `b` to `c` make one from `a` to `c`.
pub proof fn lemma_reachable_trans(
    cols: int,
    rows: int,
    allowed: Set<(i32, i32)>,
    a: (i32, i32),
    b: (i32, i32),
    c: (i32, i32),
)
    requires
        reachable(cols, rows, allowed, a, b),
        reachable(cols, rows, allowed, b, c),
    ensures
        reachable(cols, rows, allowed, a, c),
{
    let w1 = choose|w: Seq<(i32, i32)>| is_walk(cols, rows, allowed, w) && w[0] == a && w[w.len() - 1] == b;
    let w2 = choose|w: Seq<(i32, i32)>| is_walk(cols, rows, allowed, w) && w[0] == b && w[w.len() - 1] == c;
    let w = w1 + w2.skip(1);
    assert forall|i: int| 0 <= i < w.len() implies #[trigger] allowed.contains(w[i]) by {
        if i < w1.len() {
            assert(w[i] == w1[i]);
        } else {
            assert(w[i] == w2[i - w1.len() + 1]);
        }
    }
    assert forall|i: int| 0 <= i < w.len() - 1 implies adjacent(cols, rows, #[trigger] w[i], w[i + 1]) by {
        if i < w1.len() - 1 {
            assert(w[i] == w1[i] && w[i + 1] == w1[i + 1]);
        } else if i == w1.len() - 1 {
            assert(w[i] == w1[i]);
            assert(w[i + 1] == w2[1]);
            assert(w2[0] == b);
        } else {
            assert(w[i] == w2[i - w1.len() + 1] && w[i + 1] == w2[i - w1.len() + 2]);
        }
    }
    assert(is_walk(cols, rows, allowed, w));
    if w2.len() == 1 {
        assert(w[w.len() - 1] == w1[w1.len() - 1]);
    } else {
        assert(w[w.len() - 1] == w2[w2.len() - 1]);
    }
}

/// Both ends of a walk lie in the allowed set.
pub proof fn lemma_reachable_ends(
    cols: int,
    rows: int,
    allowed: Set<(i32, i32)>,
    a: (i32, i32),
    b: (i32, i32),
)
    requires
        reachable(cols, rows, allowed, a, b),
    ensures
        allowed.contains(a),
        allowed.contains(b),
{
    let w = choose|w: Seq<(i32, i32)>| is_walk(cols, rows, allowed, w) && w[0] == a && w[w.len() - 1] == b;
    assert(allowed.contains(w[0]));
    assert(allowed.contains(w[w.len() - 1]));
}

/// A walk read backwards is a walk: reachability is symmetric on the board.
pub proof fn lemma_reachable_symmetric(
    cols: int,
    rows: int,
    allowed: Set<(i32, i32)>,
    a: (i32, i32),
    b: (i32, i32),
)
    requires
        reachable(cols, rows, allowed, a, b),
        forall|q: (i32, i32)| #[trigger] allowed.contains(q) ==> in_grid(cols, rows, q),
    ensures
        reachable(cols, rows, allowed, b, a),
{
    let w = choose|w: Seq<(i32, i32)>| is_walk(cols, rows, allowed, w) && w[0] == a && w[w.len() - 1] == b;
    let v = w.reverse();
    assert forall|i: int| 0 <= i < v.len() implies #[trigger] allowed.contains(v[i]) by {
        assert(v[i] == w[w.len() - 1 - i]);
    }
    assert forall|i: int| 0 <= i < v.len() - 1 implies adjacent(cols, rows, #[trigger] v[i], v[i + 1]) by {
        let j = w.len() - 2 - i;
        assert(v[i] == w[j + 1] && v[i + 1] == w[j]);
        assert(adjacent(cols, rows, w[j], w[j + 1]));
        assert(allowed.contains(w[j]));
        lemma_adjacent_symmetric(cols, rows, w[j], w[j + 1]);
    }
    assert(is_walk(cols, rows, allowed, v));
    assert(v[0] == b);
    assert(v[v.len() - 1] == a);
}

/// A set that holds `s` and every allowed neighbour of its members holds
/// everything reachable from `s`.
pub proof fn lemma_closed_holds_reachable(
    cols: int,
    rows: int,
    allowed: Set<(i32, i32)>,
    x: Set<(i32, i32)>,
    s: (i32, i32),
    t: (i32, i32),
)
    requires
        x.contains(s),
        forall|p: (i32, i32), q: (i32, i32)|
            #[trigger] x.contains(p) && adjacent(cols, rows, p, q) && allowed.contains(q) ==> #[trigger] x.contains(q),
        reachable(cols, rows, allowed, s, t),
    ensures
        x.contains(t),
{
    let w = choose|w: Seq<(i32, i32)>| is_walk(cols, rows, allowed, w) && w[0] == s && w[w.len() - 1] == t;
    lemma_walk_in_closed(cols, rows, allowed, x, w, w.len() - 1);
}

proof fn lemma_walk_in_closed(
    cols: int,
    rows: int,
    allowed: Set<(i32, i32)>,
    x: Set<(i32, i32)>,
    w: Seq<(i32, i32)>,
    k: int,
)
    requires
        is_walk(cols, rows, allowed, w),
        0 <= k < w.len(),
        x.contains(w[0]),
        forall|p: (i32, i32), q: (i32, i32)|
            #[trigger] x.contains(p) && adjacent(cols, rows, p, q) && allowed.contains(q) ==> #[trigger] x.contains(q),
    ensures
        x.contains(w[k]),
    decreases k,
{
    if k > 0 {
        lemma_walk_in_closed(cols, rows, allowed, x, w, k - 1);
        assert(adjacent(cols, rows, w[k - 1], w[k]));
        assert(allowed.contains(w[k]));
    }
}

// ---------- hex-step distance ----------

/// Cube coordinates of an odd-r hex.
pub open spec fn cube(col: int, row: int) -> (int, int, int) {
    let x = col - (row - row % 2) / 2;
    let z = row;
    (x, -x - z, z)
}

pub open spec fn abs(v: int) -> int {
    if v < 0 {
        -v
    } else {
        v
    }
}

/// Hex-step distance between two hexes.
pub open spec fn hex_dist_spec(a: (i32, i32), b: (i32, i32)) -> int {
    let ca = cube(a.0 as int, a.1 as int);
    let cb = cube(b.0 as int, b.1 as int);
    (abs(ca.0 - cb.0) + abs(ca.1 - cb.1) + abs(ca.2 - cb.2)) / 2
}

pub open spec fn fits_i32(v: int) -> bool {
    i32::MIN <= v <= i32::MAX
}

/// Every intermediate value of the distance computation fits in an `i32`.
pub open spec fn hex_dist_fits(a: (i32, i32), b: (i32, i32)) -> bool {
    let ca = cube(a.0 as int, a.1 as int);
    let cb = cube(b.0 as int, b.1 as int);
    &&& fits_i32(ca.0) && fits_i32(-ca.0) && fits_i32(ca.1)
    &&& fits_i32(cb.0) && fits_i32(-cb.0) && fits_i32(cb.1)
    &&& fits_i32(ca.0 - cb.0) && fits_i32(ca.1 - cb.1) && fits_i32(ca.2 - cb.2)
    &&& fits_i32(abs(ca.0 - cb.0)) && fits_i32(abs(ca.1 - cb.1)) && fits_i32(abs(ca.2 - cb.2))
    &&& fits_i32(abs(ca.0 - cb.0) + abs(ca.1 - cb.1))
    &&& fits_i32(abs(ca.0 - cb.0) + abs(ca.1 - cb.1) + abs(ca.2 - cb.2))
}

fn to_cube(col: i32, row: i32) -> (c: (i32, i32, i32))
    requires
        fits_i32(cube(col as int, row as int).0),
        fits_i32(-cube(col as int, row as int).0),
        fits_i32(cube(col as int, row as int).1),
    ensures
        c.0 == cube(col as int, row as int).0,
        c.1 == cube(col as int, row as int).1,
        c.2 == cube(col as int, row as int).2,
{
    let bit = row & 1;
    assert(bit == row % 2) by (bit_vector)
        requires
            bit == row & 1,
    ;
    let x = col - (row - bit) / 2;
    let z = row;
    (x, -x - z, z)
}

fn abs_i32(v: i32) -> (r: i32)
    requires
        fits_i32(abs(v as int)),
    ensures
        r == abs(v as int),
{
    if v < 0 {
        -v
    } else {
        v
    }
}

/// Hex-step distance on an odd-r board (the proper 6-neighbour metric:
/// a diagonal neighbour is one step, not two).
pub fn hex_dist(a: (i32, i32), b: (i32, i32)) -> (d: i32)
    requires
        hex_dist_fits(a, b),
    ensures
        d == hex_dist_spec(a, b),
{
    let (ax, ay, az) = to_cube(a.0, a.1);
    let (bx, by, bz) = to_cube(b.0, b.1);
    (abs_i32(ax - bx) + abs_i32(ay - by) + abs_i32(az - bz)) / 2
}

/// The distance from a hex to itself is zero.
pub proof fn lemma_hex_dist_zero(a: (i32, i32))
    ensures
        hex_dist_spec(a, a) == 0,
{
}

/// The distance is symmetric.
pub proof fn lemma_hex_dist_symmetric(a: (i32, i32), b: (i32, i32))
    ensures
        hex_dist_spec(a, b) == hex_dist_spec(b, a),
{
}

/// The distance obeys the triangle inequality.
pub proof fn lemma_hex_dist_triangle(a: (i32, i32), b: (i32, i32), c: (i32, i32))
    ensures
        hex_dist_spec(a, c) <= hex_dist_spec(a, b) + hex_dist_spec(b, c),
{
    let ca = cube(a.0 as int, a.1 as int);
    let cb = cube(b.0 as int, b.1 as int);
    let cc = cube(c.0 as int, c.1 as int);
    let s_ac = abs(ca.0 - cc.0) + abs(ca.1 - cc.1) + abs(ca.2 - cc.2);
    let s_ab = abs(ca.0 - cb.0) + abs(ca.1 - cb.1) + abs(ca.2 - cb.2);
    let s_bc = abs(cb.0 - cc.0) + abs(cb.1 - cc.1) + abs(cb.2 - cc.2);
    assert(s_ac <= s_ab + s_bc);
    assert(s_ac / 2 <= (s_ab + s_bc) / 2);
    assert((s_ab + s_bc) / 2 <= s_ab / 2 + s_bc / 2 + 1);
    // cube coordinates sum to zero, so each sum of differences is even
    assert(s_ab % 2 == 0);
    assert(s_bc % 2 == 0);
}

/// One hex-step is distance one, and distance one is one hex-step.
pub proof fn lemma_hex_dist_one(p: (i32, i32), q: (i32, i32))
    ensures
        step(p, q) <==> hex_dist_spec(p, q) == 1,
{
}

} // verus!
