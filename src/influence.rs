use vstd::prelude::*;
use vstd::arithmetic::div_mod::{lemma_fundamental_div_mod, lemma_fundamental_div_mod_converse, lemma_mod_pos_bound};
use crate::tile::{Tile, habitability_of};

verus! {

/// Number of columns of a grid (that of its first row).
pub open spec fn cols(g: Seq<Vec<Tile>>) -> int {
    if g.len() == 0 {
        0
    } else {
        g[0]@.len() as int
    }
}

/// Number of positions of a grid.
pub open spec fn size(g: Seq<Vec<Tile>>) -> int {
    g.len() * cols(g)
}

/// Every row has the length of the first.
pub open spec fn is_rectangular(g: Seq<Vec<Tile>>) -> bool {
    forall|r: int| 0 <= r < g.len() ==> #[trigger] g[r]@.len() == cols(g)
}

pub open spec fn in_bounds(g: Seq<Vec<Tile>>, p: (int, int)) -> bool {
    0 <= p.0 < g.len() && 0 <= p.1 < cols(g)
}

pub open spec fn tile_at(g: Seq<Vec<Tile>>, p: (int, int)) -> Tile {
    g[p.0]@[p.1]
}

/// The position of the `i`-th entry in row-major order.
pub open spec fn position_of(g: Seq<Vec<Tile>>, i: int) -> (int, int) {
    (i / cols(g), i % cols(g))
}

/// The row-major index of a position.
pub open spec fn index_of(g: Seq<Vec<Tile>>, p: (int, int)) -> int {
    p.0 * cols(g) + p.1
}

/// Squared Euclidean distance between two positions.
pub open spec fn dist_sq(p: (int, int), q: (int, int)) -> nat {
    ((p.0 - q.0) * (p.0 - q.0) + (p.1 - q.1) * (p.1 - q.1)) as nat
}

/// The raw pull, in tenths, of the tile at `q` on the tile at `p`: ten times
/// its own habitability for `p` itself, and otherwise the habitability of `q`
/// less a tenth of the squared distance, but never below zero.
pub open spec fn raw_weight(g: Seq<Vec<Tile>>, p: (int, int), q: (int, int)) -> nat {
    if p == q {
        10 * habitability_of(tile_at(g, p))
    } else {
        let h = habitability_of(tile_at(g, q)) as int;
        let d = dist_sq(p, q) as int;
        if h > d {
            (h - d) as nat
        } else {
            0
        }
    }
}

/// The raw pulls on `p` of every position, in row-major order.
pub open spec fn raw_weights(g: Seq<Vec<Tile>>, p: (int, int)) -> Seq<nat> {
    Seq::new(size(g) as nat, |i: int| raw_weight(g, p, position_of(g, i)))
}

pub open spec fn seq_sum(s: Seq<nat>) -> nat
    decreases s.len(),
{
    if s.len() == 0 {
        0
    } else {
        seq_sum(s.drop_last()) + s.last()
    }
}

/// Numerators of a weight vector scaled to sum to one. When every weight is
/// zero, each position gets the same share.
pub open spec fn normalized_numerators(w: Seq<nat>) -> Seq<nat> {
    if seq_sum(w) == 0 {
        Seq::new(w.len(), |i: int| 1nat)
    } else {
        w
    }
}

/// The common denominator of a weight vector scaled to sum to one.
pub open spec fn normalized_denominator(w: Seq<nat>) -> nat {
    if seq_sum(w) == 0 {
        w.len()
    } else {
        seq_sum(w)
    }
}

pub open spec fn as_nats(v: Seq<u128>) -> Seq<nat> {
    v.map_values(|x: u128| x as nat)
}

/// A weight vector scaled to sum to one, as numerators over a common
/// denominator: entry `i` stands for `numerators[i] / denominator`.
#[derive(Debug)]
pub struct InfluenceVector {
    pub numerators: Vec<u128>,
    pub denominator: u128,
}

impl InfluenceVector {
    /// This vector is the normalization of the weights `w`.
    pub open spec fn normalizes(&self, w: Seq<nat>) -> bool {
        &&& as_nats(self.numerators@) == normalized_numerators(w)
        &&& self.denominator == normalized_denominator(w)
    }
}

proof fn lemma_seq_sum_prefix(s: Seq<nat>, k: int)
    requires
        0 <= k <= s.len(),
    ensures
        seq_sum(s.subrange(0, k)) <= seq_sum(s),
    decreases s.len(),
{
    if k < s.len() {
        assert(s.drop_last() =~= s.subrange(0, s.len() - 1));
        assert(s.drop_last().subrange(0, k) =~= s.subrange(0, k));
        lemma_seq_sum_prefix(s.drop_last(), k);
    } else {
        assert(s.subrange(0, k) =~= s);
    }
}

proof fn lemma_seq_sum_ones(n: nat)
    ensures
        seq_sum(Seq::new(n, |i: int| 1nat)) == n,
    decreases n,
{
    if n > 0 {
        assert(Seq::new(n, |i: int| 1nat).drop_last() =~= Seq::new((n - 1) as nat, |i: int| 1nat));
        lemma_seq_sum_ones((n - 1) as nat);
    }
}

/// Scales a weight vector so that it sums to one; when every weight is zero,
/// each position gets the same share. `None` when the sum of the weights does
/// not fit in 128 bits.
pub fn normalize_to_sum_one(weights: Vec<u128>) -> (r: Option<InfluenceVector>)
    requires
        weights@.len() > 0,
    ensures
        r is None <==> seq_sum(as_nats(weights@)) > u128::MAX,
        r matches Some(v) ==> v.normalizes(as_nats(weights@)),
{
    let ghost w = as_nats(weights@);
    let n = weights.len();
    let mut total: u128 = 0;
    let mut i: usize = 0;
    while i < n
        invariant
            n == weights@.len(),
            w == as_nats(weights@),
            i <= n,
            total == seq_sum(w.subrange(0, i as int)),
        decreases n - i,
    {
        proof {
            assert(w.subrange(0, i + 1).drop_last() =~= w.subrange(0, i as int));
        }
        match total.checked_add(weights[i]) {
            Some(t) => {
                total = t;
            },
            None => {
                proof {
                    lemma_seq_sum_prefix(w, i + 1);
                }
                return None;
            },
        }
        i = i + 1;
    }
    proof {
        assert(w.subrange(0, n as int) =~= w);
    }
    if total == 0 {
        let mut ones: Vec<u128> = Vec::new();
        let mut j: usize = 0;
        while j < n
            invariant
                j <= n,
                ones@.len() == j,
                forall|k: int| 0 <= k < j ==> #[trigger] ones@[k] == 1,
            decreases n - j,
        {
            ones.push(1);
            j = j + 1;
        }
        proof {
            assert(as_nats(ones@) =~= normalized_numerators(w));
        }
        Some(InfluenceVector { numerators: ones, denominator: n as u128 })
    } else {
        Some(InfluenceVector { numerators: weights, denominator: total })
    }
}

/// The pull, in tenths, of a tile of habitability `h` (in tenths) that lies
/// `dr` rows and `dc` columns away: `h` less the squared distance, clamped at
/// zero.
fn weight_at_distance(h: u128, dr: usize, dc: usize) -> (r: u128)
    ensures
        r == (if h as int > dr * dr + dc * dc {
            h - (dr * dr + dc * dc)
        } else {
            0
        }),
{
    assert((dr as int) * (dr as int) <= u128::MAX) by (nonlinear_arith)
        requires dr <= usize::MAX;
    assert((dc as int) * (dc as int) <= u128::MAX) by (nonlinear_arith)
        requires dc <= usize::MAX;
    let dr2 = (dr as u128) * (dr as u128);
    let dc2 = (dc as u128) * (dc as u128);
    if h > dr2 && h - dr2 > dc2 {
        h - dr2 - dc2
    } else {
        0
    }
}

fn abs_diff(a: usize, b: usize) -> (r: usize)
    ensures
        r * r == (a - b) * (a - b),
{
    let r = if a >= b { a - b } else { b - a };
    assert(r * r == (a - b) * (a - b)) by (nonlinear_arith)
        requires r == a - b || r == b - a;
    r
}

/// The raw pulls, in tenths, of every position of the grid on `pos`, in
/// row-major order.
pub fn raw_weights_for(map: &Vec<Vec<Tile>>, pos: (usize, usize)) -> (r: Vec<u128>)
    requires
        is_rectangular(map@),
        in_bounds(map@, (pos.0 as int, pos.1 as int)),
    ensures
        as_nats(r@) == raw_weights(map@, (pos.0 as int, pos.1 as int)),
{
    let ghost g = map@;
    let ghost p = (pos.0 as int, pos.1 as int);
    let this = map[pos.0][pos.1];
    let rows = map.len();
    let ncols = map[0].len();
    let mut out: Vec<u128> = Vec::new();
    let mut r: usize = 0;
    while r < rows
        invariant
            g == map@,
            is_rectangular(g),
            in_bounds(g, p),
            p == (pos.0 as int, pos.1 as int),
            this == tile_at(g, p),
            rows == g.len(),
            ncols == cols(g),
            r <= rows,
            out@.len() == r * ncols,
            forall|k: int| 0 <= k < out@.len() ==> #[trigger] out@[k] as nat == raw_weight(g, p, position_of(g, k)),
        decreases rows - r,
    {
        let row = &map[r];
        assert(row@.len() == ncols);
        let mut c: usize = 0;
        while c < ncols
            invariant
                g == map@,
                in_bounds(g, p),
                p == (pos.0 as int, pos.1 as int),
                this == tile_at(g, p),
                rows == g.len(),
                ncols == cols(g),
                r < rows,
                row@ == g[r as int]@,
                row@.len() == ncols,
                c <= ncols,
                out@.len() == r * ncols + c,
                forall|k: int| 0 <= k < out@.len() ==> #[trigger] out@[k] as nat == raw_weight(g, p, position_of(g, k)),
            decreases ncols - c,
        {
            let w: u128 = if r == pos.0 && c == pos.1 {
                10 * this.habitability_tenths()
            } else {
                let dr = abs_diff(pos.0, r);
                let dc = abs_diff(pos.1, c);
                weight_at_distance(row[c].habitability_tenths(), dr, dc)
            };
            proof {
                lemma_fundamental_div_mod_converse(r * ncols + c, ncols as int, r as int, c as int);
                assert(position_of(g, r * ncols + c) == (r as int, c as int));
            }
            out.push(w);
            c = c + 1;
        }
        assert((r + 1) * ncols == r * ncols + ncols) by (nonlinear_arith);
        r = r + 1;
    }
    proof {
        assert(as_nats(out@) =~= raw_weights(g, p));
    }
    out
}

/// The sum of the raw pulls on `p` fits in 128 bits.
pub open spec fn weights_fit(g: Seq<Vec<Tile>>, p: (int, int)) -> bool {
    seq_sum(raw_weights(g, p)) <= u128::MAX
}

/// The influence vector of the tile at `pos`: the raw pull of every position
/// on it, in row-major order, scaled to sum to one. When every pull is zero,
/// each position gets the same share. `None` when the sum of the pulls does
/// not fit in 128 bits.
pub fn influence_vector(map: &Vec<Vec<Tile>>, pos: (usize, usize)) -> (r: Option<InfluenceVector>)
    requires
        is_rectangular(map@),
        in_bounds(map@, (pos.0 as int, pos.1 as int)),
    ensures
        r is None <==> !weights_fit(map@, (pos.0 as int, pos.1 as int)),
        r matches Some(v) ==> v.normalizes(raw_weights(map@, (pos.0 as int, pos.1 as int))),
{
    let weights = raw_weights_for(map, pos);
    assert(size(map@) > 0) by (nonlinear_arith)
        requires map@.len() > 0, cols(map@) > 0, size(map@) == map@.len() * cols(map@);
    assert(weights@.len() == as_nats(weights@).len());
    normalize_to_sum_one(weights)
}

/// The influence matrix of a grid: the influence vector of every position, in
/// row-major order. `None` when the pulls on some position do not sum to a
/// value that fits in 128 bits.
pub fn influence_matrix(map: &Vec<Vec<Tile>>) -> (r: Option<Vec<InfluenceVector>>)
    requires
        is_rectangular(map@),
    ensures
        r is None <==> exists|i: int| 0 <= i < size(map@) && !weights_fit(map@, #[trigger] position_of(map@, i)),
        r matches Some(m) ==> {
            &&& m@.len() == size(map@)
            &&& forall|i: int| 0 <= i < size(map@) ==> #[trigger] m@[i].normalizes(raw_weights(map@, position_of(map@, i)))
        },
{
    let ghost g = map@;
    let rows = map.len();
    let mut out: Vec<InfluenceVector> = Vec::new();
    if rows == 0 {
        return Some(out);
    }
    let ncols = map[0].len();
    let mut r: usize = 0;
    while r < rows
        invariant
            g == map@,
            is_rectangular(g),
            rows == g.len(),
            ncols == cols(g),
            r <= rows,
            out@.len() == r * ncols,
            forall|k: int| 0 <= k < out@.len() ==> #[trigger] out@[k].normalizes(raw_weights(g, position_of(g, k))),
            forall|k: int| 0 <= k < out@.len() ==> weights_fit(g, #[trigger] position_of(g, k)),
        decreases rows - r,
    {
        let mut c: usize = 0;
        while c < ncols
            invariant
                g == map@,
                is_rectangular(g),
                rows == g.len(),
                ncols == cols(g),
                r < rows,
                c <= ncols,
                out@.len() == r * ncols + c,
                forall|k: int| 0 <= k < out@.len() ==> #[trigger] out@[k].normalizes(raw_weights(g, position_of(g, k))),
                forall|k: int| 0 <= k < out@.len() ==> weights_fit(g, #[trigger] position_of(g, k)),
            decreases ncols - c,
        {
            proof {
                lemma_fundamental_div_mod_converse(r * ncols + c, ncols as int, r as int, c as int);
                assert(position_of(g, r * ncols + c) == (r as int, c as int));
                assert(r * ncols + c < size(g)) by (nonlinear_arith)
                    requires r < rows, c < ncols, size(g) == rows * ncols;
            }
            match influence_vector(map, (r, c)) {
                Some(v) => out.push(v),
                None => return None,
            }
            c = c + 1;
        }
        assert((r + 1) * ncols == r * ncols + ncols) by (nonlinear_arith);
        r = r + 1;
    }
    assert(out@.len() == size(g));
    Some(out)
}

proof fn lemma_seq_sum_ge_entry(s: Seq<nat>, k: int)
    requires
        0 <= k < s.len(),
    ensures
        s[k] <= seq_sum(s),
    decreases s.len(),
{
    if k < s.len() - 1 {
        lemma_seq_sum_ge_entry(s.drop_last(), k);
    }
}

/// Row-major positions and indices correspond one to one.
proof fn lemma_position_index(g: Seq<Vec<Tile>>, i: int)
    requires
        cols(g) > 0,
        0 <= i < size(g),
    ensures
        in_bounds(g, position_of(g, i)),
        index_of(g, position_of(g, i)) == i,
{
    let n = cols(g);
    lemma_fundamental_div_mod(i, n);
    lemma_mod_pos_bound(i, n);
    let q = i / n;
    let rows = g.len() as int;
    assert(0 <= q < rows) by (nonlinear_arith)
        requires i == n * q + i % n, 0 <= i % n < n, 0 <= i < rows * n, n > 0;
    assert(q * n == n * q) by (nonlinear_arith);
}

proof fn lemma_index_position(g: Seq<Vec<Tile>>, p: (int, int))
    requires
        in_bounds(g, p),
    ensures
        0 <= index_of(g, p) < size(g),
        position_of(g, index_of(g, p)) == p,
{
    let n = cols(g);
    let rows = g.len() as int;
    lemma_fundamental_div_mod_converse(index_of(g, p), n, p.0, p.1);
    assert(0 <= p.0 * n + p.1 < rows * n) by (nonlinear_arith)
        requires 0 <= p.0 < rows, 0 <= p.1 < n;
}

/// Habitability depends on a tile's kind alone: two tiles of one kind, in any
/// grids and at any positions, pull on themselves equally, and pull equally on
/// any tile at the same distance.
pub proof fn lemma_weight_depends_on_kind(
    ga: Seq<Vec<Tile>>,
    pa: (int, int),
    qa: (int, int),
    gb: Seq<Vec<Tile>>,
    pb: (int, int),
    qb: (int, int),
)
    requires
        tile_at(ga, qa) == tile_at(gb, qb),
    ensures
        habitability_of(tile_at(ga, qa)) == habitability_of(tile_at(gb, qb)),
        raw_weight(ga, qa, qa) == raw_weight(gb, qb, qb),
        pa != qa && pb != qb && dist_sq(pa, qa) == dist_sq(pb, qb) ==> raw_weight(ga, pa, qa)
            == raw_weight(gb, pb, qb),
{
}

/// Every influence vector has one entry per position, and sums to one: its
/// numerators add up to its denominator, which is positive.
pub proof fn lemma_influence_sums_to_one(g: Seq<Vec<Tile>>, p: (int, int))
    requires
        is_rectangular(g),
        in_bounds(g, p),
    ensures
        normalized_numerators(raw_weights(g, p)).len() == size(g),
        seq_sum(normalized_numerators(raw_weights(g, p))) == normalized_denominator(
            raw_weights(g, p),
        ),
        normalized_denominator(raw_weights(g, p)) > 0,
{
    let w = raw_weights(g, p);
    lemma_index_position(g, p);
    if seq_sum(w) == 0 {
        lemma_seq_sum_ones(w.len());
    }
}

/// In a grid of empty tiles, every tile's influence vector gives its own
/// position a strictly larger share than any other position.
pub proof fn lemma_self_weight_dominates(g: Seq<Vec<Tile>>, p: (int, int))
    requires
        is_rectangular(g),
        in_bounds(g, p),
        forall|q: (int, int)| in_bounds(g, q) ==> tile_at(g, q) == Tile::Empty,
    ensures
        forall|i: int|
            0 <= i < size(g) && i != index_of(g, p) ==> #[trigger] normalized_numerators(
                raw_weights(g, p),
            )[i] < normalized_numerators(raw_weights(g, p))[index_of(g, p)],
{
    let w = raw_weights(g, p);
    let k = index_of(g, p);
    lemma_index_position(g, p);
    assert(w[k] == 100);
    lemma_seq_sum_ge_entry(w, k);
    assert forall|i: int| 0 <= i < size(g) && i != k implies #[trigger] w[i] < w[k] by {
        lemma_position_index(g, i);
        let q = position_of(g, i);
        assert(q != p);
        let a = p.0 - q.0;
        let b = p.1 - q.1;
        assert(a * a + b * b >= 1) by (nonlinear_arith)
            requires a != 0 || b != 0;
    }
}

/// The pull of a tile falls off with distance: of two tiles of one kind, the
/// farther from `p` pulls no more than the nearer, and strictly less while the
/// nearer one still pulls at all.
pub proof fn lemma_distance_monotone(
    g: Seq<Vec<Tile>>,
    p: (int, int),
    near: (int, int),
    far: (int, int),
)
    requires
        near != p,
        far != p,
        tile_at(g, near) == tile_at(g, far),
        dist_sq(p, near) <= dist_sq(p, far),
    ensures
        raw_weight(g, p, far) <= raw_weight(g, p, near),
        dist_sq(p, near) < dist_sq(p, far) && raw_weight(g, p, near) > 0 ==> raw_weight(g, p, far)
            < raw_weight(g, p, near),
{
}

} // verus!
