//! Hex-grid geometry on 1-based "upper odd-q" coordinates.
//!
//! Even 1-based columns are raised by half a hex, so their diagonal
//! neighbours lie one row higher than those of odd columns.
use vstd::prelude::*;
use crate::text::{format_i64, format_int, push_all, push_str, string_of};

verus! {

/// A hex cell; `x` is the column and `y` the row, both 1-based on a map.
#[derive(Clone, Copy, Debug, PartialEq, Eq, PartialOrd, Ord, Hash, Structural)]
pub struct Position {
    pub x: i64,
    pub y: i64,
}

/// The extent of a rectangular hex map.
#[derive(Clone, Copy, Debug, PartialEq, Eq, Structural)]
pub struct Bounds {
    pub width: usize,
    pub height: usize,
}

/// Whether `p` lies in the rectangle `1..=width` x `1..=height`, comparing
/// with the dimensions taken as `i64`.
pub open spec fn spec_contains(b: Bounds, p: Position) -> bool {
    &&& p.x >= 1
    &&& p.y >= 1
    &&& p.x <= b.width as i64
    &&& p.y <= b.height as i64
}

/// The vertical offset of the diagonal neighbours of column `x`.
pub open spec fn diagonal_dy(x: int) -> int {
    if x % 2 == 0 { -1 } else { 1 }
}

/// The six neighbours in the order W, diagonal W, N, S, E, diagonal E.
pub open spec fn spec_neighbors(p: Position) -> Seq<Position> {
    let d = diagonal_dy(p.x as int);
    seq![
        Position { x: (p.x - 1) as i64, y: p.y },
        Position { x: (p.x - 1) as i64, y: (p.y + d) as i64 },
        Position { x: p.x, y: (p.y - 1) as i64 },
        Position { x: p.x, y: (p.y + 1) as i64 },
        Position { x: (p.x + 1) as i64, y: p.y },
        Position { x: (p.x + 1) as i64, y: (p.y + d) as i64 },
    ]
}

/// Every coordinate of `p` can be moved by one without leaving `i64`.
pub open spec fn steppable(p: Position) -> bool {
    i64::MIN < p.x < i64::MAX && i64::MIN < p.y < i64::MAX
}

/// Axial `q` of a cell.
pub open spec fn axial_q(p: Position) -> int {
    p.x - 1
}

/// Axial `r` of a cell: the row minus half the column, rounded up.
pub open spec fn axial_r(p: Position) -> int {
    let q = p.x - 1;
    (p.y - 1) - (q + q % 2) / 2
}

pub open spec fn abs(v: int) -> int {
    if v < 0 { -v } else { v }
}

/// The hex distance between two cells.
pub open spec fn spec_distance(a: Position, b: Position) -> int {
    let dq = axial_q(a) - axial_q(b);
    let dr = axial_r(a) - axial_r(b);
    let ds = (-axial_q(a) - axial_r(a)) - (-axial_q(b) - axial_r(b));
    (abs(dq) + abs(dr) + abs(ds)) / 2
}

/// A cell is at distance 0 from itself, and at distance 1 from exactly its
/// six neighbours.
pub proof fn lemma_distance_one_is_neighbor(a: Position, b: Position)
    requires
        steppable(a),
    ensures
        spec_distance(a, a) == 0,
        spec_distance(a, b) == 1 <==> spec_neighbors(a).contains(b),
{
    let n = spec_neighbors(a);
    let q = a.x - 1;
    let qb = b.x - 1;
    let dq = q - qb;
    let ra = axial_r(a);
    let rb = axial_r(b);
    let dr = ra - rb;
    assert(q % 2 == 0 || q % 2 == 1);
    assert(qb % 2 == 0 || qb % 2 == 1);
    if spec_distance(a, b) == 1 {
        assert(abs(dq) + abs(dr) + abs(-dq - dr) == 2 || abs(dq) + abs(dr) + abs(-dq - dr) == 3);
        assert(-1 <= dq <= 1 && -1 <= dr <= 1);
        if dq == 0 {
            assert(qb == q);
            assert(b.x == a.x);
            if dr == 1 {
                assert(b == n[2]);
            } else {
                assert(dr == -1);
                assert(b == n[3]);
            }
        } else if dq == 1 {
            assert(b.x == a.x - 1);
            if q % 2 == 0 {
                assert(qb % 2 == 1);
                assert((q + q % 2) / 2 == q / 2);
                assert((qb + qb % 2) / 2 == q / 2);
                if dr == 0 {
                    assert(b == n[0]);
                } else {
                    assert(dr == -1);
                    assert(b == n[1]);
                }
            } else {
                assert(qb % 2 == 0);
                assert((q + q % 2) / 2 == (q + 1) / 2);
                assert((qb + qb % 2) / 2 == (q - 1) / 2);
                assert((q + 1) / 2 == (q - 1) / 2 + 1);
                if dr == 0 {
                    assert(b == n[1]);
                } else {
                    assert(dr == -1);
                    assert(b == n[0]);
                }
            }
        } else {
            assert(dq == -1);
            assert(b.x == a.x + 1);
            if q % 2 == 0 {
                assert(qb % 2 == 1);
                assert((qb + qb % 2) / 2 == (q + 2) / 2);
                assert((q + 2) / 2 == q / 2 + 1);
                if dr == 0 {
                    assert(b == n[5]);
                } else {
                    assert(dr == 1);
                    assert(b == n[4]);
                }
            } else {
                assert(qb % 2 == 0);
                assert((q + q % 2) / 2 == (q + 1) / 2);
                assert((qb + qb % 2) / 2 == (q + 1) / 2);
                if dr == 0 {
                    assert(b == n[4]);
                } else {
                    assert(dr == 1);
                    assert(b == n[5]);
                }
            }
        }
        assert(n.contains(b));
    }
    if n.contains(b) {
        let k = choose|k: int| 0 <= k < 6 && n[k] == b;
        if q % 2 == 0 {
            assert((q + q % 2) / 2 == q / 2);
            assert((q - 1 + 1) / 2 == q / 2);
            assert((q + 1 + 1) / 2 == q / 2 + 1);
        } else {
            assert((q + q % 2) / 2 == (q + 1) / 2);
            assert((q - 1) / 2 + 1 == (q + 1) / 2);
            assert((q + 1) / 2 == (q + 1) / 2);
        }
        assert(spec_distance(a, b) == 1);
    }
}

/// One step to a neighbour changes the distance to any cell by at most one.
pub proof fn lemma_distance_step(a: Position, n: Position, c: Position)
    requires
        steppable(a),
        spec_neighbors(a).contains(n),
    ensures
        spec_distance(a, c) - 1 <= spec_distance(n, c) <= spec_distance(a, c) + 1,
{
    lemma_distance_one_is_neighbor(a, n);
    let dq = axial_q(a) - axial_q(n);
    let dr = axial_r(a) - axial_r(n);
    let x = axial_q(n) - axial_q(c);
    let y = axial_r(n) - axial_r(c);
    assert(abs(dq) + abs(dr) + abs(dq + dr) == 2 || abs(dq) + abs(dr) + abs(dq + dr) == 3);
    assert(-1 <= dq <= 1 && -1 <= dr <= 1 && -1 <= dq + dr <= 1);
    let sa = abs(x + dq) + abs(y + dr) + abs(x + dq + y + dr);
    let sn = abs(x) + abs(y) + abs(x + y);
    assert(sa % 2 == 0 && sn % 2 == 0) by {
        assert(abs(x + dq) % 2 == (x + dq) % 2 || abs(x + dq) == -(x + dq));
    }
    assert(spec_distance(a, c) == sa / 2);
    assert(spec_distance(n, c) == sn / 2);
    assert(sn - 2 <= sa <= sn + 2);
}

/// The arithmetic of `distance` stays inside `i64`, which it is computed
/// in.
pub open spec fn distance_fits(a: Position, b: Position) -> bool {
    let lim = 0x1000_0000_0000_0000int;
    -lim < a.x < lim && -lim < a.y < lim && -lim < b.x < lim && -lim < b.y < lim
}

/// The error for a position that lies outside `place` (the map, the bounds).
pub open spec fn outside_message(p: Position, place: Seq<char>) -> Seq<char> {
    "position ("@ + format_int(p.x as int) + ", "@ + format_int(p.y as int) + ") is outside the "@
        + place
}

/// The error for a position that lies outside `place`.
pub fn outside_error(p: Position, place: &str) -> (r: String)
    ensures
        r@ == outside_message(p, place@),
{
    let mut m: Vec<char> = Vec::new();
    push_str(&mut m, "position (");
    push_all(&mut m, &format_i64(p.x));
    push_str(&mut m, ", ");
    push_all(&mut m, &format_i64(p.y));
    push_str(&mut m, ") is outside the ");
    push_str(&mut m, place);
    string_of(&m)
}

impl Bounds {
    /// Bounds of a `width` x `height` map; both must be positive.
    pub fn new(width: usize, height: usize) -> (result: Result<Bounds, String>)
        ensures
            result is Ok <==> (width > 0 && height > 0),
            result matches Ok(b) ==> b.width == width && b.height == height,
    {
        if width == 0 || height == 0 {
            return Err(String::from_str("hex bounds must be positive"));
        }
        Ok(Bounds { width, height })
    }

    /// Whether the position lies on the map.
    pub fn contains(self, position: Position) -> (result: bool)
        ensures
            result == spec_contains(self, position),
    {
        position.x >= 1 && position.y >= 1 && position.x <= self.width as i64 && position.y
            <= self.height as i64
    }

    /// The neighbours of an on-map position that are on the map, in the order
    /// of [`neighbors`]. An off-map position is an error.
    pub fn neighbors(self, position: Position) -> (result: Result<Vec<Position>, String>)
        requires
            steppable(position),
        ensures
            result is Ok <==> spec_contains(self, position),
            result matches Ok(v) ==> v@ == spec_neighbors(position).filter(
                |c: Position| spec_contains(self, c),
            ),
            result matches Err(m) ==> m@ == outside_message(position, "bounds"@),
    {
        if !self.contains(position) {
            return Err(outside_error(position, "bounds"));
        }
        let all = neighbors(position);
        let mut out: Vec<Position> = Vec::new();
        let ghost all_seq = spec_neighbors(position);
        let mut i: usize = 0;
        while i < 6
            invariant
                0 <= i <= 6,
                all@ == all_seq,
                all_seq.len() == 6,
                out@ == all_seq.take(i as int).filter(|c: Position| spec_contains(self, c)),
            decreases 6 - i,
        {
            let candidate = all[i];
            proof {
                assert(all_seq.take(i as int + 1).drop_last() == all_seq.take(i as int));
                reveal(Seq::filter);
            }
            if self.contains(candidate) {
                out.push(candidate);
            }
            i = i + 1;
        }
        proof {
            assert(all_seq.take(6) == all_seq);
        }
        Ok(out)
    }
}

/// The six neighbours of a cell, on or off any map.
pub fn neighbors(position: Position) -> (result: [Position; 6])
    requires
        steppable(position),
    ensures
        result@ == spec_neighbors(position),
{
    let dy: i64 = if position.x % 2 == 0 { -1 } else { 1 };
    let result = [
        Position { x: position.x - 1, y: position.y },
        Position { x: position.x - 1, y: position.y + dy },
        Position { x: position.x, y: position.y - 1 },
        Position { x: position.x, y: position.y + 1 },
        Position { x: position.x + 1, y: position.y },
        Position { x: position.x + 1, y: position.y + dy },
    ];
    assert(result@ =~= spec_neighbors(position));
    result
}

fn axial_r_exec(p: Position) -> (r: i64)
    requires
        -0x1000_0000_0000_0000 < p.x < 0x1000_0000_0000_0000,
        -0x1000_0000_0000_0000 < p.y < 0x1000_0000_0000_0000,
    ensures
        r == axial_r(p),
{
    let q = p.x - 1;
    let parity: i64 = if q % 2 == 0 { 0 } else { 1 };
    assert(parity == q % 2);
    (p.y - 1) - (q + parity) / 2
}

fn abs_exec(v: i64) -> (r: i64)
    requires
        v > i64::MIN,
    ensures
        r == abs(v as int),
{
    if v < 0 { -v } else { v }
}

/// The number of steps between two cells.
pub fn distance(a: Position, b: Position) -> (result: i64)
    requires
        distance_fits(a, b),
    ensures
        result == spec_distance(a, b),
{
    let qa = a.x - 1;
    let qb = b.x - 1;
    let ra = axial_r_exec(a);
    let rb = axial_r_exec(b);
    let dq = abs_exec(qa - qb);
    let dr = abs_exec(ra - rb);
    let ds = abs_exec((-qa - ra) - (-qb - rb));
    (dq + dr + ds) / 2
}

/// Whether two cells share an edge.
pub fn adjacent(a: Position, b: Position) -> (result: bool)
    requires
        distance_fits(a, b),
    ensures
        result == (spec_distance(a, b) == 1),
{
    distance(a, b) == 1
}


/// Every one of the six neighbours of a cell is one step away from it.
pub proof fn lemma_neighbors_adjacent(p: Position, i: int)
    requires
        steppable(p),
        0 <= i < 6,
    ensures
        spec_distance(p, spec_neighbors(p)[i]) == 1,
{
    let n = spec_neighbors(p)[i];
    let q = p.x - 1;
    if q % 2 == 0 {
        assert(axial_r(p) == (p.y - 1) - q / 2);
    } else {
        assert(axial_r(p) == (p.y - 1) - (q + 1) / 2);
    }
    let nq = n.x - 1;
    if nq % 2 == 0 {
        assert(axial_r(n) == (n.y - 1) - nq / 2);
    } else {
        assert(axial_r(n) == (n.y - 1) - (nq + 1) / 2);
    }
}

/// The distance from `a` to `b` is the distance from `b` to `a`.
pub proof fn lemma_distance_symmetric(a: Position, b: Position)
    ensures
        spec_distance(a, b) == spec_distance(b, a),
{
}

/// A cell is at distance zero from itself, and only from itself.
pub proof fn lemma_distance_zero(a: Position, b: Position)
    ensures
        spec_distance(a, a) == 0,
        spec_distance(a, b) == 0 ==> a == b,
{
    if spec_distance(a, b) == 0 {
        let qa = a.x - 1;
        let qb = b.x - 1;
        assert(axial_q(a) == axial_q(b));
        assert(axial_r(a) == axial_r(b));
        assert(a.x == b.x);
    }
}
} // verus!
