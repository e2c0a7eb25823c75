//! The error type at the boundary of the store and the script handlers, the
//! map of terrain codes that the terrain and rendering logic reads, and the
//! random source of the engine, whose callers keep the width of a range
//! within `i64`.
use vstd::prelude::*;
pub use crate::hex::Position;
use crate::hex::{
    adjacent, distance_fits, neighbors, outside_error, outside_message, spec_contains,
    spec_distance, spec_neighbors, steppable, Bounds,
};
use crate::store::{drawn, next_state, range_message};
use crate::terrain::{gameplay_type, spec_gameplay_type};
use crate::text::{format_i64, push_all, push_str, string_of};

verus! {

/// A linear congruential generator: the same seed gives the same numbers.
#[derive(Clone, Debug)]
pub struct DeterministicRandom {
    state: u64,
}

impl View for DeterministicRandom {
    type V = u64;

    closed spec fn view(&self) -> u64 {
        self.state
    }
}

impl DeterministicRandom {
    /// A generator whose state is the seed.
    pub fn new(seed: u64) -> (r: DeterministicRandom)
        ensures
            r@ == seed,
    {
        DeterministicRandom { state: seed }
    }

    /// A number from `min..=max`; an empty range is an error and leaves the
    /// state as it was. The width of the range must fit in `i64`.
    pub fn integer(&mut self, min: i64, max: i64) -> (r: Result<i64, String>)
        requires
            min > max || max - min + 1 <= i64::MAX,
        ensures
            min > max ==> (r matches Err(m) && m@ == range_message("invalid random range "@, min, max)
                && final(self)@ == old(self)@),
            min <= max ==> final(self)@ == next_state(old(self)@) && r == Ok::<i64, String>(
                drawn(final(self)@, min as int, max as int) as i64,
            ),
    {
        if min > max {
            let mut m: Vec<char> = Vec::new();
            push_str(&mut m, "invalid random range ");
            push_all(&mut m, &format_i64(min));
            push_str(&mut m, "..");
            push_all(&mut m, &format_i64(max));
            assert(m@ =~= range_message("invalid random range "@, min, max));
            return Err(string_of(&m));
        }
        self.state = self.state.wrapping_mul(6_364_136_223_846_793_005).wrapping_add(1);
        Ok(min + ((self.state >> 32u64) % (max - min + 1) as u64) as i64)
    }
}


/// An error at the boundary of the store or of a script handler.
#[derive(Clone, Debug, PartialEq, Eq)]
pub struct EngineError {
    pub code: &'static str,
    pub message: String,
}

impl EngineError {
    /// An error with a code and a message.
    pub fn new(code: &'static str, message: &str) -> (r: EngineError)
        ensures
            r.code@ == code@,
            r.message@ == message@,
    {
        EngineError { code, message: String::from_str(message) }
    }
}

/// A rectangular map whose cells hold terrain codes, stored row by row.
#[derive(Clone, Debug, PartialEq, Eq)]
pub struct GameMap {
    pub width: usize,
    pub height: usize,
    pub cells: Vec<String>,
}

/// The bounds of a map, taken as they stand.
pub open spec fn map_bounds(m: GameMap) -> Bounds {
    Bounds { width: m.width, height: m.height }
}

/// Where the cell of `p` is stored: rows of `width` cells, from the top.
pub open spec fn cell_index(m: GameMap, p: Position) -> int {
    (p.y - 1) * m.width + (p.x - 1)
}

/// The terrain code at `p`, or why there is none: empty bounds, a position
/// off the map, or too few cells for the stated dimensions.
pub open spec fn spec_raw(m: GameMap, p: Position) -> Result<Seq<char>, Seq<char>> {
    if m.width == 0 || m.height == 0 {
        Err("hex bounds must be positive"@)
    } else if !spec_contains(map_bounds(m), p) {
        Err(outside_message(p, "map"@))
    } else if cell_index(m, p) >= m.cells.len() {
        Err("map dimensions do not match its cells"@)
    } else {
        Ok(m.cells@[cell_index(m, p)]@)
    }
}

impl GameMap {
    /// The bounds of the map; both dimensions must be positive.
    pub fn bounds(&self) -> (r: Result<Bounds, String>)
        ensures
            r is Ok <==> (self.width > 0 && self.height > 0),
            r matches Ok(b) ==> b == map_bounds(*self),
            r matches Err(m) ==> m@ == "hex bounds must be positive"@,
    {
        if self.width == 0 || self.height == 0 {
            return Err(String::from_str("hex bounds must be positive"));
        }
        Ok(Bounds { width: self.width, height: self.height })
    }

    /// The terrain code of the cell at `position`.
    pub fn raw(&self, position: Position) -> (r: Result<&str, String>)
        ensures
            match r {
                Ok(code) => spec_raw(*self, position) == Ok::<Seq<char>, Seq<char>>(code@),
                Err(m) => spec_raw(*self, position) == Err::<Seq<char>, Seq<char>>(m@),
            },
    {
        let bounds = match self.bounds() {
            Ok(b) => b,
            Err(e) => {
                return Err(e);
            },
        };
        if !bounds.contains(position) {
            return Err(outside_error(position, "map"));
        }
        let row = (position.y - 1) as usize;
        let column = (position.x - 1) as usize;
        let index = match row.checked_mul(self.width) {
            Some(start) => start.checked_add(column),
            None => None,
        };
        match index {
            Some(i) => {
                if i < self.cells.len() {
                    Ok(self.cells[i].as_str())
                } else {
                    Err(String::from_str("map dimensions do not match its cells"))
                }
            },
            None => Err(String::from_str("map dimensions do not match its cells")),
        }
    }

    /// The gameplay terrain type of the cell at `position`.
    pub fn get(&self, position: Position) -> (r: Result<&'static str, String>)
        ensures
            match r {
                Ok(t) => spec_raw(*self, position) matches Ok(code) && t@ == spec_gameplay_type(code),
                Err(m) => spec_raw(*self, position) == Err::<Seq<char>, Seq<char>>(m@),
            },
    {
        match self.raw(position) {
            Ok(code) => Ok(gameplay_type(code)),
            Err(e) => Err(e),
        }
    }

    /// Whether two cells share an edge.
    pub fn are_adjacent(&self, a: Position, b: Position) -> (r: bool)
        requires
            distance_fits(a, b),
        ensures
            r == (spec_distance(a, b) == 1),
    {
        adjacent(a, b)
    }

    /// The neighbours of a cell that lie on the map, in the order of
    /// [`crate::hex::neighbors`].
    pub fn neighbors(&self, position: Position) -> (r: Vec<Position>)
        requires
            steppable(position),
        ensures
            r@ == spec_neighbors(position).filter(|c: Position| spec_contains(map_bounds(*self), c)),
    {
        let bounds = Bounds { width: self.width, height: self.height };
        let all = neighbors(position);
        let ghost all_seq = spec_neighbors(position);
        let mut out: Vec<Position> = Vec::new();
        let mut i: usize = 0;
        while i < 6
            invariant
                0 <= i <= 6,
                all@ == all_seq,
                all_seq.len() == 6,
                bounds == map_bounds(*self),
                out@ == all_seq.take(i as int).filter(|c: Position| spec_contains(bounds, c)),
            decreases 6 - i,
        {
            let candidate = all[i];
            proof {
                assert(all_seq.take(i as int + 1).drop_last() == all_seq.take(i as int));
                reveal(Seq::filter);
            }
            if bounds.contains(candidate) {
                out.push(candidate);
            }
            i = i + 1;
        }
        proof {
            assert(all_seq.take(6) == all_seq);
        }
        out
    }
}
} // verus!
