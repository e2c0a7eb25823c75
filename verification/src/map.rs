//! The `[map]` resource and its map objects: the game map read from WML,
//! and the colour of each gameplay terrain type.
use vstd::prelude::*;
use crate::data_format::{
    lookup, missing_attribute, named, node_view, nodes_view, parse, parse_wml, wml_has_name, Node,
    WmlNode,
};
use crate::game::split_paths;
use crate::terrain_rules::{csv as csv_strings, strings_view};
use crate::terrain_scene::TerrainScript;
use crate::hex::Bounds;
use crate::value::{data_of, field_get, fields_of, lemma_record_data, Data, Value};
use crate::world::{cell_index, cells_of, map_view, spec_cell, WorldMap};
use crate::hex::{spec_contains, Position};
use crate::terrain::{gameplay_type, spec_gameplay_type};
use crate::text::{
    chars_of, csv, decimal, format_u64, lines, lines_chars, parse_i64, parse_signed, push_all, push_str,
    split, split_chars, str_eq, string_of, trim, trim_chars,
};

verus! {

/// How a terrain type is drawn on the overview map.
#[derive(Clone, Debug, PartialEq, Eq)]
pub struct MapTile {
    pub color: [u8; 3],
}

/// The map objects by gameplay terrain type; no type occurs twice.
#[derive(Debug)]
pub struct MapTiles {
    entries: Vec<(String, MapTile)>,
}

pub open spec fn tile_key(e: (String, MapTile)) -> Seq<char> {
    e.0@
}

impl MapTiles {
    /// The entries, as pairs of a type name and its colour.
    pub closed spec fn entries_view(&self) -> Seq<(Seq<char>, [u8; 3])> {
        self.entries@.map_values(|e: (String, MapTile)| (e.0@, e.1.color))
    }

    pub closed spec fn wf(&self) -> bool {
        forall|i: int, j: int|
            0 <= i < j < self.entries@.len() ==> self.entries@[i].0@ != self.entries@[j].0@
    }

    /// The colour recorded for a type name.
    pub closed spec fn colour_of(&self, key: Seq<char>) -> Option<[u8; 3]> {
        if exists|i: int| 0 <= i < self.entries@.len() && self.entries@[i].0@ == key {
            let i = choose|i: int| 0 <= i < self.entries@.len() && self.entries@[i].0@ == key;
            Some(self.entries@[i].1.color)
        } else {
            None
        }
    }

    /// No map objects.
    pub fn new() -> (r: MapTiles)
        ensures
            r.wf(),
            forall|k: Seq<char>| r.colour_of(k) is None,
    {
        MapTiles { entries: Vec::new() }
    }

    fn position(&self, key: &str) -> (r: Option<usize>)
        requires
            self.wf(),
        ensures
            match r {
                Some(i) => i < self.entries@.len() && self.entries@[i as int].0@ == key@,
                None => forall|i: int| 0 <= i < self.entries@.len() ==> self.entries@[i].0@ != key@,
            },
    {
        let mut i: usize = 0;
        while i < self.entries.len()
            invariant
                i <= self.entries.len(),
                forall|j: int| 0 <= j < i ==> self.entries@[j].0@ != key@,
            decreases self.entries.len() - i,
        {
            if str_eq(self.entries[i].0.as_str(), key) {
                return Some(i);
            }
            i = i + 1;
        }
        None
    }

    /// Records the object of a type; gives the colour it replaces, if any.
    pub fn insert(&mut self, key: String, tile: MapTile) -> (r: Option<MapTile>)
        requires
            old(self).wf(),
        ensures
            final(self).wf(),
            r matches Some(t) ==> old(self).colour_of(key@) == Some(t.color),
            r is None ==> old(self).colour_of(key@) is None,
            final(self).colour_of(key@) == Some(tile.color),
            forall|k: Seq<char>| k != key@ ==> final(self).colour_of(k) == old(self).colour_of(k),
    {
        let ghost before = self.entries@;
        match self.position(key.as_str()) {
            Some(i) => {
                let previous = MapTile { color: self.entries[i].1.color };
                self.entries.set(i, (key, tile));
                proof {
                    assert forall|a: int, b: int|
                        0 <= a < b < self.entries@.len() implies self.entries@[a].0@
                        != self.entries@[b].0@ by {
                        assert(before[a].0@ != before[b].0@);
                    }
                    assert forall|k: Seq<char>| k != key@ implies self.colour_of(k) == old(
                        self,
                    ).colour_of(k) by {
                        if exists|j: int| 0 <= j < before.len() && before[j].0@ == k {
                            let j = choose|j: int| 0 <= j < before.len() && before[j].0@ == k;
                            assert(self.entries@[j].0@ == k);
                            let m = choose|m: int|
                                0 <= m < self.entries@.len() && self.entries@[m].0@ == k;
                            assert(m == j);
                        }
                        if exists|j: int| 0 <= j < self.entries@.len() && self.entries@[j].0@ == k {
                            let j = choose|j: int|
                                0 <= j < self.entries@.len() && self.entries@[j].0@ == k;
                            assert(before[j].0@ == k);
                        }
                    }
                    let m = choose|m: int| 0 <= m < self.entries@.len() && self.entries@[m].0@ == key@;
                    assert(self.entries@[i as int].0@ == key@);
                    assert(m == i);
                    let m0 = choose|m: int| 0 <= m < before.len() && before[m].0@ == key@;
                    assert(m0 == i);
                }
                Some(previous)
            },
            None => {
                self.entries.push((key, tile));
                proof {
                    let n = before.len() as int;
                    assert forall|k: Seq<char>| k != key@ implies self.colour_of(k) == old(
                        self,
                    ).colour_of(k) by {
                        if exists|j: int| 0 <= j < before.len() && before[j].0@ == k {
                            let j = choose|j: int| 0 <= j < before.len() && before[j].0@ == k;
                            assert(self.entries@[j].0@ == k);
                            let m = choose|m: int|
                                0 <= m < self.entries@.len() && self.entries@[m].0@ == k;
                            assert(m == j);
                        }
                        if exists|j: int| 0 <= j < self.entries@.len() && self.entries@[j].0@ == k {
                            let j = choose|j: int|
                                0 <= j < self.entries@.len() && self.entries@[j].0@ == k;
                            assert(before[j].0@ == k);
                        }
                    }
                    assert(self.entries@[n].0@ == key@);
                    let m = choose|m: int| 0 <= m < self.entries@.len() && self.entries@[m].0@ == key@;
                    assert(m == n);
                }
                None
            },
        }
    }

    /// The map object of a terrain code, found by its gameplay type (with
    /// the related type as a fallback for a few types).
    pub fn get(&self, terrain_code: &str) -> (r: Option<&MapTile>)
        requires
            self.wf(),
        ensures
            match r {
                Some(tile) => self.colour_of(spec_gameplay_type(terrain_code@)) == Some(tile.color)
                    || (self.colour_of(spec_gameplay_type(terrain_code@)) is None && self.colour_of(
                    fallback_type(spec_gameplay_type(terrain_code@)),
                ) == Some(tile.color)),
                None => self.colour_of(spec_gameplay_type(terrain_code@)) is None && self.colour_of(
                    fallback_type(spec_gameplay_type(terrain_code@)),
                ) is None,
            },
    {
        let terrain = gameplay_type(terrain_code);
        match self.position(terrain) {
            Some(i) => {
                proof {
                    let m = choose|m: int|
                        0 <= m < self.entries@.len() && self.entries@[m].0@ == terrain@;
                    assert(m == i as int);
                }
                Some(&self.entries[i].1)
            },
            None => {
                let fallback = if str_eq(terrain, "mountains") {
                    "hills"
                } else if str_eq(terrain, "deep_water") || str_eq(terrain, "swamp_water") {
                    "water"
                } else {
                    terrain
                };
                match self.position(fallback) {
                    Some(i) => {
                        proof {
                            let m = choose|m: int|
                                0 <= m < self.entries@.len() && self.entries@[m].0@ == fallback@;
                            assert(m == i as int);
                        }
                        Some(&self.entries[i].1)
                    },
                    None => None,
                }
            },
        }
    }
}

/// The type whose object stands in for a type without one of its own.
pub open spec fn fallback_type(t: Seq<char>) -> Seq<char> {
    if t == "mountains"@ {
        "hills"@
    } else if t == "deep_water"@ || t == "swamp_water"@ {
        "water"@
    } else {
        t
    }
}

// ---------------------------------------------------------------------------
// Colours and dimensions
// ---------------------------------------------------------------------------
pub open spec fn hex_digit(c: char) -> Option<int> {
    if '0' <= c <= '9' {
        Some(c as int - '0' as int)
    } else if 'a' <= c <= 'f' {
        Some(c as int - 'a' as int + 10)
    } else if 'A' <= c <= 'F' {
        Some(c as int - 'A' as int + 10)
    } else {
        None
    }
}

/// A two-character hexadecimal `u8` (`u8::from_str_radix`, which accepts
/// a leading `+`).
pub open spec fn hex_byte(a: char, b: char) -> Option<int> {
    if a == '+' {
        hex_digit(b)
    } else {
        match (hex_digit(a), hex_digit(b)) {
            (Some(x), Some(y)) => Some(16 * x + y),
            _ => None,
        }
    }
}

pub open spec fn all_ascii(s: Seq<char>) -> bool {
    forall|i: int| 0 <= i < s.len() ==> #[trigger] s[i] <= '\u{7f}'
}

/// `value` without one leading `#`.
pub open spec fn without_hash(value: Seq<char>) -> Seq<char> {
    if value.len() > 0 && value[0] == '#' {
        value.drop_first()
    } else {
        value
    }
}

/// The colour written `#rrggbb` (the `#` is optional).
pub open spec fn spec_parse_color(value: Seq<char>) -> Option<[int; 3]> {
    let v = without_hash(value);
    if v.len() != 6 || !all_ascii(v) {
        None
    } else {
        match (hex_byte(v[0], v[1]), hex_byte(v[2], v[3]), hex_byte(v[4], v[5])) {
            (Some(r), Some(g), Some(b)) => Some([r, g, b]),
            _ => None,
        }
    }
}

fn hex_digit_exec(c: char) -> (r: Option<u8>)
    ensures
        match r {
            Some(d) => hex_digit(c) == Some(d as int),
            None => hex_digit(c) is None,
        },
{
    if '0' <= c && c <= '9' {
        Some((c as u32 - '0' as u32) as u8)
    } else if 'a' <= c && c <= 'f' {
        Some((c as u32 - 'a' as u32 + 10) as u8)
    } else if 'A' <= c && c <= 'F' {
        Some((c as u32 - 'A' as u32 + 10) as u8)
    } else {
        None
    }
}

fn hex_byte_exec(a: char, b: char) -> (r: Option<u8>)
    ensures
        match r {
            Some(d) => hex_byte(a, b) == Some(d as int),
            None => hex_byte(a, b) is None,
        },
{
    if a == '+' {
        hex_digit_exec(b)
    } else {
        match (hex_digit_exec(a), hex_digit_exec(b)) {
            (Some(x), Some(y)) => Some(16 * x + y),
            _ => None,
        }
    }
}

/// Reads a colour `#rrggbb`.
pub fn parse_color(value: &str) -> (r: Result<[u8; 3], String>)
    ensures
        match r {
            Ok(c) => spec_parse_color(value@) == Some([c[0] as int, c[1] as int, c[2] as int]),
            Err(m) => spec_parse_color(value@) is None && m@ == "invalid map object color: "@
                + without_hash(value@),
        },
{
    let all = chars_of(value);
    let mut v: Vec<char> = Vec::new();
    let start: usize = if all.len() > 0 && all[0] == '#' { 1 } else { 0 };
    let mut i = start;
    while i < all.len()
        invariant
            start <= i <= all.len(),
            start == 0 || start == 1,
            v@ == all@.subrange(start as int, i as int),
        decreases all.len() - i,
    {
        v.push(all[i]);
        i = i + 1;
    }
    assert(v@ =~= without_hash(value@));
    let mut ascii = true;
    let mut j: usize = 0;
    while j < v.len()
        invariant
            j <= v.len(),
            ascii == forall|k: int| 0 <= k < j ==> #[trigger] v@[k] <= '\u{7f}',
        decreases v.len() - j,
    {
        if v[j] > '\u{7f}' {
            ascii = false;
        }
        j = j + 1;
    }
    let parsed = if v.len() != 6 || !ascii {
        None
    } else {
        match (hex_byte_exec(v[0], v[1]), hex_byte_exec(v[2], v[3]), hex_byte_exec(v[4], v[5])) {
            (Some(r), Some(g), Some(b)) => Some([r, g, b]),
            _ => None,
        }
    };
    match parsed {
        Some(c) => Ok(c),
        None => {
            let mut m: Vec<char> = Vec::new();
            push_str(&mut m, "invalid map object color: ");
            let mut k: usize = 0;
            let ghost start_m = m@;
            while k < v.len()
                invariant
                    k <= v.len(),
                    m@ == start_m + v@.subrange(0, k as int),
                decreases v.len() - k,
            {
                m.push(v[k]);
                k = k + 1;
            }
            assert(v@.subrange(0, v.len() as int) =~= v@);
            Err(string_of(&m))
        },
    }
}

/// A dimension of the `[map]` node: the attribute, read as an `i64`.
pub open spec fn spec_dimension(node: Node, name: Seq<char>) -> Result<int, Seq<char>> {
    match lookup(node_view(node).attributes, name) {
        None => Err(missing_attribute(node.name@, name)),
        Some(v) => match parse_signed(v, i64::MIN as int, i64::MAX as int) {
            Some(d) => Ok(d),
            None => Err("[map]."@ + name + " must be an integer"@),
        },
    }
}

/// A dimension of the `[map]` node: an `i64` attribute.
pub fn dimension(node: &Node, name: &str) -> (r: Result<i64, String>)
    ensures
        match r {
            Ok(d) => spec_dimension(*node, name@) == Ok::<int, Seq<char>>(d as int),
            Err(m) => spec_dimension(*node, name@) == Err::<int, Seq<char>>(m@),
        },
{
    let value = match node.attribute(name) {
        Ok(v) => v,
        Err(e) => {
            return Err(e);
        },
    };
    let v = chars_of(value);
    match parse_i64(&v) {
        Some(d) => Ok(d),
        None => {
            let mut m: Vec<char> = Vec::new();
            push_str(&mut m, "[map].");
            push_str(&mut m, name);
            push_str(&mut m, " must be an integer");
            Err(string_of(&m))
        },
    }
}


/// The rows of map data: its lines, each cut at commas into trimmed cells.
pub open spec fn map_rows(data: Seq<char>) -> Seq<Seq<Seq<char>>> {
    lines(data).map_values(|l: Seq<char>| split(l, ',').map_values(|c: Seq<char>| trim(c)))
}

/// Whether there are `h` rows of `w` cells each.
pub open spec fn rows_fit(rows: Seq<Seq<Seq<char>>>, w: int, h: int) -> bool {
    rows.len() == h && forall|i: int| 0 <= i < rows.len() ==> (#[trigger] rows[i]).len() == w
}

/// The error for data that does not fill the stated dimensions.
pub open spec fn mismatch_message(w: int, h: int) -> Seq<char> {
    "map data does not match "@ + decimal(w as nat) + "x"@ + decimal(h as nat)
}

/// A positive dimension that fits in `usize`, or the error for it.
pub open spec fn positive_dimension(d: Result<int, Seq<char>>, name: Seq<char>) -> Result<int, Seq<char>> {
    match d {
        Err(e) => Err(e),
        Ok(v) => if v <= 0 || v > usize::MAX {
            Err("[map]."@ + name + " must be a positive integer"@)
        } else {
            Ok(v)
        },
    }
}

/// The map that a `[map]` node describes, as width, height and cells row by
/// row, or the first error the loader meets.
pub open spec fn spec_load_map(node: Node) -> Result<(int, int, Seq<Seq<char>>), Seq<char>> {
    match positive_dimension(spec_dimension(node, "width"@), "width"@) {
        Err(e) => Err(e),
        Ok(w) => match positive_dimension(spec_dimension(node, "height"@), "height"@) {
            Err(e) => Err(e),
            Ok(h) => match lookup(node_view(node).attributes, "data"@) {
                None => Err(missing_attribute(node.name@, "data"@)),
                Some(data) => if rows_fit(map_rows(data), w, h) {
                    Ok((w, h, map_rows(data).flatten()))
                } else {
                    Err(mismatch_message(w, h))
                },
            },
        },
    }
}

/// The view of the cells of a map.
pub open spec fn cells_view(cells: Seq<String>) -> Seq<Seq<char>> {
    cells.map_values(|c: String| c@)
}

fn positive(node: &Node, name: &str) -> (r: Result<usize, String>)
    ensures
        match r {
            Ok(d) => positive_dimension(spec_dimension(*node, name@), name@) == Ok::<int, Seq<char>>(
                d as int,
            ),
            Err(m) => positive_dimension(spec_dimension(*node, name@), name@) == Err::<
                int,
                Seq<char>,
            >(m@),
        },
{
    let d = match dimension(node, name) {
        Ok(d) => d,
        Err(e) => {
            return Err(e);
        },
    };
    if d <= 0 || d as u64 > usize::MAX as u64 {
        let mut m: Vec<char> = Vec::new();
        push_str(&mut m, "[map].");
        push_str(&mut m, name);
        push_str(&mut m, " must be a positive integer");
        return Err(string_of(&m));
    }
    Ok(d as usize)
}

fn mismatch(width: usize, height: usize) -> (r: String)
    ensures
        r@ == mismatch_message(width as int, height as int),
{
    let mut m: Vec<char> = Vec::new();
    push_str(&mut m, "map data does not match ");
    push_all(&mut m, &format_u64(width as u64));
    push_str(&mut m, "x");
    push_all(&mut m, &format_u64(height as u64));
    string_of(&m)
}

/// A map cell holding a terrain code as its `terrain` field.
pub open spec fn terrain_record(code: Seq<char>) -> Data {
    Data::Record(seq![("terrain"@, Data::Text(code))])
}

pub open spec fn terrain_records(codes: Seq<Seq<char>>) -> Seq<Data> {
    codes.map_values(|c: Seq<char>| terrain_record(c))
}

/// Cells holding the codes as their `terrain` field.
fn terrain_cells(codes: &Vec<String>) -> (r: Vec<Value>)
    ensures
        cells_of(r@) == terrain_records(cells_view(codes@)),
{
    let mut out: Vec<Value> = Vec::new();
    let mut i: usize = 0;
    while i < codes.len()
        invariant
            i <= codes.len(),
            out.len() == i,
            forall|j: int| 0 <= j < i ==> data_of(#[trigger] out@[j]) == terrain_record(codes@[j]@),
        decreases codes.len() - i,
    {
        let mut fields: Vec<(String, Value)> = Vec::new();
        fields.push((String::from_str("terrain"), Value::String(codes[i].clone())));
        proof {
            lemma_record_data(fields);
            assert(fields_of(fields@) =~= seq![("terrain"@, Data::Text(codes@[i as int]@))]);
        }
        out.push(Value::Record(fields));
        i = i + 1;
    }
    assert(cells_of(out@) =~= terrain_records(cells_view(codes@)));
    out
}

/// Cells holding the codes as strings.
fn text_cells(codes: &Vec<String>) -> (r: Vec<Value>)
    ensures
        cells_of(r@) == cells_view(codes@).map_values(|c: Seq<char>| Data::Text(c)),
{
    let mut out: Vec<Value> = Vec::new();
    let mut i: usize = 0;
    while i < codes.len()
        invariant
            i <= codes.len(),
            out.len() == i,
            forall|j: int| 0 <= j < i ==> data_of(#[trigger] out@[j]) == Data::Text(codes@[j]@),
        decreases codes.len() - i,
    {
        out.push(Value::String(codes[i].clone()));
        i = i + 1;
    }
    assert(cells_of(out@) =~= cells_view(codes@).map_values(|c: Seq<char>| Data::Text(c)));
    out
}

pub open spec fn no_terrain_message() -> Seq<char> {
    "map cell has no string terrain field"@
}

/// The terrain code of a map cell: the cell itself where it is a string,
/// or its `terrain` field where that is a string.
pub open spec fn spec_terrain_code(d: Data) -> Result<Seq<char>, Seq<char>> {
    match d {
        Data::Text(s) => Ok(s),
        Data::Record(f) => match field_get(f, "terrain"@) {
            Some(Data::Text(s)) => Ok(s),
            _ => Err(no_terrain_message()),
        },
        _ => Err(no_terrain_message()),
    }
}

/// The terrain code at `p`, or why there is none.
pub open spec fn spec_raw(m: WorldMap, p: Position) -> Result<Seq<char>, Seq<char>> {
    match spec_cell(map_view(m), p) {
        Ok(d) => spec_terrain_code(d),
        Err(e) => Err(e),
    }
}

/// The terrain code of a map cell.
pub fn terrain_code(cell: &Value) -> (r: Result<&str, String>)
    ensures
        match r {
            Ok(code) => spec_terrain_code(data_of(*cell)) == Ok::<Seq<char>, Seq<char>>(code@),
            Err(m) => spec_terrain_code(data_of(*cell)) == Err::<Seq<char>, Seq<char>>(m@),
        },
{
    match cell {
        Value::String(s) => Ok(s.as_str()),
        Value::Record(fields) => {
            let ghost f = fields_of(fields@);
            proof {
                lemma_record_data(*fields);
                assert(f.subrange(0, f.len() as int) =~= f);
            }
            let mut i: usize = 0;
            while i < fields.len()
                invariant
                    i <= fields.len(),
                    f == fields_of(fields@),
                    data_of(*cell) == Data::Record(f),
                    field_get(f, "terrain"@) == field_get(f.subrange(i as int, f.len() as int), "terrain"@),
                decreases fields.len() - i,
            {
                let ghost rest = f.subrange(i as int, f.len() as int);
                proof {
                    assert(rest[0] == f[i as int]);
                    assert(rest.drop_first() =~= f.subrange(i as int + 1, f.len() as int));
                }
                if str_eq(fields[i].0.as_str(), "terrain") {
                    return match &fields[i].1 {
                        Value::String(s) => Ok(s.as_str()),
                        _ => Err(String::from_str("map cell has no string terrain field")),
                    };
                }
                i = i + 1;
            }
            Err(String::from_str("map cell has no string terrain field"))
        },
        _ => Err(String::from_str("map cell has no string terrain field")),
    }
}

impl WorldMap {
    /// The terrain code of the cell at `position`.
    pub fn raw(&self, position: Position) -> (r: Result<&str, String>)
        ensures
            match r {
                Ok(code) => spec_raw(*self, position) == Ok::<Seq<char>, Seq<char>>(code@),
                Err(m) => spec_raw(*self, position) == Err::<Seq<char>, Seq<char>>(m@),
            },
    {
        match self.cell(position) {
            Ok(c) => terrain_code(c),
            Err(e) => Err(e),
        }
    }

    /// The gameplay terrain type of the cell at `position`.
    pub fn get(&self, position: Position) -> (r: Result<&'static str, String>)
        ensures
            match r {
                Ok(t) => spec_raw(*self, position) matches Ok(code) && t@ == spec_gameplay_type(code),
                Err(m) => spec_raw(*self, position) == Err::<Seq<char>, Seq<char>>(m@),
            },
    {
        match self.raw(position) {
            Ok(code) => Ok(gameplay_type(code)),
            Err(e) => Err(e),
        }
    }
}

/// Reads the game map from a `[map]` node: positive `width` and `height`,
/// and `data` with one line per row of comma-separated terrain codes.
pub fn load_map(node: &Node) -> (r: Result<WorldMap, String>)
    ensures
        match r {
            Ok(m) => spec_load_map(*node) matches Ok((w, h, codes)) && m.width == w && m.height == h
                && cells_of(m.cells@) == terrain_records(codes),
            Err(e) => spec_load_map(*node) == Err::<(int, int, Seq<Seq<char>>), Seq<char>>(e@),
        },
{
    let width = match positive(node, "width") {
        Ok(w) => w,
        Err(e) => {
            return Err(e);
        },
    };
    let height = match positive(node, "height") {
        Ok(h) => h,
        Err(e) => {
            return Err(e);
        },
    };
    let data = match node.attribute("data") {
        Ok(d) => d,
        Err(e) => {
            return Err(e);
        },
    };
    let ghost rows = map_rows(data@);
    let v = chars_of(data);
    let rows_exec = lines_chars(&v);
    assert(rows.len() == rows_exec.len()) by {
        assert(rows_exec@.map_values(|p: Vec<char>| p@).len() == rows_exec@.len());
    }
    if rows_exec.len() != height {
        assert(!rows_fit(rows, width as int, height as int));
        return Err(mismatch(width, height));
    }
    let mut cells: Vec<String> = Vec::new();
    let mut i: usize = 0;
    while i < rows_exec.len()
        invariant
            i <= rows_exec.len(),
            rows.len() == rows_exec.len(),
            rows == map_rows(data@),
            positive_dimension(spec_dimension(*node, "width"@), "width"@) == Ok::<int, Seq<char>>(
                width as int,
            ),
            positive_dimension(spec_dimension(*node, "height"@), "height"@) == Ok::<
                int,
                Seq<char>,
            >(height as int),
            lookup(node_view(*node).attributes, "data"@) == Some(data@),
            rows.len() == height,
            rows_exec@.map_values(|p: Vec<char>| p@) == lines(data@),
            cells_view(cells@) == rows.take(i as int).flatten(),
            forall|j: int| 0 <= j < i ==> (#[trigger] rows[j]).len() == width,
        decreases rows_exec.len() - i,
    {
        let pieces = split_chars(&rows_exec[i], ',');
        let ghost row = rows[i as int];
        assert(rows_exec@[i as int]@ == lines(data@)[i as int]);
        assert(row == split(rows_exec@[i as int]@, ',').map_values(|c: Seq<char>| trim(c)));
        assert(pieces@.len() == row.len());
        if pieces.len() != width {
            assert(rows[i as int].len() != width);
            assert(!rows_fit(rows, width as int, height as int));
            return Err(mismatch(width, height));
        }
        let ghost before = cells_view(cells@);
        let mut k: usize = 0;
        while k < pieces.len()
            invariant
                k <= pieces.len(),
                i < rows_exec.len(),
                pieces@.map_values(|p: Vec<char>| p@) == split(rows_exec@[i as int]@, ','),
                row == split(rows_exec@[i as int]@, ',').map_values(|c: Seq<char>| trim(c)),
                cells_view(cells@) == before + row.take(k as int),
            decreases pieces.len() - k,
        {
            let t = trim_chars(&pieces[k]);
            let cell = string_of(&t);
            let ghost prev = cells@;
            cells.push(cell);
            proof {
                assert(pieces@[k as int]@ == split(rows_exec@[i as int]@, ',')[k as int]);
                assert(cells_view(cells@) =~= cells_view(prev).push(cell@));
                assert(row.take(k + 1) =~= row.take(k as int).push(row[k as int]));
                assert(cells_view(cells@) =~= before + row.take(k + 1));
            }
            k = k + 1;
        }
        proof {
            assert(row.take(k as int) =~= row);
            assert(rows.take(i + 1) =~= rows.take(i as int).push(row));
            rows.take(i as int).lemma_flatten_push(row);
        }
        i = i + 1;
    }
    proof {
        assert(rows.take(i as int) =~= rows);
        assert(rows_fit(rows, width as int, height as int));
    }
    Ok(WorldMap { width, height, cells: terrain_cells(&cells) })
}

/// Rows of `w` items each, laid end to end: `rows.len() * w` items, the item
/// of row `r` and column `c` at `r * w + c`.
proof fn lemma_flatten_rows<A>(rows: Seq<Seq<A>>, w: int)
    requires
        w >= 0,
        forall|i: int| 0 <= i < rows.len() ==> (#[trigger] rows[i]).len() == w,
    ensures
        rows.flatten().len() == rows.len() * w,
        forall|r: int, c: int|
            0 <= r < rows.len() && 0 <= c < w ==> rows.flatten()[r * w + c] == #[trigger] rows[r][c],
    decreases rows.len(),
{
    if rows.len() == 0 {
        assert(rows.flatten() =~= Seq::<A>::empty());
    } else {
        let init = rows.drop_last();
        lemma_flatten_rows(init, w);
        assert(rows =~= init.push(rows.last()));
        init.lemma_flatten_push(rows.last());
        let n = init.len();
        assert(n * w + w == (n + 1) * w) by (nonlinear_arith);
        assert forall|r: int, c: int| 0 <= r < rows.len() && 0 <= c < w implies rows.flatten()[r * w
            + c] == #[trigger] rows[r][c] by {
            if r < n {
                assert(r * w + c < n * w) by (nonlinear_arith)
                    requires
                        0 <= r < n,
                        0 <= c < w,
                ;
                assert(rows[r] == init[r]);
            } else {
                assert(r * w == n * w);
            }
        }
    }
}

/// A map read from a `[map]` node holds width x height cells, and reading a
/// position on it gives back the code written at that row and column of the
/// data.
pub proof fn lemma_loaded_map_reads_back(node: Node, m: WorldMap, p: Position)
    requires
        spec_load_map(node) matches Ok((w, h, codes)) && m.width == w && m.height == h && cells_of(
            m.cells@,
        ) == terrain_records(codes),
        spec_contains(Bounds { width: m.width, height: m.height }, p),
    ensures
        m.cells.len() == m.width * m.height,
        lookup(node_view(node).attributes, "data"@) matches Some(data) && spec_raw(m, p) == Ok::<
            Seq<char>,
            Seq<char>,
        >(map_rows(data)[p.y - 1][p.x - 1]),
{
    let data = lookup(node_view(node).attributes, "data"@)->Some_0;
    let rows = map_rows(data);
    let codes = spec_load_map(node)->Ok_0.2;
    let w = m.width as int;
    let h = m.height as int;
    assert(rows_fit(rows, w, h));
    assert(codes == rows.flatten());
    lemma_flatten_rows(rows, w);
    assert(cells_of(m.cells@).len() == m.cells.len());
    assert(h * w == w * h) by (nonlinear_arith);
    assert(p.x <= w && p.y <= h);
    let r = p.y - 1;
    let c = p.x - 1;
    assert(r * w + c < h * w) by (nonlinear_arith)
        requires
            0 <= r < h,
            0 <= c < w,
    ;
    let v = map_view(m);
    assert(cell_index(v, p) == r * w + c);
    assert(v.cells[r * w + c] == terrain_record(codes[r * w + c]));
    reveal_with_fuel(field_get, 2);
}

/// Whether a line holds something besides whitespace.
pub open spec fn nonblank(l: Seq<char>) -> bool {
    trim(l).len() > 0
}

/// The cells of one line: cut at commas, each trimmed.
pub open spec fn line_cells(l: Seq<char>) -> Seq<Seq<char>> {
    split(l, ',').map_values(|c: Seq<char>| trim(c))
}

/// The rows of a raw map file: its non-blank lines, cut into cells.
pub open spec fn raw_rows(source: Seq<char>) -> Seq<Seq<Seq<char>>> {
    lines(source).filter(|l: Seq<char>| nonblank(l)).map_values(|l: Seq<char>| line_cells(l))
}

/// The map of a raw map file, as width, height and cells row by row: every
/// row as wide as the first, and at least one cell.
pub open spec fn spec_parse_raw_map(source: Seq<char>) -> Result<(int, int, Seq<Seq<char>>), Seq<char>> {
    let rows = raw_rows(source);
    let width = if rows.len() == 0 { 0 } else { rows[0].len() as int };
    if width == 0 || exists|i: int| 0 <= i < rows.len() && (#[trigger] rows[i]).len() != width {
        Err("raw map has inconsistent row widths"@)
    } else {
        Ok((width, rows.len() as int, rows.flatten()))
    }
}

/// Reads a raw map file: one row per non-blank line, comma-separated terrain
/// codes, every row as wide as the first.
pub fn parse_raw_map(source: &str) -> (r: Result<WorldMap, String>)
    ensures
        match r {
            Ok(m) => spec_parse_raw_map(source@) matches Ok((w, h, codes)) && m.width == w && m.height
                == h && cells_of(m.cells@) == codes.map_values(|c: Seq<char>| Data::Text(c)),
            Err(e) => spec_parse_raw_map(source@) == Err::<(int, int, Seq<Seq<char>>), Seq<char>>(
                e@,
            ),
        },
{
    let v = chars_of(source);
    let all = lines_chars(&v);
    let ghost lv = lines(source@);
    let ghost keep = |l: Seq<char>| nonblank(l);
    let ghost cut = |l: Seq<char>| line_cells(l);
    let mut rows: Vec<Vec<Vec<char>>> = Vec::new();
    let mut i: usize = 0;
    while i < all.len()
        invariant
            i <= all.len(),
            all@.map_values(|p: Vec<char>| p@) == lv,
            lv == lines(source@),
            keep == (|l: Seq<char>| nonblank(l)),
            cut == (|l: Seq<char>| line_cells(l)),
            rows@.map_values(|r: Vec<Vec<char>>| r@.map_values(|c: Vec<char>| c@)) == lv.take(
                i as int,
            ).filter(keep).map_values(cut),
        decreases all.len() - i,
    {
        let line = &all[i];
        assert(line@ == lv[i as int]);
        proof {
            assert(lv.take(i + 1).drop_last() =~= lv.take(i as int));
            reveal(Seq::filter);
        }
        let t = trim_chars(line);
        if t.len() > 0 {
            let pieces = split_chars(line, ',');
            let mut row: Vec<Vec<char>> = Vec::new();
            let mut k: usize = 0;
            while k < pieces.len()
                invariant
                    k <= pieces.len(),
                    pieces@.map_values(|p: Vec<char>| p@) == split(line@, ','),
                    row@.map_values(|c: Vec<char>| c@) == split(line@, ',').take(k as int).map_values(
                        |c: Seq<char>| trim(c),
                    ),
                decreases pieces.len() - k,
            {
                let cell = trim_chars(&pieces[k]);
                assert(pieces@[k as int]@ == split(line@, ',')[k as int]);
                let ghost prev = row@;
                row.push(cell);
                assert(row@.map_values(|c: Vec<char>| c@) =~= prev.map_values(|c: Vec<char>| c@).push(
                    trim(split(line@, ',')[k as int]),
                ));
                assert(split(line@, ',').take(k + 1).map_values(|c: Seq<char>| trim(c))
                    =~= split(line@, ',').take(k as int).map_values(|c: Seq<char>| trim(c)).push(
                    trim(split(line@, ',')[k as int]),
                ));
                k = k + 1;
            }
            assert(split(line@, ',').take(k as int) =~= split(line@, ','));
            let ghost prev = rows@;
            rows.push(row);
            assert(rows@.map_values(|r: Vec<Vec<char>>| r@.map_values(|c: Vec<char>| c@))
                =~= prev.map_values(|r: Vec<Vec<char>>| r@.map_values(|c: Vec<char>| c@)).push(
                line_cells(line@),
            ));
        }
        assert(lv.take(i + 1).filter(keep).map_values(cut) =~= if nonblank(lv[i as int]) {
            lv.take(i as int).filter(keep).map_values(cut).push(cut(lv[i as int]))
        } else {
            lv.take(i as int).filter(keep).map_values(cut)
        });
        i = i + 1;
    }
    assert(lv.take(i as int) =~= lv);
    let ghost rv = raw_rows(source@);
    assert(rows@.map_values(|r: Vec<Vec<char>>| r@.map_values(|c: Vec<char>| c@)) == rv);
    assert(rows@.len() == rv.len());
    if rows.len() == 0 {
        return Err(String::from_str("raw map has inconsistent row widths"));
    }
    let width = rows[0].len();
    assert(rv[0].len() == width);
    if width == 0 {
        return Err(String::from_str("raw map has inconsistent row widths"));
    }
    let mut j: usize = 0;
    while j < rows.len()
        invariant
            j <= rows.len(),
            rows@.len() == rv.len(),
            rv == raw_rows(source@),
            rv.len() > 0,
            rv[0].len() == width,
            width > 0,
            rows@.map_values(|r: Vec<Vec<char>>| r@.map_values(|c: Vec<char>| c@)) == rv,
            forall|x: int| 0 <= x < j ==> (#[trigger] rv[x]).len() == width,
        decreases rows.len() - j,
    {
        assert(rv[j as int].len() == rows@[j as int].len());
        if rows[j].len() != width {
            assert(rv[j as int].len() != width);
            return Err(String::from_str("raw map has inconsistent row widths"));
        }
        j = j + 1;
    }
    let mut cells: Vec<String> = Vec::new();
    let mut a: usize = 0;
    while a < rows.len()
        invariant
            a <= rows.len(),
            rows@.len() == rv.len(),
            rv == raw_rows(source@),
            rv.len() > 0,
            rv[0].len() == width,
            width > 0,
            forall|x: int| 0 <= x < rv.len() ==> (#[trigger] rv[x]).len() == width,
            rows@.map_values(|r: Vec<Vec<char>>| r@.map_values(|c: Vec<char>| c@)) == rv,
            cells_view(cells@) == rv.take(a as int).flatten(),
        decreases rows.len() - a,
    {
        let row = &rows[a];
        let ghost rowv = rv[a as int];
        assert(row@.map_values(|c: Vec<char>| c@) == rowv);
        let ghost before = cells_view(cells@);
        let mut b: usize = 0;
        while b < row.len()
            invariant
                b <= row.len(),
                row@.map_values(|c: Vec<char>| c@) == rowv,
                cells_view(cells@) == before + rowv.take(b as int),
            decreases row.len() - b,
        {
            let cell = string_of(&row[b]);
            assert(row@[b as int]@ == rowv[b as int]);
            let ghost prev = cells@;
            cells.push(cell);
            assert(cells_view(cells@) =~= cells_view(prev).push(cell@));
            assert(rowv.take(b + 1) =~= rowv.take(b as int).push(rowv[b as int]));
            b = b + 1;
        }
        proof {
            assert(rowv.take(b as int) =~= rowv);
            assert(rv.take(a + 1) =~= rv.take(a as int).push(rowv));
            rv.take(a as int).lemma_flatten_push(rowv);
        }
        a = a + 1;
    }
    assert(rv.take(a as int) =~= rv);
    Ok(WorldMap { width, height: rows.len(), cells: text_cells(&cells) })
}

// ---------------------------------------------------------------------------
// Map objects and their render scripts
// ---------------------------------------------------------------------------
impl MapTiles {
    /// The colours recorded, by type name.
    pub closed spec fn colours(&self) -> Map<Seq<char>, [u8; 3]> {
        Map::new(|k: Seq<char>| self.colour_of(k) is Some, |k: Seq<char>| self.colour_of(k)->Some_0)
    }

    /// The colours of a map without objects.
    pub proof fn lemma_empty_colours(&self)
        requires
            forall|k: Seq<char>| self.colour_of(k) is None,
        ensures
            self.colours() == Map::<Seq<char>, [u8; 3]>::empty(),
    {
        assert(self.colours() =~= Map::<Seq<char>, [u8; 3]>::empty());
    }

    /// The colour of a name, read from the colours.
    pub proof fn lemma_colour_of(&self, k: Seq<char>)
        ensures
            self.colour_of(k) == if self.colours().dom().contains(k) {
                Some(self.colours()[k])
            } else {
                None
            },
    {
    }
}

/// What a map object file declares: the object's id and colour, and the
/// render script and codes it names, if any.
pub struct ObjectHead {
    pub id: Seq<char>,
    pub color: [u8; 3],
    pub renderer: Option<Seq<char>>,
    pub codes: Option<Seq<char>>,
}

/// The map object of a parsed file: exactly one `[map_object]` root with an
/// `id`, and a colour `#rrggbb` (grey where none is given).
pub open spec fn spec_object_head(ws: Seq<WmlNode>) -> Result<ObjectHead, Seq<char>> {
    let objects = named(ws, "map_object"@);
    if objects.len() == 0 {
        Err("missing [map_object]"@)
    } else if objects.len() > 1 {
        Err("expected one [map_object]"@)
    } else {
        let o = objects[0];
        let renderer = lookup(o.attributes, "renderer"@);
        let codes = lookup(o.attributes, "codes"@);
        match lookup(o.attributes, "id"@) {
            None => Err(missing_attribute(o.name, "id"@)),
            Some(id) => match lookup(o.attributes, "color"@) {
                None => Ok(ObjectHead { id, color: [96u8, 96u8, 96u8], renderer, codes }),
                Some(v) => match spec_parse_color(v) {
                    None => Err("invalid map object color: "@ + without_hash(v)),
                    Some(c) => Ok(
                        ObjectHead { id, color: [c[0] as u8, c[1] as u8, c[2] as u8], renderer, codes },
                    ),
                },
            },
        }
    }
}

/// A render script as family, codes and source.
pub open spec fn script_view(t: TerrainScript) -> (Seq<char>, Seq<Seq<char>>, Seq<char>) {
    (t.family@, strings_view(t.codes@), t.source@)
}

pub open spec fn scripts_view(v: Seq<TerrainScript>) -> Seq<(Seq<char>, Seq<Seq<char>>, Seq<char>)> {
    v.map_values(|t: TerrainScript| script_view(t))
}

/// Whether the map objects know the code's gameplay type (or the type that
/// stands in for it).
pub open spec fn known(tiles: Map<Seq<char>, [u8; 3]>, code: Seq<char>) -> bool {
    let t = spec_gameplay_type(code);
    tiles.dom().contains(t) || tiles.dom().contains(fallback_type(t))
}

/// The first problem with the cells from `j` on: a cell without a terrain
/// code, or one whose code no map object knows.
pub open spec fn first_bad_cell(tiles: Map<Seq<char>, [u8; 3]>, cells: Seq<Data>, j: int) -> Option<
    Seq<char>,
>
    decreases cells.len() - j,
{
    if j < 0 || j >= cells.len() {
        None
    } else {
        match spec_terrain_code(cells[j]) {
            Err(m) => Some(m),
            Ok(code) => if !known(tiles, code) {
                Some("map uses unknown map object: "@ + code)
            } else {
                first_bad_cell(tiles, cells, j + 1)
            },
        }
    }
}

/// What the map resources come to once every file is read.
pub open spec fn resources_outcome(
    map: WorldMap,
    tiles: Map<Seq<char>, [u8; 3]>,
    scripts: Seq<(Seq<char>, Seq<Seq<char>>, Seq<char>)>,
) -> Result<(Map<Seq<char>, [u8; 3]>, Seq<(Seq<char>, Seq<Seq<char>>, Seq<char>)>), Seq<char>> {
    match first_bad_cell(tiles, cells_of(map.cells@), 0) {
        Some(m) => Err(m),
        None => Ok((tiles, scripts)),
    }
}

/// Whether `r` is what reading the map object files `paths[i..]` with
/// `read` can come to, from the objects and scripts read so far: each file
/// must hold one new map object; an object with a renderer names its codes
/// and has its script read; at the end every cell of the map must be known.
pub open spec fn loads<F: Fn(&str) -> Result<String, String>>(
    map: WorldMap,
    paths: Seq<Seq<char>>,
    i: int,
    read: F,
    tiles: Map<Seq<char>, [u8; 3]>,
    scripts: Seq<(Seq<char>, Seq<Seq<char>>, Seq<char>)>,
    r: Result<(Map<Seq<char>, [u8; 3]>, Seq<(Seq<char>, Seq<Seq<char>>, Seq<char>)>), Seq<char>>,
) -> bool
    decreases paths.len() - i,
{
    if i < 0 || i >= paths.len() {
        r == resources_outcome(map, tiles, scripts)
    } else {
        exists|p: &str, t: Result<String, String>|
            p@ == paths[i] && #[trigger] read.ensures((p,), t) && match t {
                Err(e) => r == Err::<(Map<Seq<char>, [u8; 3]>, Seq<(Seq<char>, Seq<Seq<char>>, Seq<char>)>), Seq<char>>(e@),
                Ok(text) => match parse_wml(text@) {
                    Err(e) => r == Err::<(Map<Seq<char>, [u8; 3]>, Seq<(Seq<char>, Seq<Seq<char>>, Seq<char>)>), Seq<char>>(e),
                    Ok(ws) => match spec_object_head(ws) {
                        Err(e) => r == Err::<(Map<Seq<char>, [u8; 3]>, Seq<(Seq<char>, Seq<Seq<char>>, Seq<char>)>), Seq<char>>(e),
                        Ok(head) => if tiles.dom().contains(head.id) {
                            r == Err::<(Map<Seq<char>, [u8; 3]>, Seq<(Seq<char>, Seq<Seq<char>>, Seq<char>)>), Seq<char>>(
                                "duplicate map object id: "@ + head.id,
                            )
                        } else {
                            let grown = tiles.insert(head.id, head.color);
                            match head.renderer {
                                None => loads(map, paths, i + 1, read, grown, scripts, r),
                                Some(renderer) => match head.codes {
                                    None => r == Err::<(Map<Seq<char>, [u8; 3]>, Seq<(Seq<char>, Seq<Seq<char>>, Seq<char>)>), Seq<char>>(
                                        missing_attribute("map_object"@, "codes"@),
                                    ),
                                    Some(codes) => exists|q: &str, u: Result<String, String>|
                                        q@ == renderer && #[trigger] read.ensures((q,), u) && match u {
                                            Err(e) => r == Err::<(Map<Seq<char>, [u8; 3]>, Seq<(Seq<char>, Seq<Seq<char>>, Seq<char>)>), Seq<char>>(
                                                "cannot read terrain renderer "@ + renderer + ": "@ + e@,
                                            ),
                                            Ok(source) => loads(
                                                map,
                                                paths,
                                                i + 1,
                                                read,
                                                grown,
                                                scripts.push((head.id, csv(codes), source@)),
                                                r,
                                            ),
                                        },
                                },
                            }
                        },
                    },
                },
            }
    }
}

/// The one `[map_object]` root of a file, with its id and colour.
fn object_head(nodes: &Vec<Node>) -> (r: Result<(&Node, &str, [u8; 3]), String>)
    ensures
        match r {
            Ok((o, id, color)) => spec_object_head(nodes_view(nodes@)) matches Ok(head) && head.id
                == id@ && head.color == color && head.renderer == lookup(
                node_view(*o).attributes,
                "renderer"@,
            ) && head.codes == lookup(node_view(*o).attributes, "codes"@) && o.name@
                == "map_object"@,
            Err(m) => spec_object_head(nodes_view(nodes@)) == Err::<ObjectHead, Seq<char>>(m@),
        },
{
    let ghost ws = nodes_view(nodes@);
    let ghost f = wml_has_name("map_object"@);
    let mut found: Option<usize> = None;
    let mut count: usize = 0;
    let mut i: usize = 0;
    while i < nodes.len()
        invariant
            i <= nodes.len(),
            ws == nodes_view(nodes@),
            f == wml_has_name("map_object"@),
            count == ws.take(i as int).filter(f).len(),
            count <= i,
            match found {
                None => count == 0,
                Some(k) => k < i && count >= 1 && ws.take(i as int).filter(f)[0] == ws[k as int],
            },
        decreases nodes.len() - i,
    {
        proof {
            assert(ws.take(i as int + 1).drop_last() =~= ws.take(i as int));
            reveal(Seq::filter);
        }
        if str_eq(nodes[i].name.as_str(), "map_object") {
            assert(ws[i as int].name == nodes@[i as int].name@);
            if found.is_none() {
                found = Some(i);
            }
            count = count + 1;
        }
        i = i + 1;
    }
    assert(ws.take(i as int) =~= ws);
    let k = match found {
        None => {
            return Err(String::from_str("missing [map_object]"));
        },
        Some(k) => k,
    };
    if count > 1 {
        return Err(String::from_str("expected one [map_object]"));
    }
    let o = &nodes[k];
    assert(named(ws, "map_object"@)[0] == node_view(*o));
    assert(node_view(*o).name == "map_object"@);
    let id = match o.attribute("id") {
        Ok(id) => id,
        Err(e) => {
            return Err(e);
        },
    };
    let color: [u8; 3] = match o.get_attribute("color") {
        None => [96, 96, 96],
        Some(v) => match parse_color(v) {
            Ok(c) => c,
            Err(e) => {
                return Err(e);
            },
        },
    };
    Ok((o, id, color))
}

/// Reads the map objects named in `paths` (comma-separated files read with
/// `read`): each file holds one `[map_object]` with a new id and a colour,
/// and an object with a `renderer` has that script read and its `codes`
/// listed. Every cell of the map must then use a known object.
pub fn load_resources<F: Fn(&str) -> Result<String, String>>(
    map: &WorldMap,
    paths: &str,
    read: &F,
) -> (r: Result<(MapTiles, Vec<TerrainScript>), String>)
    requires
        forall|p: &str| read.requires((p,)),
    ensures
        match r {
            Ok((tiles, scripts)) => tiles.wf() && loads(
                *map,
                csv(paths@),
                0,
                *read,
                Map::empty(),
                seq![],
                Ok((tiles.colours(), scripts_view(scripts@))),
            ),
            Err(m) => loads(
                *map,
                csv(paths@),
                0,
                *read,
                Map::empty(),
                seq![],
                Err::<(Map<Seq<char>, [u8; 3]>, Seq<(Seq<char>, Seq<Seq<char>>, Seq<char>)>), Seq<char>>(
                    m@,
                ),
            ),
        },
{
    let files = split_paths(paths);
    let ghost ps = csv(paths@);
    assert(strings_view(files@) == ps);
    let mut tiles = MapTiles::new();
    proof {
        tiles.lemma_empty_colours();
    }
    let mut scripts: Vec<TerrainScript> = Vec::new();
    assert(scripts_view(scripts@) =~= seq![]);
    let mut i: usize = 0;
    while i < files.len()
        invariant
            i <= files.len(),
            ps == csv(paths@),
            strings_view(files@) == ps,
            forall|p: &str| read.requires((p,)),
            tiles.wf(),
            forall|x: Result<(Map<Seq<char>, [u8; 3]>, Seq<(Seq<char>, Seq<Seq<char>>, Seq<char>)>), Seq<char>>|
                #[trigger] loads(*map, ps, i as int, *read, tiles.colours(), scripts_view(scripts@), x)
                    ==> loads(*map, ps, 0, *read, Map::empty(), seq![], x),
        decreases files.len() - i,
    {
        let ghost st_tiles = tiles.colours();
        let ghost st_scripts = scripts_view(scripts@);
        let path = files[i].as_str();
        assert(path@ == ps[i as int]);
        let t = read(path);
        let text = match t {
            Err(e) => {
                assert(read.ensures((path,), Err::<String, String>(e)));
                assert(loads(*map, ps, i as int, *read, st_tiles, st_scripts, Err(e@)));
                assert(loads(*map, ps, 0, *read, Map::empty(), seq![], Err(e@)));
                return Err(e);
            },
            Ok(text) => text,
        };
        assert(read.ensures((path,), Ok::<String, String>(text)));
        let nodes = match parse(text.as_str()) {
            Err(e) => {
                assert(loads(*map, ps, i as int, *read, st_tiles, st_scripts, Err(e@)));
                assert(loads(*map, ps, 0, *read, Map::empty(), seq![], Err(e@)));
                return Err(e);
            },
            Ok(nodes) => nodes,
        };
        let (o, id, color) = match object_head(&nodes) {
            Err(e) => {
                assert(loads(*map, ps, i as int, *read, st_tiles, st_scripts, Err(e@)));
                assert(loads(*map, ps, 0, *read, Map::empty(), seq![], Err(e@)));
                return Err(e);
            },
            Ok(h) => h,
        };
        let ghost head = spec_object_head(nodes_view(nodes@))->Ok_0;
        let previous = tiles.insert(String::from_str(id), MapTile { color });
        proof {
            tiles.lemma_colour_of(id@);
            assert(tiles.colours() =~= st_tiles.insert(id@, color));
        }
        if previous.is_some() {
            let mut m: Vec<char> = Vec::new();
            push_str(&mut m, "duplicate map object id: ");
            push_str(&mut m, id);
            let e = string_of(&m);
            assert(st_tiles.dom().contains(head.id));
            assert(loads(*map, ps, i as int, *read, st_tiles, st_scripts, Err(e@)));
            assert(loads(*map, ps, 0, *read, Map::empty(), seq![], Err(e@)));
            return Err(e);
        }
        assert(!st_tiles.dom().contains(head.id));
        match o.get_attribute("renderer") {
            None => {
                assert forall|x: Result<(Map<Seq<char>, [u8; 3]>, Seq<(Seq<char>, Seq<Seq<char>>, Seq<char>)>), Seq<char>>|
                    #[trigger] loads(*map, ps, i + 1, *read, tiles.colours(), scripts_view(scripts@), x)
                    implies loads(*map, ps, 0, *read, Map::empty(), seq![], x) by {
                    assert(loads(*map, ps, i as int, *read, st_tiles, st_scripts, x));
                }
            },
            Some(renderer) => {
                let codes = match o.attribute("codes") {
                    Err(e) => {
                        assert(loads(*map, ps, i as int, *read, st_tiles, st_scripts, Err(e@)));
                        assert(loads(*map, ps, 0, *read, Map::empty(), seq![], Err(e@)));
                        return Err(e);
                    },
                    Ok(c) => c,
                };
                let u = read(renderer);
                let source = match u {
                    Err(e) => {
                        assert(read.ensures((renderer,), Err::<String, String>(e)));
                        let mut m: Vec<char> = Vec::new();
                        push_str(&mut m, "cannot read terrain renderer ");
                        push_str(&mut m, renderer);
                        push_str(&mut m, ": ");
                        push_str(&mut m, e.as_str());
                        let msg = string_of(&m);
                        assert(loads(*map, ps, i as int, *read, st_tiles, st_scripts, Err(msg@)));
                        assert(loads(*map, ps, 0, *read, Map::empty(), seq![], Err(msg@)));
                        return Err(msg);
                    },
                    Ok(source) => source,
                };
                assert(read.ensures((renderer,), Ok::<String, String>(source)));
                let script = TerrainScript {
                    family: String::from_str(id),
                    codes: csv_strings(codes),
                    source,
                };
                let ghost before = scripts@;
                scripts.push(script);
                proof {
                    assert(scripts_view(scripts@) =~= st_scripts.push(script_view(script)));
                    assert forall|x: Result<(Map<Seq<char>, [u8; 3]>, Seq<(Seq<char>, Seq<Seq<char>>, Seq<char>)>), Seq<char>>|
                        #[trigger] loads(*map, ps, i + 1, *read, tiles.colours(), scripts_view(scripts@), x)
                        implies loads(*map, ps, 0, *read, Map::empty(), seq![], x) by {
                        assert(loads(*map, ps, i as int, *read, st_tiles, st_scripts, x));
                    }
                }
            },
        }
        i = i + 1;
    }
    let ghost fin_tiles = tiles.colours();
    let ghost fin_scripts = scripts_view(scripts@);
    assert(ps.len() == files.len());
    let mut j: usize = 0;
    let ghost cv = cells_of(map.cells@);
    while j < map.cells.len()
        invariant
            j <= map.cells.len(),
            cv == cells_of(map.cells@),
            tiles.wf(),
            tiles.colours() == fin_tiles,
            first_bad_cell(fin_tiles, cv, 0) == first_bad_cell(fin_tiles, cv, j as int),
            ps.len() == i,
            ps == csv(paths@),
            forall|x: Result<(Map<Seq<char>, [u8; 3]>, Seq<(Seq<char>, Seq<Seq<char>>, Seq<char>)>), Seq<char>>|
                #[trigger] loads(*map, ps, i as int, *read, fin_tiles, fin_scripts, x)
                    ==> loads(*map, ps, 0, *read, Map::empty(), seq![], x),
        decreases map.cells.len() - j,
    {
        let code = match terrain_code(&map.cells[j]) {
            Ok(c) => c,
            Err(e) => {
                assert(first_bad_cell(fin_tiles, cv, j as int) == Some(e@));
                assert(loads(*map, ps, i as int, *read, fin_tiles, fin_scripts, Err(e@)));
                return Err(e);
            },
        };
        match tiles.get(code) {
            None => {
                proof {
                    tiles.lemma_colour_of(spec_gameplay_type(code@));
                    tiles.lemma_colour_of(fallback_type(spec_gameplay_type(code@)));
                }
                let mut m: Vec<char> = Vec::new();
                push_str(&mut m, "map uses unknown map object: ");
                push_str(&mut m, code);
                let e = string_of(&m);
                assert(!known(fin_tiles, code@));
                assert(first_bad_cell(fin_tiles, cv, j as int) == Some(e@));
                assert(loads(*map, ps, i as int, *read, fin_tiles, fin_scripts, Err(e@)));
                return Err(e);
            },
            Some(_) => {
                proof {
                    tiles.lemma_colour_of(spec_gameplay_type(code@));
                    tiles.lemma_colour_of(fallback_type(spec_gameplay_type(code@)));
                }
            },
        }
        j = j + 1;
    }
    assert(loads(*map, ps, i as int, *read, fin_tiles, fin_scripts, Ok((fin_tiles, fin_scripts))));
    Ok((tiles, scripts))
}

proof fn lemma_first_bad_cell_none(tiles: Map<Seq<char>, [u8; 3]>, cells: Seq<Data>, j: int)
    requires
        0 <= j,
        first_bad_cell(tiles, cells, j) is None,
    ensures
        forall|k: int|
            j <= k < cells.len() ==> (spec_terrain_code(#[trigger] cells[k]) matches Ok(code) && known(
                tiles,
                code,
            )),
    decreases cells.len() - j,
{
    if j < cells.len() {
        lemma_first_bad_cell_none(tiles, cells, j + 1);
    }
}

proof fn lemma_loads_ok<F: Fn(&str) -> Result<String, String>>(
    map: WorldMap,
    paths: Seq<Seq<char>>,
    i: int,
    read: F,
    tiles: Map<Seq<char>, [u8; 3]>,
    scripts: Seq<(Seq<char>, Seq<Seq<char>>, Seq<char>)>,
    out_tiles: Map<Seq<char>, [u8; 3]>,
    out_scripts: Seq<(Seq<char>, Seq<Seq<char>>, Seq<char>)>,
)
    requires
        loads(map, paths, i, read, tiles, scripts, Ok((out_tiles, out_scripts))),
    ensures
        first_bad_cell(out_tiles, cells_of(map.cells@), 0) is None,
    decreases paths.len() - i,
{
    let r: Result<(Map<Seq<char>, [u8; 3]>, Seq<(Seq<char>, Seq<Seq<char>>, Seq<char>)>), Seq<char>> = Ok(
        (out_tiles, out_scripts),
    );
    if !(i < 0 || i >= paths.len()) {
        let (p, t) = choose|p: &str, t: Result<String, String>|
            p@ == paths[i] && #[trigger] read.ensures((p,), t) && match t {
                Err(e) => r == Err::<(Map<Seq<char>, [u8; 3]>, Seq<(Seq<char>, Seq<Seq<char>>, Seq<char>)>), Seq<char>>(e@),
                Ok(text) => match parse_wml(text@) {
                    Err(e) => r == Err::<(Map<Seq<char>, [u8; 3]>, Seq<(Seq<char>, Seq<Seq<char>>, Seq<char>)>), Seq<char>>(e),
                    Ok(ws) => match spec_object_head(ws) {
                        Err(e) => r == Err::<(Map<Seq<char>, [u8; 3]>, Seq<(Seq<char>, Seq<Seq<char>>, Seq<char>)>), Seq<char>>(e),
                        Ok(head) => if tiles.dom().contains(head.id) {
                            r == Err::<(Map<Seq<char>, [u8; 3]>, Seq<(Seq<char>, Seq<Seq<char>>, Seq<char>)>), Seq<char>>(
                                "duplicate map object id: "@ + head.id,
                            )
                        } else {
                            let grown = tiles.insert(head.id, head.color);
                            match head.renderer {
                                None => loads(map, paths, i + 1, read, grown, scripts, r),
                                Some(renderer) => match head.codes {
                                    None => r == Err::<(Map<Seq<char>, [u8; 3]>, Seq<(Seq<char>, Seq<Seq<char>>, Seq<char>)>), Seq<char>>(
                                        missing_attribute("map_object"@, "codes"@),
                                    ),
                                    Some(codes) => exists|q: &str, u: Result<String, String>|
                                        q@ == renderer && #[trigger] read.ensures((q,), u) && match u {
                                            Err(e) => r == Err::<(Map<Seq<char>, [u8; 3]>, Seq<(Seq<char>, Seq<Seq<char>>, Seq<char>)>), Seq<char>>(
                                                "cannot read terrain renderer "@ + renderer + ": "@ + e@,
                                            ),
                                            Ok(source) => loads(
                                                map,
                                                paths,
                                                i + 1,
                                                read,
                                                grown,
                                                scripts.push((head.id, csv(codes), source@)),
                                                r,
                                            ),
                                        },
                                },
                            }
                        },
                    },
                },
            };
        if let Ok(text) = t {
            if let Ok(ws) = parse_wml(text@) {
                if let Ok(head) = spec_object_head(ws) {
                    let grown = tiles.insert(head.id, head.color);
                    match head.renderer {
                        None => {
                            lemma_loads_ok(map, paths, i + 1, read, grown, scripts, out_tiles, out_scripts);
                        },
                        Some(renderer) => {
                            if let Some(codes) = head.codes {
                                let (q, u) = choose|q: &str, u: Result<String, String>|
                                    q@ == renderer && #[trigger] read.ensures((q,), u) && match u {
                                        Err(e) => r == Err::<(Map<Seq<char>, [u8; 3]>, Seq<(Seq<char>, Seq<Seq<char>>, Seq<char>)>), Seq<char>>(
                                            "cannot read terrain renderer "@ + renderer + ": "@ + e@,
                                        ),
                                        Ok(source) => loads(
                                            map,
                                            paths,
                                            i + 1,
                                            read,
                                            grown,
                                            scripts.push((head.id, csv(codes), source@)),
                                            r,
                                        ),
                                    };
                                if let Ok(source) = u {
                                    lemma_loads_ok(
                                        map,
                                        paths,
                                        i + 1,
                                        read,
                                        grown,
                                        scripts.push((head.id, csv(codes), source@)),
                                        out_tiles,
                                        out_scripts,
                                    );
                                }
                            }
                        },
                    }
                }
            }
        }
    }
}

/// Map resources that load know every cell of the map: each cell has a
/// terrain code, and the gameplay type of that code, or the type that stands
/// in for it, has a map object.
pub proof fn lemma_loaded_resources_know_every_cell<F: Fn(&str) -> Result<String, String>>(
    map: WorldMap,
    paths: Seq<char>,
    read: F,
    tiles: Map<Seq<char>, [u8; 3]>,
    scripts: Seq<(Seq<char>, Seq<Seq<char>>, Seq<char>)>,
)
    requires
        loads(map, csv(paths), 0, read, Map::empty(), seq![], Ok((tiles, scripts))),
    ensures
        forall|k: int|
            0 <= k < map.cells.len() ==> (spec_terrain_code(data_of(#[trigger] map.cells@[k])) matches Ok(
                code,
            ) && known(tiles, code)),
{
    lemma_loads_ok(map, csv(paths), 0, read, Map::empty(), seq![], tiles, scripts);
    lemma_first_bad_cell_none(tiles, cells_of(map.cells@), 0);
    assert forall|k: int| 0 <= k < map.cells.len() implies (spec_terrain_code(
        data_of(#[trigger] map.cells@[k]),
    ) matches Ok(code) && known(tiles, code)) by {
        assert(cells_of(map.cells@)[k] == data_of(map.cells@[k]));
    }
}
} // verus!
