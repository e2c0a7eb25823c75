//! A small executor of terrain graphics rules.
//!
//! The rules come as compact WML: each `[terrain_rule]` names a pattern of
//! hexes (`[constraint]`, by axial offset from an anchor hex) and the images
//! to place when the pattern matches. `load_rules` reads the rules and
//! expands every rotation of a rotatable rule in advance.
use vstd::prelude::*;
use crate::map::spec_raw;
use crate::world::WorldMap;
use crate::hex::{abs, Position};
use crate::sorting::{
    items_of, key_le, lemma_sorted_items_in_order, lemma_sorted_map_items, sort_by_key, sorted_by_key,
};
use crate::data_format::{
    lookup, missing_attribute, named, node_view, nodes_view, parse, parse_wml, Node, WmlNode,
};
use crate::text::{
    chars_eq, chars_of, str_eq, csv_chars, decimal, ends_with, ends_with_str, format_u64,
    parse_signed, parse_signed_chars, parse_unsigned, parse_unsigned_chars, push_all, push_str,
    slice_chars, split, split_chars, split_once, split_once_chars, starts_with, starts_with_str,
    string_of, trim, trim_chars,
};

verus! {

/// The terrain codes a constraint accepts.
#[derive(Clone, Debug, PartialEq, Eq)]
pub enum TerrainMatch {
    Any,
    Codes { included: Vec<String>, exclude: Vec<String> },
}

/// One hex of a rule's pattern.
#[derive(Debug, PartialEq)]
pub struct Constraint {
    /// The axial offset (q, r) of the hex from the anchor; rotated in advance
    /// for each turn of the rule.
    pub offset: (i32, i32),
    /// The terrain codes accepted at this hex.
    pub terrain: TerrainMatch,
    /// Flags that must not be set on this hex, and flags that a match sets;
    /// they keep two rules from using the same edge.
    pub forbid_flags: Vec<String>,
    pub set_flags: Vec<String>,
}

/// An image that a rule places.
#[derive(Debug, PartialEq)]
pub struct RuleImage {
    /// The image key, not a file path.
    pub path: String,
    /// Lower layers are drawn first.
    pub layer: i16,
    /// The secondary sort key.
    pub base: (i16, i16),
    /// The anchor point of a large composite image.
    pub center: Option<(i16, i16)>,
}

/// A rule: every constraint must match; then the images are placed.
#[derive(Debug, PartialEq)]
pub struct TerrainRule {
    pub id: String,
    pub probability: u8,
    pub constraints: Vec<Constraint>,
    pub images: Vec<RuleImage>,
}

/// An image placed at an anchor hex.
#[derive(Debug, PartialEq)]
pub struct PlacedImage {
    pub anchor: Position,
    pub path: String,
    pub layer: i16,
    pub base: (i16, i16),
    pub center: Option<(i16, i16)>,
}

pub open spec fn strings_view(v: Seq<String>) -> Seq<Seq<char>> {
    v.map_values(|s: String| s@)
}

// ---------------------------------------------------------------------------
// Wildcards
// ---------------------------------------------------------------------------
/// The first place at or after `i` where `part` occurs in `s`.
pub open spec fn find_sub(s: Seq<char>, part: Seq<char>, i: int) -> Option<int>
    decreases s.len() + 1 - i,
{
    if i < 0 || i + part.len() > s.len() {
        None
    } else if s.subrange(i, i + part.len()) == part {
        Some(i)
    } else {
        find_sub(s, part, i + 1)
    }
}

/// Matches the `*`-separated parts of a pattern against `rest`, each at its
/// first occurrence after the previous one; the first part must start the
/// value when `anchored`. Gives what is left of the value.
pub open spec fn match_parts(
    parts: Seq<Seq<char>>,
    i: int,
    rest: Seq<char>,
    anchored: bool,
) -> Option<Seq<char>>
    decreases parts.len() - i,
{
    if i < 0 || i >= parts.len() {
        Some(rest)
    } else if parts[i].len() == 0 {
        match_parts(parts, i + 1, rest, anchored)
    } else {
        match find_sub(rest, parts[i], 0) {
            None => None,
            Some(k) => if i == 0 && anchored && k != 0 {
                None
            } else {
                match_parts(parts, i + 1, rest.subrange(k + parts[i].len(), rest.len() as int), anchored)
            },
        }
    }
}

/// Whether a terrain pattern with `*` wildcards matches `value`: `*` alone
/// matches everything; otherwise the parts between stars are found in order,
/// and the value must end with the last part unless the pattern ends in `*`.
pub open spec fn spec_wildcard(pattern: Seq<char>, value: Seq<char>) -> bool {
    if pattern == "*"@ {
        true
    } else {
        match match_parts(split(pattern, '*'), 0, value, !starts_with(pattern, "*"@)) {
            Some(rest) => ends_with(pattern, "*"@) || rest.len() == 0,
            None => false,
        }
    }
}

/// The first occurrence of `part` in `s` at or after `from`.
pub(crate) fn find_part(s: &Vec<char>, part: &Vec<char>, from: usize) -> (r: Option<usize>)
    requires
        from <= s.len(),
    ensures
        match r {
            Some(k) => find_sub(s@, part@, from as int) == Some(k as int),
            None => find_sub(s@, part@, from as int) is None,
        },
{
    let mut i = from;
    while part.len() <= s.len() - i
        invariant
            from <= i <= s.len(),
            find_sub(s@, part@, from as int) == find_sub(s@, part@, i as int),
        decreases s.len() - i,
    {
        let piece = slice_chars(s, i, i + part.len());
        if chars_eq(&piece, part) {
            return Some(i);
        }
        if part.len() == 0 {
            assert(piece@ =~= part@);
        }
        i = i + 1;
    }
    None
}

proof fn lemma_find_sub_found(s: Seq<char>, part: Seq<char>, i: int)
    ensures
        find_sub(s, part, i) matches Some(k) ==> i <= k && 0 <= k && k + part.len() <= s.len()
            && s.subrange(k, k + part.len()) == part,
    decreases s.len() + 1 - i,
{
    if i < 0 || i + part.len() > s.len() {
    } else if s.subrange(i, i + part.len()) == part {
    } else {
        lemma_find_sub_found(s, part, i + 1);
    }
}

proof fn lemma_find_sub_shift(s: Seq<char>, part: Seq<char>, off: int, i: int)
    requires
        0 <= off <= s.len(),
        0 <= i,
    ensures
        find_sub(s.subrange(off, s.len() as int), part, i) == match find_sub(s, part, off + i) {
            Some(k) => Some(k - off),
            None => None,
        },
    decreases s.len() - off + 1 - i,
{
    let t = s.subrange(off, s.len() as int);
    if i + part.len() > t.len() {
    } else {
        assert(t.subrange(i, i + part.len()) =~= s.subrange(off + i, off + i + part.len()));
        lemma_find_sub_shift(s, part, off, i + 1);
    }
}

/// Whether a terrain pattern with `*` wildcards matches `value`.
pub fn wildcard(pattern: &str, value: &str) -> (r: bool)
    ensures
        r == spec_wildcard(pattern@, value@),
{
    let p = chars_of(pattern);
    let star = chars_of("*");
    if chars_eq(&p, &star) {
        return true;
    }
    assert(pattern@ != "*"@);
    let v = chars_of(value);
    let parts = split_chars(&p, '*');
    let ghost sp = split(p@, '*');
    let anchored = !starts_with_str(&p, "*");
    let mut start: usize = 0;
    let mut index: usize = 0;
    assert(v@.subrange(0, v@.len() as int) =~= v@);
    while index < parts.len()
        invariant
            p@ == pattern@,
            v@ == value@,
            pattern@ != "*"@,
            sp == split(p@, '*'),
            parts@.map_values(|q: Vec<char>| q@) == sp,
            index <= parts.len(),
            start <= v.len(),
            anchored == !starts_with(p@, "*"@),
            match_parts(sp, 0, v@, anchored) == match_parts(
                sp,
                index as int,
                v@.subrange(start as int, v@.len() as int),
                anchored,
            ),
        decreases parts.len() - index,
    {
        let part = &parts[index];
        assert(part@ == sp[index as int]);
        if part.len() == 0 {
            index = index + 1;
            continue;
        }
        let found = find_part(&v, part, start);
        proof {
            lemma_find_sub_shift(v@, part@, start as int, 0);
            lemma_find_sub_found(v@, part@, start as int);
        }
        let ghost rest = v@.subrange(start as int, v@.len() as int);
        assert(sp[index as int].len() != 0);
        match found {
            None => {
                assert(find_sub(rest, sp[index as int], 0) is None);
                assert(match_parts(sp, index as int, rest, anchored) is None);
                return false;
            },
            Some(k) => {
                if index == 0 && anchored && k != start {
                    assert(find_sub(rest, sp[index as int], 0) == Some(k - start));
                    assert(match_parts(sp, index as int, rest, anchored) is None);
                    return false;
                }
                proof {
                    let rest = v@.subrange(start as int, v@.len() as int);
                    assert(rest.subrange(k - start + part@.len(), rest.len() as int) =~= v@.subrange(
                        k + part@.len(),
                        v@.len() as int,
                    ));
                }
                start = k + part.len();
                index = index + 1;
            },
        }
    }
    ends_with_str(&p, "*") || start == v.len()
}

/// What `accepts` sees off the map.
pub open spec fn offmap() -> Seq<char> {
    "_offmap"@
}

/// Whether some pattern of `pats` matches `t`.
pub open spec fn any_wildcard(pats: Seq<Seq<char>>, t: Seq<char>) -> bool {
    exists|i: int| 0 <= i < pats.len() && spec_wildcard(#[trigger] pats[i], t)
}

/// Whether a constraint accepts the terrain of a hex (`None` off the map,
/// which is seen as `_offmap`).
pub open spec fn spec_accepts(m: TerrainMatch, terrain: Option<Seq<char>>) -> bool {
    let t = match terrain {
        Some(code) => code,
        None => offmap(),
    };
    match m {
        TerrainMatch::Any => true,
        TerrainMatch::Codes { included, exclude } => any_wildcard(strings_view(included@), t)
            && !any_wildcard(strings_view(exclude@), t),
    }
}

fn any_matches(patterns: &Vec<String>, t: &str) -> (r: bool)
    ensures
        r == any_wildcard(strings_view(patterns@), t@),
{
    let mut i: usize = 0;
    while i < patterns.len()
        invariant
            i <= patterns.len(),
            forall|j: int|
                0 <= j < i ==> !spec_wildcard(#[trigger] strings_view(patterns@)[j], t@),
        decreases patterns.len() - i,
    {
        if wildcard(patterns[i].as_str(), t) {
            assert(strings_view(patterns@)[i as int] == patterns@[i as int]@);
            return true;
        }
        i = i + 1;
    }
    false
}

impl TerrainMatch {
    /// Whether the terrain of a hex is accepted; off the map the terrain is
    /// `_offmap`, so edge rules see a neighbour without an extra ring of
    /// hexes around the map.
    pub fn accepts(&self, terrain: Option<&str>) -> (r: bool)
        ensures
            r == spec_accepts(
                *self,
                match terrain {
                    Some(code) => Some(code@),
                    None => None,
                },
            ),
    {
        let t = match terrain {
            Some(code) => code,
            None => "_offmap",
        };
        match self {
            TerrainMatch::Any => true,
            TerrainMatch::Codes { included, exclude } => any_matches(included, t) && !any_matches(
                exclude,
                t,
            ),
        }
    }
}

// ---------------------------------------------------------------------------
// Rotations and offsets
// ---------------------------------------------------------------------------
/// One sixth of a turn of an axial offset.
pub open spec fn turn_once(o: (int, int)) -> (int, int) {
    (-o.1, o.0 + o.1)
}

/// An axial offset turned `n` sixths.
pub open spec fn spec_rotate(o: (int, int), n: nat) -> (int, int)
    decreases n,
{
    if n == 0 {
        o
    } else {
        spec_rotate(turn_once(o), (n - 1) as nat)
    }
}

pub open spec fn fits_i32(v: int) -> bool {
    i32::MIN <= v <= i32::MAX
}

/// Every step of turning `o` by `n` sixths stays inside `i32`.
pub open spec fn rotation_fits(o: (int, int), n: nat) -> bool
    decreases n,
{
    n == 0 || (fits_i32(-o.1) && fits_i32(o.0 + o.1) && rotation_fits(turn_once(o), (n - 1) as nat))
}

/// Turns an axial offset by `turns` sixths (modulo a full turn).
pub fn rotate(offset: (i32, i32), turns: u8) -> (r: (i32, i32))
    requires
        rotation_fits((offset.0 as int, offset.1 as int), (turns % 6) as nat),
    ensures
        (r.0 as int, r.1 as int) == spec_rotate((offset.0 as int, offset.1 as int), (turns % 6) as nat),
{
    let mut q = offset.0;
    let mut r = offset.1;
    let n = turns % 6;
    let mut k: u8 = 0;
    while k < n
        invariant
            k <= n,
            n == turns % 6,
            rotation_fits((q as int, r as int), (n - k) as nat),
            spec_rotate((offset.0 as int, offset.1 as int), n as nat) == spec_rotate(
                (q as int, r as int),
                (n - k) as nat,
            ),
        decreases n - k,
    {
        let nq = -r;
        let nr = q + r;
        q = nq;
        r = nr;
        k = k + 1;
    }
    (q, r)
}

pub open spec fn parity(v: int) -> int {
    v % 2
}

/// The map cell at axial offset `delta` from `anchor`: the anchor is taken
/// to axial coordinates, moved, and taken back; even 1-based columns are
/// raised by half a hex.
pub open spec fn spec_offset(anchor: Position, delta: (i32, i32)) -> Position {
    let q = anchor.x - 1 + delta.0;
    let anchor_r = anchor.y - 1 - ((anchor.x - 1) + parity(anchor.x - 1)) / 2;
    let r = anchor_r + delta.1;
    Position { x: (q + 1) as i64, y: (r + (q + parity(q)) / 2 + 1) as i64 }
}

/// The arithmetic of `offset` stays inside `i64`, which it is computed in.
pub open spec fn offset_fits(anchor: Position, delta: (i32, i32)) -> bool {
    let lim = 0x2000_0000_0000_0000int;
    -lim < anchor.x < lim && -lim < anchor.y < lim
}

/// The map cell at axial offset `delta` from `anchor`.
pub fn offset(anchor: Position, delta: (i32, i32)) -> (p: Position)
    requires
        offset_fits(anchor, delta),
    ensures
        p == spec_offset(anchor, delta),
{
    let ax = anchor.x - 1;
    let apar: i64 = if ax % 2 == 0 { 0 } else { 1 };
    assert(apar == parity(ax as int));
    let q = ax + delta.0 as i64;
    let anchor_r = anchor.y - 1 - (ax + apar) / 2;
    let r = anchor_r + delta.1 as i64;
    let qpar: i64 = if q % 2 == 0 { 0 } else { 1 };
    assert(qpar == parity(q as int));
    Position { x: q + 1, y: r + (q + qpar) / 2 + 1 }
}

/// Whether a rule with `probability` percent applies at `anchor`: a
/// deterministic hash of the seed, the rule and the anchor, so one map keeps
/// its decoration from frame to frame.
pub open spec fn spec_roll(seed: u64, rule: usize, anchor: Position, probability: u8) -> bool {
    if probability >= 100 {
        true
    } else {
        let mixed = seed ^ vstd::wrapping::u64_specs::wrapping_mul(
            rule as u64,
            0x9e37_79b9_7f4a_7c15,
        ) ^ vstd::wrapping::u64_specs::wrapping_mul(anchor.x as u64, 0xbf58_476d_1ce4_e5b9)
            ^ vstd::wrapping::u64_specs::wrapping_mul(anchor.y as u64, 0x94d0_49bb_1331_11eb);
        vstd::wrapping::u64_specs::wrapping_mul(mixed, 0x2545_f491_4f6c_dd1d) % 100
            < probability as u64
    }
}

/// Whether a rule with `probability` percent applies at `anchor`.
pub fn roll(seed: u64, rule: usize, anchor: Position, probability: u8) -> (r: bool)
    ensures
        r == spec_roll(seed, rule, anchor, probability),
{
    if probability >= 100 {
        return true;
    }
    let mixed = seed ^ (rule as u64).wrapping_mul(0x9e37_79b9_7f4a_7c15) ^ (anchor.x as u64).wrapping_mul(
        0xbf58_476d_1ce4_e5b9,
    ) ^ (anchor.y as u64).wrapping_mul(0x94d0_49bb_1331_11eb);
    mixed.wrapping_mul(0x2545_f491_4f6c_dd1d) % 100 < probability as u64
}


// ---------------------------------------------------------------------------
// Reading rules
// ---------------------------------------------------------------------------
/// The attribute `key` of a node.
pub open spec fn attr(n: WmlNode, key: Seq<char>) -> Option<Seq<char>> {
    lookup(n.attributes, key)
}

/// An `i32` attribute with a default.
pub open spec fn spec_integer(n: WmlNode, name: Seq<char>, default: int) -> Result<int, Seq<char>> {
    match attr(n, name) {
        None => Ok(default),
        Some(v) => match parse_signed(v, i32::MIN as int, i32::MAX as int) {
            Some(x) => Ok(x),
            None => Err("invalid integer "@ + name + " in ["@ + n.name + "]"@),
        },
    }
}

/// A pair `x,y` of `i16` values, each trimmed.
pub open spec fn spec_pair(value: Seq<char>) -> Result<(int, int), Seq<char>> {
    match split_once(value, ',') {
        None => Err("expected x,y, got "@ + value),
        Some(parts) => match (
            parse_signed(trim(parts.0), i16::MIN as int, i16::MAX as int),
            parse_signed(trim(parts.1), i16::MIN as int, i16::MAX as int),
        ) {
            (Some(x), Some(y)) => Ok((x, y)),
            _ => Err("invalid pair "@ + value),
        },
    }
}

/// The entries of an optional comma-separated attribute.
pub open spec fn opt_csv(v: Option<Seq<char>>) -> Seq<Seq<char>> {
    match v {
        Some(s) => crate::text::csv(s),
        None => seq![],
    }
}

/// The mathematical form of a constraint read from WML.
pub struct ConstraintSpec {
    pub offset: (int, int),
    pub included: Seq<Seq<char>>,
    pub exclude: Seq<Seq<char>>,
    pub forbid_flags: Seq<Seq<char>>,
    pub set_flags: Seq<Seq<char>>,
}

/// The mathematical form of a rule image.
pub struct ImageSpec {
    pub path: Seq<char>,
    pub layer: int,
    pub base: (int, int),
    pub center: Option<(int, int)>,
}

/// The mathematical form of a rule.
pub struct RuleSpec {
    pub id: Seq<char>,
    pub probability: int,
    pub constraints: Seq<ConstraintSpec>,
    pub images: Seq<ImageSpec>,
}

pub open spec fn pair_view(p: (i16, i16)) -> (int, int) {
    (p.0 as int, p.1 as int)
}

/// An executable constraint has the given mathematical form.
pub open spec fn constraint_is(c: Constraint, s: ConstraintSpec) -> bool {
    &&& (c.offset.0 as int, c.offset.1 as int) == s.offset
    &&& c.terrain matches TerrainMatch::Codes { included, exclude } && strings_view(included@)
        == s.included && strings_view(exclude@) == s.exclude
    &&& strings_view(c.forbid_flags@) == s.forbid_flags
    &&& strings_view(c.set_flags@) == s.set_flags
}

/// An executable image has the given mathematical form.
pub open spec fn image_is(i: RuleImage, s: ImageSpec) -> bool {
    &&& i.path@ == s.path
    &&& i.layer as int == s.layer
    &&& pair_view(i.base) == s.base
    &&& match i.center {
        Some(c) => s.center == Some(pair_view(c)),
        None => s.center is None,
    }
}

/// An executable rule has the given mathematical form.
pub open spec fn rule_is(r: TerrainRule, s: RuleSpec) -> bool {
    &&& r.id@ == s.id
    &&& r.probability as int == s.probability
    &&& r.constraints@.len() == s.constraints.len()
    &&& forall|j: int|
        0 <= j < s.constraints.len() ==> constraint_is(#[trigger] r.constraints@[j], s.constraints[j])
    &&& r.images@.len() == s.images.len()
    &&& forall|j: int| 0 <= j < s.images.len() ==> image_is(#[trigger] r.images@[j], s.images[j])
}

pub open spec fn rules_are(v: Seq<TerrainRule>, s: Seq<RuleSpec>) -> bool {
    &&& v.len() == s.len()
    &&& forall|j: int| 0 <= j < s.len() ==> rule_is(#[trigger] v[j], s[j])
}

/// A `[constraint]` node read as a constraint.
pub open spec fn spec_parse_constraint(n: WmlNode) -> Result<ConstraintSpec, Seq<char>> {
    match attr(n, "terrain"@) {
        None => Err(missing_attribute(n.name, "terrain"@)),
        Some(t) => match spec_integer(n, "q"@, 0) {
            Err(e) => Err(e),
            Ok(q) => match spec_integer(n, "r"@, 0) {
                Err(e) => Err(e),
                Ok(r) => Ok(
                    ConstraintSpec {
                        offset: (q, r),
                        included: crate::text::csv(t),
                        exclude: opt_csv(attr(n, "exclude"@)),
                        forbid_flags: opt_csv(attr(n, "forbid_flags"@)),
                        set_flags: opt_csv(attr(n, "set_flags"@)),
                    },
                ),
            },
        },
    }
}

/// An `[image]` node read as a rule image; the layer is narrowed to `i16`
/// by truncation.
pub open spec fn spec_parse_image(n: WmlNode) -> Result<ImageSpec, Seq<char>> {
    match attr(n, "name"@) {
        None => Err(missing_attribute(n.name, "name"@)),
        Some(path) => match spec_integer(n, "layer"@, 0) {
            Err(e) => Err(e),
            Ok(layer) => match spec_pair(
                match attr(n, "base"@) {
                    Some(b) => b,
                    None => "0,0"@,
                },
            ) {
                Err(e) => Err(e),
                Ok(base) => match attr(n, "center"@) {
                    None => Ok(ImageSpec { path, layer: (layer as i16) as int, base, center: None }),
                    Some(c) => match spec_pair(c) {
                        Err(e) => Err(e),
                        Ok(cv) => Ok(
                            ImageSpec { path, layer: (layer as i16) as int, base, center: Some(cv) },
                        ),
                    },
                },
            },
        },
    }
}

/// Appends the characters of `s` to a message.
fn message(parts: &Vec<&str>) -> (m: String)
    ensures
        m@ == parts@.fold_left(Seq::<char>::empty(), |acc: Seq<char>, p: &str| acc + p@),
{
    let mut v: Vec<char> = Vec::new();
    let mut i: usize = 0;
    while i < parts.len()
        invariant
            i <= parts.len(),
            v@ == parts@.take(i as int).fold_left(
                Seq::<char>::empty(),
                |acc: Seq<char>, p: &str| acc + p@,
            ),
        decreases parts.len() - i,
    {
        proof {
            assert(parts@.take(i as int + 1).drop_last() =~= parts@.take(i as int));
        }
        push_str(&mut v, parts[i]);
        i = i + 1;
    }
    assert(parts@.take(parts.len() as int) =~= parts@);
    string_of(&v)
}

/// The `i32` attribute `name` of a node, or `default` when it is absent.
pub fn integer(node: &Node, name: &str, default: i32) -> (r: Result<i32, String>)
    ensures
        match r {
            Ok(x) => spec_integer(node_view(*node), name@, default as int) == Ok::<int, Seq<char>>(
                x as int,
            ),
            Err(m) => spec_integer(node_view(*node), name@, default as int) == Err::<int, Seq<char>>(
                m@,
            ),
        },
{
    match node.get_attribute(name) {
        None => Ok(default),
        Some(value) => {
            let v = chars_of(value);
            match parse_signed_chars(&v, i32::MIN as i64, i32::MAX as i64) {
                Some(x) => Ok(x as i32),
                None => {
                    let m = message(&vec!["invalid integer ", name, " in [", node.name.as_str(), "]"]);
                    proof {
                        reveal_with_fuel(Seq::fold_left, 6);
                    }
                    assert(m@ =~= "invalid integer "@ + name@ + " in ["@ + node.name@ + "]"@);
                    Err(m)
                },
            }
        },
    }
}

/// A pair `x,y` of `i16` values.
pub fn pair(value: &str) -> (r: Result<(i16, i16), String>)
    ensures
        match r {
            Ok(p) => spec_pair(value@) == Ok::<(int, int), Seq<char>>(pair_view(p)),
            Err(m) => spec_pair(value@) == Err::<(int, int), Seq<char>>(m@),
        },
{
    let v = chars_of(value);
    match split_once_chars(&v, ',') {
        None => {
            let m = message(&vec!["expected x,y, got ", value]);
            proof {
                reveal_with_fuel(Seq::fold_left, 3);
            }
            assert(m@ =~= "expected x,y, got "@ + value@);
            Err(m)
        },
        Some((x, y)) => {
            let xt = trim_chars(&x);
            let yt = trim_chars(&y);
            let px = parse_signed_chars(&xt, i16::MIN as i64, i16::MAX as i64);
            let py = parse_signed_chars(&yt, i16::MIN as i64, i16::MAX as i64);
            match (px, py) {
                (Some(a), Some(b)) => Ok((a as i16, b as i16)),
                _ => {
                    let m = message(&vec!["invalid pair ", value]);
                    proof {
                        reveal_with_fuel(Seq::fold_left, 3);
                    }
                    assert(m@ =~= "invalid pair "@ + value@);
                    Err(m)
                },
            }
        },
    }
}

/// The non-empty trimmed comma-separated entries of a value.
pub fn csv(value: &str) -> (r: Vec<String>)
    ensures
        strings_view(r@) == crate::text::csv(value@),
{
    let v = chars_of(value);
    let pieces = csv_chars(&v);
    let mut out: Vec<String> = Vec::new();
    let mut i: usize = 0;
    while i < pieces.len()
        invariant
            i <= pieces.len(),
            pieces@.map_values(|p: Vec<char>| p@) == crate::text::csv(v@),
            strings_view(out@) == pieces@.take(i as int).map_values(|p: Vec<char>| p@),
        decreases pieces.len() - i,
    {
        let s = string_of(&pieces[i]);
        let ghost before = out@;
        out.push(s);
        proof {
            let want = pieces@.take(i as int + 1).map_values(|p: Vec<char>| p@);
            assert(strings_view(before).len() == before.len());
            assert(pieces@.take(i as int).map_values(|p: Vec<char>| p@).len() == i);
            assert(before.len() == i);
            assert(out@.len() == i + 1);
            assert(strings_view(out@).len() == want.len());
            assert forall|j: int| 0 <= j < want.len() implies strings_view(out@)[j] == want[j] by {
                if j < i {
                    assert(strings_view(out@)[j] == strings_view(before)[j]);
                    assert(pieces@.take(i as int).map_values(|p: Vec<char>| p@)[j] == want[j]);
                }
            }
            assert(strings_view(out@) =~= want);
        }
        i = i + 1;
    }
    assert(pieces@.take(pieces.len() as int) =~= pieces@);
    out
}

fn optional_csv(node: &Node, key: &str) -> (r: Vec<String>)
    ensures
        strings_view(r@) == opt_csv(attr(node_view(*node), key@)),
{
    match node.get_attribute(key) {
        Some(value) => csv(value),
        None => Vec::new(),
    }
}

/// Reads a `[constraint]` node.
pub fn parse_constraint(node: &Node) -> (r: Result<Constraint, String>)
    ensures
        match r {
            Ok(c) => spec_parse_constraint(node_view(*node)) matches Ok(s) && constraint_is(c, s),
            Err(m) => spec_parse_constraint(node_view(*node)) == Err::<ConstraintSpec, Seq<char>>(
                m@,
            ),
        },
{
    let terrain = match node.attribute("terrain") {
        Ok(t) => t,
        Err(e) => {
            return Err(e);
        },
    };
    let included = csv(terrain);
    let exclude = optional_csv(node, "exclude");
    let q = match integer(node, "q", 0) {
        Ok(q) => q,
        Err(e) => {
            return Err(e);
        },
    };
    let r = match integer(node, "r", 0) {
        Ok(r) => r,
        Err(e) => {
            return Err(e);
        },
    };
    let forbid_flags = optional_csv(node, "forbid_flags");
    let set_flags = optional_csv(node, "set_flags");
    Ok(
        Constraint {
            offset: (q, r),
            terrain: TerrainMatch::Codes { included, exclude },
            forbid_flags,
            set_flags,
        },
    )
}

/// Reads an `[image]` node.
pub fn parse_image(node: &Node) -> (r: Result<RuleImage, String>)
    ensures
        match r {
            Ok(i) => spec_parse_image(node_view(*node)) matches Ok(s) && image_is(i, s),
            Err(m) => spec_parse_image(node_view(*node)) == Err::<ImageSpec, Seq<char>>(m@),
        },
{
    let name = match node.attribute("name") {
        Ok(n) => n,
        Err(e) => {
            return Err(e);
        },
    };
    let layer = match integer(node, "layer", 0) {
        Ok(l) => l,
        Err(e) => {
            return Err(e);
        },
    };
    let base_text = match node.get_attribute("base") {
        Some(b) => b,
        None => "0,0",
    };
    let base = match pair(base_text) {
        Ok(b) => b,
        Err(e) => {
            return Err(e);
        },
    };
    let center = match node.get_attribute("center") {
        None => None,
        Some(c) => match pair(c) {
            Ok(p) => Some(p),
            Err(e) => {
                return Err(e);
            },
        },
    };
    Ok(RuleImage { path: String::from_str(name), layer: layer as i16, base, center })
}

// ---------------------------------------------------------------------------
// Rotations of rules
// ---------------------------------------------------------------------------
/// `s` with every occurrence of `pat` replaced by `rep`, left to right
/// (`str::replace`).
pub open spec fn replace_all(s: Seq<char>, pat: Seq<char>, rep: Seq<char>) -> Seq<char>
    decreases s.len(),
{
    if pat.len() == 0 || s.len() < pat.len() {
        s
    } else if s.subrange(0, pat.len() as int) == pat {
        rep + replace_all(s.subrange(pat.len() as int, s.len() as int), pat, rep)
    } else {
        seq![s[0]] + replace_all(s.drop_first(), pat, rep)
    }
}

/// `@R0` .. `@R5` replaced, in that order, by the direction names turned by
/// `turn`.
pub open spec fn rotated_from(v: Seq<char>, turn: int, names: Seq<Seq<char>>, k: int) -> Seq<char>
    decreases 6 - k,
{
    if k >= 6 || k < 0 {
        v
    } else {
        rotated_from(
            replace_all(v, "@R"@ + decimal(k as nat), names[(turn + k) % 6]),
            turn,
            names,
            k + 1,
        )
    }
}

pub open spec fn spec_rotated(v: Seq<char>, turn: int, names: Seq<Seq<char>>) -> Seq<char> {
    rotated_from(v, turn, names, 0)
}

fn replace_chars(v: &Vec<char>, pat: &Vec<char>, rep: &Vec<char>) -> (r: Vec<char>)
    requires
        pat.len() > 0,
    ensures
        r@ == replace_all(v@, pat@, rep@),
{
    let n = v.len();
    let mut out: Vec<char> = Vec::new();
    let mut i: usize = 0;
    assert(v@.subrange(0, n as int) =~= v@);
    while i < n
        invariant
            i <= n == v.len(),
            pat.len() > 0,
            out@ + replace_all(v@.subrange(i as int, n as int), pat@, rep@) == replace_all(
                v@,
                pat@,
                rep@,
            ),
        decreases n - i,
    {
        let ghost t = v@.subrange(i as int, n as int);
        if pat.len() <= n - i {
            let head = slice_chars(v, i, i + pat.len());
            assert(t.subrange(0, pat@.len() as int) =~= head@);
            if chars_eq(&head, pat) {
                push_all(&mut out, rep);
                assert(t.subrange(pat@.len() as int, t.len() as int) =~= v@.subrange(
                    (i + pat.len()) as int,
                    n as int,
                ));
                i = i + pat.len();
                continue;
            }
        }
        assert(t.drop_first() =~= v@.subrange(i + 1, n as int));
        out.push(v[i]);
        i = i + 1;
    }
    assert(v@.subrange(n as int, n as int).len() == 0);
    assert(out@ + seq![] =~= out@);
    out
}

/// A flag or image name with its direction placeholders turned by `turn`.
pub fn rotated(value: &str, turn: u8, names: &Vec<String>) -> (r: String)
    requires
        names@.len() >= 6,
    ensures
        r@ == spec_rotated(value@, turn as int, strings_view(names@)),
{
    let mut v = chars_of(value);
    let mut k: usize = 0;
    while k < 6
        invariant
            k <= 6,
            names@.len() >= 6,
            rotated_from(value@, turn as int, strings_view(names@), 0) == rotated_from(
                v@,
                turn as int,
                strings_view(names@),
                k as int,
            ),
        decreases 6 - k,
    {
        let mut pat: Vec<char> = Vec::new();
        push_str(&mut pat, "@R");
        let digits = format_u64(k as u64);
        push_all(&mut pat, &digits);
        let rep = chars_of(names[(turn as usize + k) % 6].as_str());
        assert(strings_view(names@)[(turn as int + k as int) % 6] == rep@);
        v = replace_chars(&v, &pat, &rep);
        k = k + 1;
    }
    string_of(&v)
}

/// A constraint turned by `turn`.
pub open spec fn rotate_constraint(c: ConstraintSpec, turn: int, names: Seq<Seq<char>>) -> ConstraintSpec {
    ConstraintSpec {
        offset: spec_rotate(c.offset, turn as nat),
        included: c.included,
        exclude: c.exclude,
        forbid_flags: c.forbid_flags.map_values(|f: Seq<char>| spec_rotated(f, turn, names)),
        set_flags: c.set_flags.map_values(|f: Seq<char>| spec_rotated(f, turn, names)),
    }
}

/// An image turned by `turn`.
pub open spec fn rotate_image(i: ImageSpec, turn: int, names: Seq<Seq<char>>) -> ImageSpec {
    ImageSpec { path: spec_rotated(i.path, turn, names), layer: i.layer, base: i.base, center: i.center }
}

/// The rule for one turn of a rotatable rule; its id gets `:turn`.
pub open spec fn expand_rule(
    id: Seq<char>,
    probability: int,
    cs: Seq<ConstraintSpec>,
    ims: Seq<ImageSpec>,
    names: Seq<Seq<char>>,
    turn: int,
) -> RuleSpec {
    RuleSpec {
        id: id + ":"@ + decimal(turn as nat),
        probability,
        constraints: cs.map_values(|c: ConstraintSpec| rotate_constraint(c, turn, names)),
        images: ims.map_values(|i: ImageSpec| rotate_image(i, turn, names)),
    }
}

/// Every constraint can be turned by every turn without leaving `i32`.
pub open spec fn rotations_fit(cs: Seq<ConstraintSpec>, turns: Seq<int>) -> bool {
    forall|j: int, t: int|
        0 <= j < cs.len() && 0 <= t < turns.len() ==> rotation_fits(
            #[trigger] cs[j].offset,
            #[trigger] turns[t] as nat,
        )
}

/// Each entry of `items` read as a `u8` turn.
pub open spec fn parse_turn_list(items: Seq<Seq<char>>, id: Seq<char>) -> Result<Seq<int>, Seq<char>>
    decreases items.len(),
{
    if items.len() == 0 {
        Ok(seq![])
    } else {
        match parse_unsigned(items[0], 255) {
            None => Err("invalid rotation_turns in "@ + id),
            Some(t) => match parse_turn_list(items.drop_first(), id) {
                Ok(ts) => Ok(seq![t] + ts),
                Err(e) => Err(e),
            },
        }
    }
}

/// The turns of a rule: `rotation_turns` when given, else `0..rotations`
/// (one turn by default).
pub open spec fn spec_turns(n: WmlNode, id: Seq<char>) -> Result<Seq<int>, Seq<char>> {
    match attr(n, "rotation_turns"@) {
        Some(v) => parse_turn_list(crate::text::csv(v), id),
        None => match attr(n, "rotations"@) {
            None => Ok(seq![0]),
            Some(v) => match parse_unsigned(v, 255) {
                None => Err("invalid rotations in "@ + id),
                Some(k) => Ok(Seq::new(k as nat, |i: int| i)),
            },
        },
    }
}

pub open spec fn default_names() -> Seq<Seq<char>> {
    seq!["n"@, "ne"@, "se"@, "s"@, "sw"@, "nw"@]
}

/// The names put in place of `@R0`..`@R5`.
pub open spec fn spec_rotation_names(n: WmlNode) -> Seq<Seq<char>> {
    match attr(n, "rotation_names"@) {
        Some(v) => crate::text::csv(v),
        None => default_names(),
    }
}

/// Reads the nodes with `f` in order, stopping at the first error.
pub open spec fn parse_constraints(ns: Seq<WmlNode>) -> Result<Seq<ConstraintSpec>, Seq<char>>
    decreases ns.len(),
{
    if ns.len() == 0 {
        Ok(seq![])
    } else {
        match spec_parse_constraint(ns[0]) {
            Err(e) => Err(e),
            Ok(c) => match parse_constraints(ns.drop_first()) {
                Err(e) => Err(e),
                Ok(cs) => Ok(seq![c] + cs),
            },
        }
    }
}

pub open spec fn parse_images(ns: Seq<WmlNode>) -> Result<Seq<ImageSpec>, Seq<char>>
    decreases ns.len(),
{
    if ns.len() == 0 {
        Ok(seq![])
    } else {
        match spec_parse_image(ns[0]) {
            Err(e) => Err(e),
            Ok(i) => match parse_images(ns.drop_first()) {
                Err(e) => Err(e),
                Ok(is) => Ok(seq![i] + is),
            },
        }
    }
}

/// What reading rules leads to.
pub enum LoadOutcome {
    /// The rules, every rotation expanded.
    Rules(Seq<RuleSpec>),
    /// The text is not well-formed WML, or a rule is invalid; the message
    /// says why.
    Error(Seq<char>),
    /// Turning a constraint would leave `i32`.
    Overflow,
}

/// Reading one `[terrain_rule]` node.
pub open spec fn spec_load_node(n: WmlNode) -> LoadOutcome {
    if n.name != "terrain_rule"@ {
        LoadOutcome::Error("unexpected terrain node ["@ + n.name + "]"@)
    } else {
        match attr(n, "id"@) {
            None => LoadOutcome::Error(missing_attribute(n.name, "id"@)),
            Some(id) => match (match attr(n, "probability"@) {
                None => Some(100int),
                Some(v) => parse_unsigned(v, 255),
            }) {
                None => LoadOutcome::Error("invalid probability in "@ + id),
                Some(p) => if p > 100 {
                    LoadOutcome::Error("probability exceeds 100 in "@ + id)
                } else {
                    match spec_turns(n, id) {
                        Err(e) => LoadOutcome::Error(e),
                        Ok(turns) => if turns.len() == 0 || exists|t: int|
                            0 <= t < turns.len() && #[trigger] turns[t] > 5 {
                            LoadOutcome::Error("rotations must select turns 0..=5 in "@ + id)
                        } else if spec_rotation_names(n).len() != 6 {
                            LoadOutcome::Error("rotation_names must contain six values in "@ + id)
                        } else {
                            match parse_constraints(named(n.children, "constraint"@)) {
                                Err(e) => LoadOutcome::Error(e),
                                Ok(cs) => match parse_images(named(n.children, "image"@)) {
                                    Err(e) => LoadOutcome::Error(e),
                                    Ok(ims) => if cs.len() == 0 || ims.len() == 0 {
                                        LoadOutcome::Error("terrain rule "@ + id + " is empty"@)
                                    } else if !rotations_fit(cs, turns) {
                                        LoadOutcome::Overflow
                                    } else {
                                        LoadOutcome::Rules(
                                            turns.map_values(
                                                |t: int|
                                                    expand_rule(
                                                        id,
                                                        p,
                                                        cs,
                                                        ims,
                                                        spec_rotation_names(n),
                                                        t,
                                                    ),
                                            ),
                                        )
                                    },
                                },
                            }
                        },
                    }
                },
            },
        }
    }
}

/// Reading the nodes in order; the first failing node decides.
pub open spec fn load_nodes(ns: Seq<WmlNode>) -> LoadOutcome
    decreases ns.len(),
{
    if ns.len() == 0 {
        LoadOutcome::Rules(seq![])
    } else {
        match spec_load_node(ns[0]) {
            LoadOutcome::Rules(rs) => match load_nodes(ns.drop_first()) {
                LoadOutcome::Rules(more) => LoadOutcome::Rules(rs + more),
                other => other,
            },
            other => other,
        }
    }
}

/// Reading a rule file.
pub open spec fn spec_load_rules(source: Seq<char>) -> LoadOutcome {
    match parse_wml(source) {
        Err(m) => LoadOutcome::Error(m),
        Ok(nodes) => load_nodes(nodes),
    }
}

proof fn lemma_strings_take(v: Seq<String>, i: int)
    requires
        0 <= i < v.len(),
    ensures
        strings_view(v.take(i + 1)) == strings_view(v.take(i)).push(v[i]@),
{
    assert(v.take(i + 1) =~= v.take(i).push(v[i]));
    assert(strings_view(v.take(i).push(v[i])) =~= strings_view(v.take(i)).push(v[i]@));
}

proof fn lemma_strings_push(v: Seq<String>, s: String)
    ensures
        strings_view(v.push(s)) == strings_view(v).push(s@),
{
    assert(strings_view(v.push(s)) =~= strings_view(v).push(s@));
}

fn copy_strings(v: &Vec<String>) -> (r: Vec<String>)
    ensures
        strings_view(r@) == strings_view(v@),
{
    let mut out: Vec<String> = Vec::new();
    let mut i: usize = 0;
    while i < v.len()
        invariant
            i <= v.len(),
            strings_view(out@) == strings_view(v@.take(i as int)),
        decreases v.len() - i,
    {
        let ghost before = out@;
        let c = v[i].clone();
        out.push(c);
        proof {
            lemma_strings_push(before, c);
            lemma_strings_take(v@, i as int);
        }
        i = i + 1;
    }
    assert(v@.take(v.len() as int) =~= v@);
    out
}

fn rotate_all(flags: &Vec<String>, turn: u8, names: &Vec<String>) -> (r: Vec<String>)
    requires
        names@.len() >= 6,
    ensures
        strings_view(r@) == strings_view(flags@).map_values(
            |f: Seq<char>| spec_rotated(f, turn as int, strings_view(names@)),
        ),
{
    let ghost nv = strings_view(names@);
    let mut out: Vec<String> = Vec::new();
    let mut i: usize = 0;
    while i < flags.len()
        invariant
            i <= flags.len(),
            names@.len() >= 6,
            nv == strings_view(names@),
            strings_view(out@) == strings_view(flags@.take(i as int)).map_values(
                |f: Seq<char>| spec_rotated(f, turn as int, nv),
            ),
        decreases flags.len() - i,
    {
        let f = rotated(flags[i].as_str(), turn, names);
        let ghost before = out@;
        out.push(f);
        proof {
            lemma_strings_push(before, f);
            lemma_strings_take(flags@, i as int);
            let g = |x: Seq<char>| spec_rotated(x, turn as int, nv);
            assert(strings_view(flags@.take(i as int)).push(flags@[i as int]@).map_values(g)
                =~= strings_view(flags@.take(i as int)).map_values(g).push(g(flags@[i as int]@)));
        }
        i = i + 1;
    }
    assert(flags@.take(flags.len() as int) =~= flags@);
    out
}

/// One turn of a rule.
fn expand(
    id: &str,
    probability: u8,
    cs: &Vec<Constraint>,
    ims: &Vec<RuleImage>,
    names: &Vec<String>,
    turn: u8,
    Ghost(css): Ghost<Seq<ConstraintSpec>>,
    Ghost(imss): Ghost<Seq<ImageSpec>>,
) -> (r: TerrainRule)
    requires
        names@.len() == 6,
        turn <= 5,
        cs@.len() == css.len(),
        forall|j: int| 0 <= j < css.len() ==> constraint_is(#[trigger] cs@[j], css[j]),
        ims@.len() == imss.len(),
        forall|j: int| 0 <= j < imss.len() ==> image_is(#[trigger] ims@[j], imss[j]),
        forall|j: int| 0 <= j < css.len() ==> rotation_fits(#[trigger] css[j].offset, turn as nat),
    ensures
        rule_is(
            r,
            expand_rule(id@, probability as int, css, imss, strings_view(names@), turn as int),
        ),
{
    let ghost nv = strings_view(names@);
    let ghost want = expand_rule(id@, probability as int, css, imss, nv, turn as int);
    let mut constraints: Vec<Constraint> = Vec::new();
    let mut j: usize = 0;
    while j < cs.len()
        invariant
            j <= cs.len(),
            names@.len() == 6,
            nv == strings_view(names@),
            turn <= 5,
            cs@.len() == css.len(),
            forall|k: int| 0 <= k < css.len() ==> constraint_is(#[trigger] cs@[k], css[k]),
            forall|k: int| 0 <= k < css.len() ==> rotation_fits(#[trigger] css[k].offset, turn as nat),
            constraints@.len() == j,
            forall|k: int|
                0 <= k < j ==> constraint_is(
                    #[trigger] constraints@[k],
                    rotate_constraint(css[k], turn as int, nv),
                ),
        decreases cs.len() - j,
    {
        let c = &cs[j];
        assert(constraint_is(cs@[j as int], css[j as int]));
        assert(rotation_fits(css[j as int].offset, turn as nat));
        assert((turn % 6) as nat == turn as nat);
        let offset = rotate(c.offset, turn);
        let terrain = match &c.terrain {
            TerrainMatch::Codes { included, exclude } => TerrainMatch::Codes {
                included: copy_strings(included),
                exclude: copy_strings(exclude),
            },
            TerrainMatch::Any => TerrainMatch::Any,
        };
        let forbid_flags = rotate_all(&c.forbid_flags, turn, names);
        let set_flags = rotate_all(&c.set_flags, turn, names);
        constraints.push(Constraint { offset, terrain, forbid_flags, set_flags });
        j = j + 1;
    }
    let mut images: Vec<RuleImage> = Vec::new();
    let mut j: usize = 0;
    while j < ims.len()
        invariant
            j <= ims.len(),
            names@.len() == 6,
            nv == strings_view(names@),
            ims@.len() == imss.len(),
            forall|k: int| 0 <= k < imss.len() ==> image_is(#[trigger] ims@[k], imss[k]),
            images@.len() == j,
            forall|k: int|
                0 <= k < j ==> image_is(
                    #[trigger] images@[k],
                    rotate_image(imss[k], turn as int, nv),
                ),
        decreases ims.len() - j,
    {
        let im = &ims[j];
        assert(image_is(ims@[j as int], imss[j as int]));
        let path = rotated(im.path.as_str(), turn, names);
        images.push(RuleImage { path, layer: im.layer, base: im.base, center: im.center });
        j = j + 1;
    }
    let mut rid: Vec<char> = chars_of(id);
    rid.push(':');
    let digits = format_u64(turn as u64);
    push_all(&mut rid, &digits);
    proof {
        reveal_strlit(":");
        assert(rid@ =~= id@ + ":"@ + decimal(turn as nat));
    }
    let r = TerrainRule { id: string_of(&rid), probability, constraints, images };
    assert forall|k: int| 0 <= k < want.constraints.len() implies constraint_is(
        #[trigger] r.constraints@[k],
        want.constraints[k],
    ) by {}
    assert forall|k: int| 0 <= k < want.images.len() implies image_is(
        #[trigger] r.images@[k],
        want.images[k],
    ) by {}
    r
}

/// Prepends what the first nodes gave to the outcome of the rest.
pub open spec fn after(done: Seq<RuleSpec>, o: LoadOutcome) -> LoadOutcome {
    match o {
        LoadOutcome::Rules(rs) => LoadOutcome::Rules(done + rs),
        other => other,
    }
}

pub open spec fn after_constraints(
    done: Seq<ConstraintSpec>,
    o: Result<Seq<ConstraintSpec>, Seq<char>>,
) -> Result<Seq<ConstraintSpec>, Seq<char>> {
    match o {
        Ok(cs) => Ok(done + cs),
        Err(e) => Err(e),
    }
}

pub open spec fn after_images(done: Seq<ImageSpec>, o: Result<Seq<ImageSpec>, Seq<char>>) -> Result<
    Seq<ImageSpec>,
    Seq<char>,
> {
    match o {
        Ok(is) => Ok(done + is),
        Err(e) => Err(e),
    }
}

pub open spec fn after_turns(done: Seq<int>, o: Result<Seq<int>, Seq<char>>) -> Result<
    Seq<int>,
    Seq<char>,
> {
    match o {
        Ok(ts) => Ok(done + ts),
        Err(e) => Err(e),
    }
}

fn id_message(prefix: &str, id: &str) -> (m: String)
    ensures
        m@ == prefix@ + id@,
{
    let mut v = chars_of(prefix);
    push_str(&mut v, id);
    string_of(&v)
}

/// The turns of a rule node.
fn parse_turns(node: &Node, id: &str) -> (r: Result<Vec<u8>, String>)
    ensures
        match r {
            Ok(v) => spec_turns(node_view(*node), id@) == Ok::<Seq<int>, Seq<char>>(
                v@.map_values(|t: u8| t as int),
            ),
            Err(m) => spec_turns(node_view(*node), id@) == Err::<Seq<int>, Seq<char>>(m@),
        },
{
    match node.get_attribute("rotation_turns") {
        Some(value) => {
            let items = csv(value);
            let ghost iv = strings_view(items@);
            let mut out: Vec<u8> = Vec::new();
            let mut i: usize = 0;
            assert(iv.subrange(0, iv.len() as int) =~= iv);
            while i < items.len()
                invariant
                    i <= items.len(),
                    attr(node_view(*node), "rotation_turns"@) == Some(value@),
                    iv == crate::text::csv(value@),
                    iv == strings_view(items@),
                    iv.len() == items@.len(),
                    parse_turn_list(iv, id@) == after_turns(
                        out@.map_values(|t: u8| t as int),
                        parse_turn_list(iv.subrange(i as int, iv.len() as int), id@),
                    ),
                decreases items.len() - i,
            {
                let ghost rest = iv.subrange(i as int, iv.len() as int);
                assert(rest[0] == items@[i as int]@);
                assert(rest.drop_first() =~= iv.subrange(i + 1, iv.len() as int));
                let t = chars_of(items[i].as_str());
                match parse_unsigned_chars(&t, 255) {
                    None => {
                        return Err(id_message("invalid rotation_turns in ", id));
                    },
                    Some(n) => {
                        let ghost before = out@.map_values(|t: u8| t as int);
                        out.push(n as u8);
                        assert(out@.map_values(|t: u8| t as int) =~= before + seq![n as int]);
                        proof {
                            match parse_turn_list(iv.subrange(i + 1, iv.len() as int), id@) {
                                Ok(ts) => {
                                    assert(before + (seq![n as int] + ts) =~= before + seq![
                                        n as int,
                                    ] + ts);
                                },
                                Err(e) => {},
                            }
                        }
                    },
                }
                i = i + 1;
            }
            assert(iv.subrange(iv.len() as int, iv.len() as int).len() == 0);
            assert(out@.map_values(|t: u8| t as int) + seq![] =~= out@.map_values(
                |t: u8| t as int,
            ));
            Ok(out)
        },
        None => match node.get_attribute("rotations") {
            None => {
                let v: Vec<u8> = vec![0];
                assert(v@.map_values(|t: u8| t as int) =~= seq![0int]);
                Ok(v)
            },
            Some(value) => {
                let t = chars_of(value);
                match parse_unsigned_chars(&t, 255) {
                    None => Err(id_message("invalid rotations in ", id)),
                    Some(k) => {
                        let mut v: Vec<u8> = Vec::new();
                        let mut j: u64 = 0;
                        while j < k
                            invariant
                                j <= k <= 255,
                                v@.len() == j,
                                forall|x: int| 0 <= x < j ==> #[trigger] v@[x] as int == x,
                            decreases k - j,
                        {
                            v.push(j as u8);
                            j = j + 1;
                        }
                        assert(v@.map_values(|t: u8| t as int) =~= Seq::new(k as nat, |i: int| i));
                        Ok(v)
                    },
                }
            },
        },
    }
}

fn msg3(a: &str, b: &str, c: &str) -> (m: String)
    ensures
        m@ == a@ + b@ + c@,
{
    let mut v = chars_of(a);
    push_str(&mut v, b);
    push_str(&mut v, c);
    string_of(&v)
}

fn rotation_names(node: &Node) -> (r: Vec<String>)
    ensures
        strings_view(r@) == spec_rotation_names(node_view(*node)),
{
    match node.get_attribute("rotation_names") {
        Some(value) => csv(value),
        None => {
            let v = vec![
                String::from_str("n"),
                String::from_str("ne"),
                String::from_str("se"),
                String::from_str("s"),
                String::from_str("sw"),
                String::from_str("nw"),
            ];
            assert(strings_view(v@) =~= default_names());
            v
        },
    }
}

/// Whether every step of turning `offset` by `n` sixths stays inside `i32`.
fn rotation_fits_exec(offset: (i32, i32), n: u8) -> (r: bool)
    ensures
        r == rotation_fits((offset.0 as int, offset.1 as int), n as nat),
{
    let mut q: i64 = offset.0 as i64;
    let mut r: i64 = offset.1 as i64;
    let mut k: u8 = n;
    while k > 0
        invariant
            k <= n,
            i32::MIN <= q <= i32::MAX,
            i32::MIN <= r <= i32::MAX,
            rotation_fits((offset.0 as int, offset.1 as int), n as nat) == rotation_fits(
                (q as int, r as int),
                k as nat,
            ),
        decreases k,
    {
        let nq = -r;
        let nr = q + r;
        if nq < i32::MIN as i64 || nq > i32::MAX as i64 || nr < i32::MIN as i64 || nr
            > i32::MAX as i64 {
            return false;
        }
        q = nq;
        r = nr;
        k = k - 1;
    }
    true
}

/// Whether every constraint can be turned by every selected turn.
fn rotations_fit_exec(
    cs: &Vec<Constraint>,
    turns: &Vec<u8>,
    Ghost(css): Ghost<Seq<ConstraintSpec>>,
) -> (r: bool)
    requires
        cs@.len() == css.len(),
        forall|j: int| 0 <= j < css.len() ==> constraint_is(#[trigger] cs@[j], css[j]),
    ensures
        r == rotations_fit(css, turns@.map_values(|t: u8| t as int)),
{
    let ghost tv = turns@.map_values(|t: u8| t as int);
    let mut j: usize = 0;
    while j < cs.len()
        invariant
            j <= cs.len(),
            cs@.len() == css.len(),
            tv == turns@.map_values(|t: u8| t as int),
            forall|x: int| 0 <= x < css.len() ==> constraint_is(#[trigger] cs@[x], css[x]),
            forall|a: int, t: int|
                0 <= a < j && 0 <= t < tv.len() ==> rotation_fits(
                    #[trigger] css[a].offset,
                    #[trigger] tv[t] as nat,
                ),
        decreases cs.len() - j,
    {
        let mut k: usize = 0;
        while k < turns.len()
            invariant
                j < cs.len(),
                k <= turns.len(),
                cs@.len() == css.len(),
                tv == turns@.map_values(|t: u8| t as int),
                forall|x: int| 0 <= x < css.len() ==> constraint_is(#[trigger] cs@[x], css[x]),
                forall|a: int, t: int|
                    0 <= a < j && 0 <= t < tv.len() ==> rotation_fits(
                        #[trigger] css[a].offset,
                        #[trigger] tv[t] as nat,
                    ),
                forall|t: int|
                    0 <= t < k ==> rotation_fits(css[j as int].offset, #[trigger] tv[t] as nat),
            decreases turns.len() - k,
        {
            assert(constraint_is(cs@[j as int], css[j as int]));
            if !rotation_fits_exec(cs[j].offset, turns[k]) {
                assert(!rotation_fits(css[j as int].offset, tv[k as int] as nat));
                return false;
            }
            k = k + 1;
        }
        j = j + 1;
    }
    true
}

/// Reads one `[terrain_rule]` node and expands its turns.
#[verifier::loop_isolation(false)]
fn load_node(node: &Node) -> (r: Option<Result<Vec<TerrainRule>, String>>)
    ensures
        match r {
            None => spec_load_node(node_view(*node)) is Overflow,
            Some(Ok(v)) => spec_load_node(node_view(*node)) matches LoadOutcome::Rules(rs)
                && rules_are(v@, rs),
            Some(Err(m)) => spec_load_node(node_view(*node)) == LoadOutcome::Error(m@),
        },
{
    let ghost n = node_view(*node);
    if !str_eq(node.name.as_str(), "terrain_rule") {
        return Some(Err(msg3("unexpected terrain node [", node.name.as_str(), "]")));
    }
    let id = match node.attribute("id") {
        Ok(i) => i,
        Err(e) => {
            return Some(Err(e));
        },
    };
    let probability: u8 = match node.get_attribute("probability") {
        None => 100,
        Some(v) => {
            let t = chars_of(v);
            match parse_unsigned_chars(&t, 255) {
                Some(p) => p as u8,
                None => {
                    return Some(Err(id_message("invalid probability in ", id)));
                },
            }
        },
    };
    if probability > 100 {
        return Some(Err(id_message("probability exceeds 100 in ", id)));
    }
    let turns = match parse_turns(node, id) {
        Ok(t) => t,
        Err(e) => {
            return Some(Err(e));
        },
    };
    let ghost tv = turns@.map_values(|t: u8| t as int);
    let mut bad = turns.len() == 0;
    let mut i: usize = 0;
    while i < turns.len()
        invariant
            i <= turns.len(),
            tv == turns@.map_values(|t: u8| t as int),
            bad == (turns.len() == 0 || exists|x: int| 0 <= x < i && #[trigger] tv[x] > 5),
        decreases turns.len() - i,
    {
        if turns[i] > 5 {
            assert(tv[i as int] > 5);
            bad = true;
        }
        i = i + 1;
    }
    if bad {
        return Some(Err(id_message("rotations must select turns 0..=5 in ", id)));
    }
    let names = rotation_names(node);
    if names.len() != 6 {
        return Some(Err(id_message("rotation_names must contain six values in ", id)));
    }
    let constraint_nodes = node.children_named("constraint");
    let ghost cn = constraint_nodes@.map_values(|c: &Node| node_view(*c));
    let mut cs: Vec<Constraint> = Vec::new();
    let ghost mut css: Seq<ConstraintSpec> = seq![];
    let mut i: usize = 0;
    assert(cn.subrange(0, cn.len() as int) =~= cn);
    while i < constraint_nodes.len()
        invariant
            i <= constraint_nodes.len(),
            cn == constraint_nodes@.map_values(|c: &Node| node_view(*c)),
            cn.len() == constraint_nodes@.len(),
            parse_constraints(cn) == after_constraints(
                css,
                parse_constraints(cn.subrange(i as int, cn.len() as int)),
            ),
            cs@.len() == css.len(),
            forall|j: int| 0 <= j < css.len() ==> constraint_is(#[trigger] cs@[j], css[j]),
        decreases constraint_nodes.len() - i,
    {
        let ghost rest = cn.subrange(i as int, cn.len() as int);
        assert(rest[0] == node_view(*constraint_nodes@[i as int]));
        assert(rest.drop_first() =~= cn.subrange(i + 1, cn.len() as int));
        match parse_constraint(constraint_nodes[i]) {
            Err(e) => {
                return Some(Err(e));
            },
            Ok(c) => {
                let ghost spec_c = spec_parse_constraint(rest[0])->Ok_0;
                proof {
                    match parse_constraints(cn.subrange(i + 1, cn.len() as int)) {
                        Ok(more) => {
                            assert(css + (seq![spec_c] + more) =~= css.push(spec_c) + more);
                        },
                        Err(e) => {},
                    }
                    css = css.push(spec_c);
                }
                cs.push(c);
            },
        }
        i = i + 1;
    }
    assert(cn.subrange(cn.len() as int, cn.len() as int).len() == 0);
    assert(css + seq![] =~= css);
    let image_nodes = node.children_named("image");
    let ghost im = image_nodes@.map_values(|c: &Node| node_view(*c));
    let mut ims: Vec<RuleImage> = Vec::new();
    let ghost mut imss: Seq<ImageSpec> = seq![];
    let mut i: usize = 0;
    assert(im.subrange(0, im.len() as int) =~= im);
    while i < image_nodes.len()
        invariant
            i <= image_nodes.len(),
            im == image_nodes@.map_values(|c: &Node| node_view(*c)),
            im.len() == image_nodes@.len(),
            parse_images(im) == after_images(
                imss,
                parse_images(im.subrange(i as int, im.len() as int)),
            ),
            ims@.len() == imss.len(),
            forall|j: int| 0 <= j < imss.len() ==> image_is(#[trigger] ims@[j], imss[j]),
        decreases image_nodes.len() - i,
    {
        let ghost rest = im.subrange(i as int, im.len() as int);
        assert(rest[0] == node_view(*image_nodes@[i as int]));
        assert(rest.drop_first() =~= im.subrange(i + 1, im.len() as int));
        match parse_image(image_nodes[i]) {
            Err(e) => {
                return Some(Err(e));
            },
            Ok(c) => {
                let ghost spec_i = spec_parse_image(rest[0])->Ok_0;
                proof {
                    match parse_images(im.subrange(i + 1, im.len() as int)) {
                        Ok(more) => {
                            assert(imss + (seq![spec_i] + more) =~= imss.push(spec_i) + more);
                        },
                        Err(e) => {},
                    }
                    imss = imss.push(spec_i);
                }
                ims.push(c);
            },
        }
        i = i + 1;
    }
    assert(im.subrange(im.len() as int, im.len() as int).len() == 0);
    assert(imss + seq![] =~= imss);
    if cs.len() == 0 || ims.len() == 0 {
        return Some(Err(msg3("terrain rule ", id, " is empty")));
    }
    let ghost nv = strings_view(names@);
    let ghost want = tv.map_values(
        |t: int| expand_rule(id@, probability as int, css, imss, nv, t),
    );
    if !rotations_fit_exec(&cs, &turns, Ghost(css)) {
        return None;
    }
    let mut out: Vec<TerrainRule> = Vec::new();
    let mut k: usize = 0;
    while k < turns.len()
        invariant
            k <= turns.len(),
            names@.len() == 6,
            nv == strings_view(names@),
            tv == turns@.map_values(|t: u8| t as int),
            forall|x: int| 0 <= x < tv.len() ==> #[trigger] tv[x] <= 5,
            rotations_fit(css, tv),
            cs@.len() == css.len(),
            forall|j: int| 0 <= j < css.len() ==> constraint_is(#[trigger] cs@[j], css[j]),
            ims@.len() == imss.len(),
            forall|j: int| 0 <= j < imss.len() ==> image_is(#[trigger] ims@[j], imss[j]),
            want == tv.map_values(|t: int| expand_rule(id@, probability as int, css, imss, nv, t)),
            out@.len() == k,
            forall|x: int| 0 <= x < k ==> rule_is(#[trigger] out@[x], want[x]),
        decreases turns.len() - k,
    {
        let t = turns[k];
        assert(tv[k as int] == t as int);
        assert forall|j: int| 0 <= j < css.len() implies rotation_fits(
            #[trigger] css[j].offset,
            t as nat,
        ) by {
            assert(rotation_fits(css[j].offset, tv[k as int] as nat));
        }
        let rule = expand(id, probability, &cs, &ims, &names, t, Ghost(css), Ghost(imss));
        out.push(rule);
        k = k + 1;
    }
    Some(Ok(out))
}

/// Reads the rules of a compact WML rule file, in the order written; a
/// rotatable rule becomes one rule per selected turn, each with its offsets
/// turned and its `@R0`..`@R5` placeholders named; `None` where a turned
/// offset would leave `i32`, which the arithmetic of the rules cannot hold.
pub fn load_rules_checked(source: &str) -> (r: Option<Result<Vec<TerrainRule>, String>>)
    ensures
        match r {
            None => spec_load_rules(source@) is Overflow,
            Some(Ok(v)) => spec_load_rules(source@) matches LoadOutcome::Rules(rs) && rules_are(
                v@,
                rs,
            ),
            Some(Err(m)) => spec_load_rules(source@) == LoadOutcome::Error(m@),
        },
{
    let nodes = match parse(source) {
        Ok(n) => n,
        Err(e) => {
            return Some(Err(e));
        },
    };
    let ghost nv = nodes_view(nodes@);
    let mut rules: Vec<TerrainRule> = Vec::new();
    let ghost mut done: Seq<RuleSpec> = seq![];
    let mut i: usize = 0;
    assert(nv.subrange(0, nv.len() as int) =~= nv);
    while i < nodes.len()
        invariant
            i <= nodes.len(),
            nv == nodes_view(nodes@),
            nv.len() == nodes@.len(),
            spec_load_rules(source@) == load_nodes(nv),
            load_nodes(nv) == after(done, load_nodes(nv.subrange(i as int, nv.len() as int))),
            rules_are(rules@, done),
        decreases nodes.len() - i,
    {
        let ghost rest = nv.subrange(i as int, nv.len() as int);
        assert(rest[0] == node_view(nodes@[i as int]));
        assert(rest.drop_first() =~= nv.subrange(i + 1, nv.len() as int));
        match load_node(&nodes[i]) {
            None => {
                assert(load_nodes(rest) is Overflow);
                return None;
            },
            Some(Err(e)) => {
                return Some(Err(e));
            },
            Some(Ok(more)) => {
                let ghost rs = spec_load_node(rest[0])->Rules_0;
                proof {
                    match load_nodes(nv.subrange(i + 1, nv.len() as int)) {
                        LoadOutcome::Rules(tail) => {
                            assert(done + (rs + tail) =~= (done + rs) + tail);
                        },
                        _ => {},
                    }
                }
                let ghost before = rules@;
                let mut more = more;
                rules.append(&mut more);
                proof {
                    assert(rules_are(rules@, done + rs)) by {
                        assert forall|j: int| 0 <= j < (done + rs).len() implies rule_is(
                            #[trigger] rules@[j],
                            (done + rs)[j],
                        ) by {
                            if j < done.len() {
                                assert(rules@[j] == before[j]);
                            }
                        }
                    }
                    done = done + rs;
                }
            },
        }
        i = i + 1;
    }
    assert(nv.subrange(nv.len() as int, nv.len() as int).len() == 0);
    assert(done + seq![] =~= done);
    Some(Ok(rules))
}

/// Reads the rules of a compact WML rule file as `load_rules_checked` does,
/// for a file whose offsets can be turned inside `i32`.
pub fn load_rules(source: &str) -> (r: Result<Vec<TerrainRule>, String>)
    requires
        !(spec_load_rules(source@) is Overflow),
    ensures
        match r {
            Ok(v) => spec_load_rules(source@) matches LoadOutcome::Rules(rs) && rules_are(v@, rs),
            Err(m) => spec_load_rules(source@) == LoadOutcome::Error(m@),
        },
{
    match load_rules_checked(source) {
        Some(r) => r,
        None => Err(String::from_str("terrain rule offsets overflow")),
    }
}

/// Three sixths of a turn reverse an offset, and six bring it back.
pub proof fn lemma_rotation_cycle(o: (int, int))
    ensures
        spec_rotate(o, 3) == (-o.0, -o.1),
        spec_rotate(o, 6) == o,
{
    reveal_with_fuel(spec_rotate, 7);
}

// ---------------------------------------------------------------------------
// Applying rules to a map
// ---------------------------------------------------------------------------
/// The mathematical form of a placed image.
pub struct PlacedSpec {
    pub anchor: Position,
    pub path: Seq<char>,
    pub layer: int,
    pub base: (int, int),
    pub center: Option<(int, int)>,
}

/// The mathematical form of an optional point.
pub open spec fn center_view(c: Option<(i16, i16)>) -> Option<(int, int)> {
    match c {
        Some(p) => Some(pair_view(p)),
        None => None,
    }
}

pub open spec fn placed_view(p: PlacedImage) -> PlacedSpec {
    PlacedSpec {
        anchor: p.anchor,
        path: p.path@,
        layer: p.layer as int,
        base: pair_view(p.base),
        center: center_view(p.center),
    }
}

/// The terrain code at `p`, or `None` where the map has none.
pub open spec fn raw_code(m: WorldMap, p: Position) -> Option<Seq<char>> {
    match spec_raw(m, p) {
        Ok(code) => Some(code),
        Err(_) => None,
    }
}

/// A flag on a hex: its column, its row and its name.
pub open spec fn flag_view(f: (i64, i64, String)) -> (int, int, Seq<char>) {
    (f.0 as int, f.1 as int, f.2@)
}

/// The flags that the list `v` holds.
pub open spec fn flags_view(v: Seq<(i64, i64, String)>) -> Seq<(int, int, Seq<char>)> {
    v.map_values(|f: (i64, i64, String)| flag_view(f))
}

/// Whether a flag that a constraint forbids is already set on the hex `p`.
pub open spec fn forbidden(flags: Seq<(int, int, Seq<char>)>, p: Position, c: Constraint) -> bool {
    exists|k: int|
        0 <= k < c.forbid_flags.len() && flags.contains(
            (p.x as int, p.y as int, #[trigger] c.forbid_flags@[k]@),
        )
}

/// Whether a constraint holds for the anchor: the terrain of its hex is
/// accepted and none of its forbidden flags is set there.
pub open spec fn constraint_holds(
    m: WorldMap,
    flags: Seq<(int, int, Seq<char>)>,
    anchor: Position,
    c: Constraint,
) -> bool {
    let p = spec_offset(anchor, c.offset);
    spec_accepts(c.terrain, raw_code(m, p)) && !forbidden(flags, p, c)
}

/// Whether every constraint of the rule holds for the anchor.
pub open spec fn rule_holds(
    m: WorldMap,
    flags: Seq<(int, int, Seq<char>)>,
    anchor: Position,
    rule: TerrainRule,
) -> bool {
    forall|i: int|
        0 <= i < rule.constraints.len() ==> constraint_holds(
            m,
            flags,
            anchor,
            #[trigger] rule.constraints@[i],
        )
}

/// The flags that a constraint sets, on its hex.
pub open spec fn flags_of(anchor: Position, c: Constraint) -> Seq<(int, int, Seq<char>)> {
    let p = spec_offset(anchor, c.offset);
    c.set_flags@.map_values(|f: String| (p.x as int, p.y as int, f@))
}

/// The flags that a matching rule sets, constraint by constraint.
pub open spec fn flags_set(anchor: Position, rule: TerrainRule) -> Seq<(int, int, Seq<char>)> {
    rule.constraints@.map_values(|c: Constraint| flags_of(anchor, c)).flatten()
}

/// A rule image placed at an anchor.
pub open spec fn placed_at(anchor: Position, i: RuleImage) -> PlacedSpec {
    PlacedSpec {
        anchor,
        path: i.path@,
        layer: i.layer as int,
        base: pair_view(i.base),
        center: center_view(i.center),
    }
}

/// The images of a rule placed at an anchor.
pub open spec fn images_at(anchor: Position, rule: TerrainRule) -> Seq<PlacedSpec> {
    rule.images@.map_values(|i: RuleImage| placed_at(anchor, i))
}

/// The flags set so far and the images placed so far.
pub type ComposeState = (Seq<(int, int, Seq<char>)>, Seq<PlacedSpec>);

/// Rule `ri` tried at one anchor: where it holds and its roll succeeds, its
/// flags are set and its images placed.
pub open spec fn visit(
    m: WorldMap,
    rules: Seq<TerrainRule>,
    seed: u64,
    ri: int,
    anchor: Position,
    st: ComposeState,
) -> ComposeState {
    let rule = rules[ri];
    if rule_holds(m, st.0, anchor, rule) && spec_roll(seed, ri as usize, anchor, rule.probability) {
        (st.0 + flags_set(anchor, rule), st.1 + images_at(anchor, rule))
    } else {
        st
    }
}

/// Rule `ri` tried at the anchors `1..=n` of row `y`, left to right.
pub open spec fn visit_row(
    m: WorldMap,
    rules: Seq<TerrainRule>,
    seed: u64,
    ri: int,
    y: int,
    n: nat,
    st: ComposeState,
) -> ComposeState
    decreases n,
{
    if n == 0 {
        st
    } else {
        visit(
            m,
            rules,
            seed,
            ri,
            Position { x: n as i64, y: y as i64 },
            visit_row(m, rules, seed, ri, y, (n - 1) as nat, st),
        )
    }
}

/// Rule `ri` tried at every anchor of rows `1..=n`, top to bottom.
pub open spec fn visit_rows(
    m: WorldMap,
    rules: Seq<TerrainRule>,
    seed: u64,
    ri: int,
    n: nat,
    st: ComposeState,
) -> ComposeState
    decreases n,
{
    if n == 0 {
        st
    } else {
        visit_row(
            m,
            rules,
            seed,
            ri,
            n as int,
            m.width as nat,
            visit_rows(m, rules, seed, ri, (n - 1) as nat, st),
        )
    }
}

/// The first `n` rules applied in order over the whole map.
pub open spec fn visit_rules(m: WorldMap, rules: Seq<TerrainRule>, seed: u64, n: nat) -> ComposeState
    decreases n,
{
    if n == 0 {
        (Seq::empty(), Seq::empty())
    } else {
        visit_rows(
            m,
            rules,
            seed,
            (n - 1) as int,
            m.height as nat,
            visit_rules(m, rules, seed, (n - 1) as nat),
        )
    }
}

/// The drawing order of placed images: layer, row, base row, column.
pub open spec fn compose_key(p: PlacedSpec) -> (i128, i128, i128, i128) {
    (p.layer as i128, p.anchor.y as i128, p.base.1 as i128, p.anchor.x as i128)
}

/// The images that the rules place on the map, in drawing order.
pub open spec fn spec_compose(m: WorldMap, rules: Seq<TerrainRule>, seed: u64) -> Seq<PlacedSpec> {
    sorted_by_key(
        visit_rules(m, rules, seed, rules.len()).1.map_values(
            |p: PlacedSpec| (compose_key(p), p),
        ),
    ).map_values(|kp: ((i128, i128, i128, i128), PlacedSpec)| kp.1)
}

/// Every anchor of the map and every offset from it stays inside `i64`,
/// which the placement arithmetic works in.
pub open spec fn compose_fits(m: WorldMap) -> bool {
    m.width <= 0x1000_0000_0000_0000 && m.height <= 0x1000_0000_0000_0000
}

fn flag_present(flags: &Vec<(i64, i64, String)>, x: i64, y: i64, name: &String) -> (r: bool)
    ensures
        r == flags_view(flags@).contains((x as int, y as int, name@)),
{
    let mut i: usize = 0;
    while i < flags.len()
        invariant
            i <= flags.len(),
            forall|j: int| 0 <= j < i ==> flags_view(flags@)[j] != (x as int, y as int, name@),
        decreases flags.len() - i,
    {
        if flags[i].0 == x && flags[i].1 == y && str_eq(flags[i].2.as_str(), name.as_str()) {
            assert(flags_view(flags@)[i as int] == (x as int, y as int, name@));
            return true;
        }
        i = i + 1;
    }
    false
}

fn constraint_holds_exec(
    map: &WorldMap,
    flags: &Vec<(i64, i64, String)>,
    anchor: Position,
    c: &Constraint,
) -> (r: bool)
    requires
        offset_fits(anchor, c.offset),
    ensures
        r == constraint_holds(*map, flags_view(flags@), anchor, *c),
{
    let p = offset(anchor, c.offset);
    let terrain = match map.raw(p) {
        Ok(code) => Some(code),
        Err(_) => None,
    };
    if !c.terrain.accepts(terrain) {
        return false;
    }
    let mut k: usize = 0;
    while k < c.forbid_flags.len()
        invariant
            k <= c.forbid_flags.len(),
            p == spec_offset(anchor, c.offset),
            forall|j: int|
                0 <= j < k ==> !flags_view(flags@).contains(
                    (p.x as int, p.y as int, #[trigger] c.forbid_flags@[j]@),
                ),
        decreases c.forbid_flags.len() - k,
    {
        if flag_present(flags, p.x, p.y, &c.forbid_flags[k]) {
            return false;
        }
        k = k + 1;
    }
    true
}

fn rule_holds_exec(
    map: &WorldMap,
    flags: &Vec<(i64, i64, String)>,
    anchor: Position,
    rule: &TerrainRule,
) -> (r: bool)
    requires
        forall|i: int|
            0 <= i < rule.constraints.len() ==> offset_fits(anchor, #[trigger] rule.constraints@[i].offset),
    ensures
        r == rule_holds(*map, flags_view(flags@), anchor, *rule),
{
    let mut i: usize = 0;
    while i < rule.constraints.len()
        invariant
            i <= rule.constraints.len(),
            forall|j: int|
                0 <= j < rule.constraints.len() ==> offset_fits(anchor, #[trigger] rule.constraints@[j].offset),
            forall|j: int|
                0 <= j < i ==> constraint_holds(
                    *map,
                    flags_view(flags@),
                    anchor,
                    #[trigger] rule.constraints@[j],
                ),
        decreases rule.constraints.len() - i,
    {
        if !constraint_holds_exec(map, flags, anchor, &rule.constraints[i]) {
            return false;
        }
        i = i + 1;
    }
    true
}

fn set_rule_flags(flags: &mut Vec<(i64, i64, String)>, anchor: Position, rule: &TerrainRule)
    requires
        forall|i: int|
            0 <= i < rule.constraints.len() ==> offset_fits(anchor, #[trigger] rule.constraints@[i].offset),
    ensures
        flags_view(final(flags)@) == flags_view(old(flags)@) + flags_set(anchor, *rule),
{
    let ghost start = flags_view(flags@);
    let ghost cs = rule.constraints@;
    let ghost g = |c: Constraint| flags_of(anchor, c);
    let mut i: usize = 0;
    while i < rule.constraints.len()
        invariant
            i <= rule.constraints.len(),
            cs == rule.constraints@,
            g == (|c: Constraint| flags_of(anchor, c)),
            forall|j: int| 0 <= j < cs.len() ==> offset_fits(anchor, #[trigger] cs[j].offset),
            flags_view(flags@) == start + cs.take(i as int).map_values(g).flatten(),
        decreases rule.constraints.len() - i,
    {
        let c = &rule.constraints[i];
        let p = offset(anchor, c.offset);
        let ghost before = flags_view(flags@);
        let mut k: usize = 0;
        while k < c.set_flags.len()
            invariant
                k <= c.set_flags.len(),
                p == spec_offset(anchor, c.offset),
                flags_view(flags@) == before + flags_of(anchor, *c).take(k as int),
            decreases c.set_flags.len() - k,
        {
            let ghost prev = flags@;
            let item = (p.x, p.y, c.set_flags[k].clone());
            flags.push(item);
            proof {
                assert(flags_view(flags@) =~= flags_view(prev).push(flag_view(item)));
                assert(flags_of(anchor, *c).take(k + 1) =~= flags_of(anchor, *c).take(k as int).push(
                    (p.x as int, p.y as int, c.set_flags@[k as int]@),
                ));
                assert(flags_view(flags@) =~= before + flags_of(anchor, *c).take(k + 1));
            }
            k = k + 1;
        }
        proof {
            assert(flags_of(anchor, *c).take(k as int) =~= flags_of(anchor, *c));
            assert(cs.take(i + 1).map_values(g) =~= cs.take(i as int).map_values(g).push(g(*c)));
            cs.take(i as int).map_values(g).lemma_flatten_push(g(*c));
            assert(flags_view(flags@) =~= start + cs.take(i + 1).map_values(g).flatten());
        }
        i = i + 1;
    }
    proof {
        assert(cs.take(i as int) =~= cs);
    }
}

/// The images of the list, keys dropped.
pub open spec fn keyed_images(v: Seq<((i128, i128, i128, i128), PlacedImage)>) -> Seq<PlacedSpec> {
    v.map_values(|kp: ((i128, i128, i128, i128), PlacedImage)| placed_view(kp.1))
}

/// Every image of the list carries its own drawing key.
pub open spec fn keys_match(v: Seq<((i128, i128, i128, i128), PlacedImage)>) -> bool {
    forall|i: int| 0 <= i < v.len() ==> (#[trigger] v[i]).0 == compose_key(placed_view(v[i].1))
}

fn place_images(
    images: &mut Vec<((i128, i128, i128, i128), PlacedImage)>,
    anchor: Position,
    rule: &TerrainRule,
)
    requires
        keys_match(old(images)@),
    ensures
        keys_match(final(images)@),
        keyed_images(final(images)@) == keyed_images(old(images)@) + images_at(anchor, *rule),
{
    let ghost start = keyed_images(images@);
    let mut j: usize = 0;
    while j < rule.images.len()
        invariant
            j <= rule.images.len(),
            keys_match(images@),
            keyed_images(images@) == start + images_at(anchor, *rule).take(j as int),
        decreases rule.images.len() - j,
    {
        let i = &rule.images[j];
        let placed = PlacedImage {
            anchor,
            path: i.path.clone(),
            layer: i.layer,
            base: i.base,
            center: i.center,
        };
        let key = (i.layer as i128, anchor.y as i128, i.base.1 as i128, anchor.x as i128);
        assert(placed_view(placed) == placed_at(anchor, *i));
        let ghost prev = images@;
        images.push((key, placed));
        proof {
            assert(keyed_images(images@) =~= keyed_images(prev).push(placed_view(placed)));
            assert(images_at(anchor, *rule).take(j + 1) =~= images_at(anchor, *rule).take(
                j as int,
            ).push(placed_at(anchor, *i)));
            assert(keyed_images(images@) =~= start + images_at(anchor, *rule).take(j + 1));
        }
        j = j + 1;
    }
    proof {
        assert(images_at(anchor, *rule).take(j as int) =~= images_at(anchor, *rule));
    }
}

/// Applies the rules in the order they were written. Each rule tries every
/// hex of the map as its anchor, row by row; where all its constraints hold
/// and its roll succeeds, it sets its flags and places its images, so an
/// earlier rule can claim an edge before a later, more general one. The
/// images come out in drawing order: layer, row, base row, column, equal
/// keys in the order they were placed. `seed` makes the rolls repeatable.
pub fn compose(map: &WorldMap, rules: &[TerrainRule], seed: u64) -> (r: Vec<PlacedImage>)
    requires
        compose_fits(*map),
    ensures
        r@.map_values(|p: PlacedImage| placed_view(p)) == spec_compose(*map, rules@, seed),
{
    let mut flags: Vec<(i64, i64, String)> = Vec::new();
    let mut images: Vec<((i128, i128, i128, i128), PlacedImage)> = Vec::new();
    let width = map.width as i64;
    let height = map.height as i64;
    let mut ri: usize = 0;
    while ri < rules.len()
        invariant
            ri <= rules.len(),
            compose_fits(*map),
            width == map.width,
            height == map.height,
            keys_match(images@),
            (flags_view(flags@), keyed_images(images@)) == visit_rules(
                *map,
                rules@,
                seed,
                ri as nat,
            ),
        decreases rules.len() - ri,
    {
        let rule = &rules[ri];
        let ghost rules_start = (flags_view(flags@), keyed_images(images@));
        let mut y: i64 = 1;
        while y <= height
            invariant
                1 <= y <= height + 1,
                ri < rules.len(),
                rule == rules@[ri as int],
                compose_fits(*map),
                width == map.width,
                height == map.height,
                keys_match(images@),
                (flags_view(flags@), keyed_images(images@)) == visit_rows(
                    *map,
                    rules@,
                    seed,
                    ri as int,
                    (y - 1) as nat,
                    rules_start,
                ),
            decreases height + 1 - y,
        {
            let ghost row_start = (flags_view(flags@), keyed_images(images@));
            let mut x: i64 = 1;
            while x <= width
                invariant
                    1 <= x <= width + 1,
                    1 <= y <= height,
                    ri < rules.len(),
                    rule == rules@[ri as int],
                    compose_fits(*map),
                    width == map.width,
                    height == map.height,
                    keys_match(images@),
                    (flags_view(flags@), keyed_images(images@)) == visit_row(
                        *map,
                        rules@,
                        seed,
                        ri as int,
                        y as int,
                        (x - 1) as nat,
                        row_start,
                    ),
                decreases width + 1 - x,
            {
                let anchor = Position { x, y };
                assert forall|i: int| 0 <= i < rule.constraints.len() implies offset_fits(
                    anchor,
                    #[trigger] rule.constraints@[i].offset,
                ) by {}
                if rule_holds_exec(map, &flags, anchor, rule) && roll(
                    seed,
                    ri,
                    anchor,
                    rule.probability,
                ) {
                    set_rule_flags(&mut flags, anchor, rule);
                    place_images(&mut images, anchor, rule);
                }
                x = x + 1;
            }
            y = y + 1;
        }
        ri = ri + 1;
    }
    proof {
        assert(rules@.len() == rules.len());
    }
    let ghost placed = keyed_images(images@);
    let ghost keyed = images@;
    let sorted = sort_by_key(images);
    let r = items_of(sorted);
    proof {
        let g = |p: PlacedImage| placed_view(p);
        let h = |kp: ((i128, i128, i128, i128), PlacedImage)| (kp.0, g(kp.1));
        lemma_sorted_map_items(keyed, g);
        assert(keyed.map_values(h) =~= placed.map_values(|p: PlacedSpec| (compose_key(p), p)));
        assert(r@.map_values(g) =~= sorted_by_key(keyed).map_values(h).map_values(
            |kp: ((i128, i128, i128, i128), PlacedSpec)| kp.1,
        ));
    }
    r
}

/// The images that `compose` returns come in drawing order (layer, row,
/// base row, column), and they are as many as the rules placed.
pub proof fn lemma_compose_in_drawing_order(m: WorldMap, rules: Seq<TerrainRule>, seed: u64)
    ensures
        spec_compose(m, rules, seed).len() == visit_rules(m, rules, seed, rules.len()).1.len(),
        forall|i: int, j: int|
            0 <= i < j < spec_compose(m, rules, seed).len() ==> key_le(
                compose_key(#[trigger] spec_compose(m, rules, seed)[i]),
                compose_key(#[trigger] spec_compose(m, rules, seed)[j]),
            ),
{
    let placed = visit_rules(m, rules, seed, rules.len()).1;
    let keyed = placed.map_values(|p: PlacedSpec| (compose_key(p), p));
    let key = |p: PlacedSpec| compose_key(p);
    lemma_sorted_items_in_order(keyed, key);
    let sorted = sorted_by_key(keyed);
    let r = spec_compose(m, rules, seed);
    assert(r =~= sorted.map_values(|kp: ((i128, i128, i128, i128), PlacedSpec)| kp.1));
    assert forall|i: int, j: int| 0 <= i < j < r.len() implies key_le(
        compose_key(#[trigger] r[i]),
        compose_key(#[trigger] r[j]),
    ) by {
        assert(r[i] == sorted[i].1);
        assert(r[j] == sorted[j].1);
    }
}
} // verus!
