//! Turning the terrain code of a map cell into independent visual layers.
//!
//! A scenario keeps one code per hex, for example `Ww^Bw|`: `Ww` is the
//! shallow-water base and `Bw|` the overlay of a vertical wooden bridge.
//! Game logic sees the cell through `gameplay_type`; drawing picks stable
//! image identifiers for the base, the overlay and the transitions. No image
//! is loaded here: an image name is a key that the client resolves.
use vstd::prelude::*;
use crate::hex::{abs, lemma_neighbors_adjacent, spec_distance, spec_neighbors, steppable, Position};
use crate::text::{
    chars_eq, chars_of, ends_with, ends_with_str, eq_str, find_from, is_whitespace, is_ws, lacks,
    lemma_find_from_none, lemma_split_once_at,
    lemma_find_from_range, lemma_trim_end_step, parse_unsigned, parse_unsigned_chars,
    slice_chars, split_once, starts_with, starts_with_str, trim_end,
};

verus! {

/// How the renderer should treat an image.
#[derive(Clone, Copy, Debug, PartialEq, Eq, Structural)]
pub enum VisualKind {
    /// The solid ground of a hex: grass, water, dirt and the like.
    Base,
    /// An object on top of the ground: forest, village, bridge, decoration.
    Overlay,
    /// A one-sided water edge towards direction 0..5.
    Edge(usize),
    /// A transition of one surface into another towards direction 0..5.
    Transition(usize),
    /// Several neighbouring transitions gathered into one image (a bit mask).
    TransitionRun(u8),
    CastleConvex(usize),
    CastleConcave(usize),
    KeepConvex(usize),
    KeepConcave(usize),
    /// The end of a bridge; directions are N, NE, SE, S, SW, NW.
    BridgeEnd(usize),
    MountainRange,
}

/// One image placed on the map.
#[derive(Clone, Copy, Debug, PartialEq, Eq)]
pub struct VisualTile {
    /// The anchor hex; a large image may reach well beyond it.
    pub position: Position,
    /// The image key, not a file path.
    pub image: &'static str,
    /// Which family of directional images the renderer should use.
    pub kind: VisualKind,
    /// Global drawing order: lower layers are drawn first.
    pub layer: i16,
}

// ---------------------------------------------------------------------------
// Terrain codes
// ---------------------------------------------------------------------------
/// Where the word that ends at `i` starts in `t`.
pub open spec fn word_start(t: Seq<char>, i: int) -> int
    decreases i,
{
    if i <= 0 {
        0
    } else if is_ws(t[i - 1]) {
        i
    } else {
        word_start(t, i - 1)
    }
}

/// The last whitespace-separated word of `code`, or `code` itself when it
/// holds no word (`split_whitespace().last().unwrap_or(code)`).
pub open spec fn last_word(code: Seq<char>) -> Seq<char> {
    let t = trim_end(code);
    if t.len() == 0 {
        code
    } else {
        t.subrange(word_start(t, t.len() as int), t.len() as int)
    }
}

/// The base and overlay parts of a terrain code: the last word, cut at the
/// first `^`; a code without `^` has an empty overlay.
pub open spec fn spec_visual_codes(code: Seq<char>) -> (Seq<char>, Seq<char>) {
    let w = last_word(code);
    match split_once(w, '^') {
        Some(parts) => parts,
        None => (w, Seq::empty()),
    }
}

proof fn lemma_trim_end_prefix(s: Seq<char>)
    ensures
        exists|e: int| 0 <= e <= s.len() && trim_end(s) == s.subrange(0, e),
    decreases s.len(),
{
    if s.len() > 0 && is_ws(s.last()) {
        lemma_trim_end_prefix(s.drop_last());
        let e = choose|e: int|
            0 <= e <= s.drop_last().len() && trim_end(s.drop_last()) == s.drop_last().subrange(0, e);
        assert(s.drop_last().subrange(0, e) =~= s.subrange(0, e));
    } else {
        assert(s.subrange(0, s.len() as int) =~= s);
    }
}

/// Splits a terrain code into its base and overlay codes.
pub fn visual_codes(code: &str) -> (parts: (&str, &str))
    ensures
        (parts.0@, parts.1@) == spec_visual_codes(code@),
{
    let v = chars_of(code);
    let n = v.len();
    let mut e: usize = n;
    assert(v@.subrange(0, n as int) =~= v@);
    while e > 0 && is_whitespace(v[e - 1])
        invariant
            e <= n == v.len(),
            trim_end(v@) == trim_end(v@.subrange(0, e as int)),
        decreases e,
    {
        proof {
            lemma_trim_end_step(v@, e as int);
            assert(v@.subrange(0, e as int).subrange(0, e - 1) =~= v@.subrange(0, e - 1));
        }
        e = e - 1;
    }
    let ghost t = v@.subrange(0, e as int);
    assert(trim_end(t) == t) by {
        if t.len() > 0 {
            assert(t.last() == v@[e - 1]);
        }
    }
    let word: &str = if e == 0 {
        code
    } else {
        let mut s: usize = e;
        while s > 0 && !is_whitespace(v[s - 1])
            invariant
                s <= e <= n == v.len(),
                t == v@.subrange(0, e as int),
                word_start(t, e as int) == word_start(t, s as int),
            decreases s,
        {
            assert(t[s - 1] == v@[s - 1]);
            s = s - 1;
        }
        proof {
            if s > 0 {
                assert(t[s - 1] == v@[s - 1]);
            }
            assert(t.subrange(s as int, e as int) =~= v@.subrange(s as int, e as int));
        }
        code.substring_char(s, e)
    };
    assert(word@ == last_word(code@));
    let w = chars_of(word);
    match crate::text::find_char(&w, '^') {
        Some(k) => {
            proof {
                lemma_find_from_range(w@, '^', 0);
            }
            let parts = (word.substring_char(0, k), word.substring_char(k + 1, w.len()));
            assert(split_once(word@, '^') == Some((parts.0@, parts.1@)));
            parts
        },
        None => {
            proof {
                reveal_strlit("");
            }
            assert(""@ =~= Seq::<char>::empty());
            (word, "")
        },
    }
}


// ---------------------------------------------------------------------------
// Terrain families
// ---------------------------------------------------------------------------
pub open spec fn spec_is_water(base: Seq<char>) -> bool {
    starts_with(base, "W"@) || base == "Ss"@
}

pub open spec fn spec_is_castle(base: Seq<char>) -> bool {
    starts_with(base, "C"@) || starts_with(base, "K"@) || base == "castle"@ || base == "keep"@
}

pub open spec fn spec_is_keep(base: Seq<char>) -> bool {
    starts_with(base, "K"@) || base == "keep"@
}

/// A keep that rises above its castle: every keep but an encampment.
pub open spec fn spec_is_raised_keep(base: Seq<char>) -> bool {
    spec_is_keep(base) && !starts_with(base, "Ke"@)
}

/// Bases drawn by the terrain rules rather than directly.
pub open spec fn spec_rule_managed_base(base: Seq<char>) -> bool {
    base == "Gg"@ || base == "Wo"@ || base == "Ww"@ || base == "Wwf"@ || base == "Wwg"@
}

/// A single word: non-empty, without whitespace.
pub open spec fn plain_word(s: Seq<char>) -> bool {
    s.len() > 0 && forall|k: int| 0 <= k < s.len() ==> !is_ws(#[trigger] s[k])
}

proof fn lemma_word_start_zero(t: Seq<char>, i: int)
    requires
        0 <= i <= t.len(),
        forall|k: int| 0 <= k < t.len() ==> !is_ws(#[trigger] t[k]),
    ensures
        word_start(t, i) == 0,
    decreases i,
{
    if i > 0 {
        lemma_word_start_zero(t, i - 1);
    }
}

/// A single word is its own last word.
pub proof fn lemma_last_word_plain(code: Seq<char>)
    requires
        plain_word(code),
    ensures
        last_word(code) == code,
{
    assert(!is_ws(code.last()));
    assert(trim_end(code) == code);
    lemma_word_start_zero(code, code.len() as int);
    assert(code.subrange(0, code.len() as int) =~= code);
}

/// Starting with a one-character text is starting with that character.
proof fn lemma_starts_with_char(s: Seq<char>, t: Seq<char>, c: char)
    requires
        t == seq![c],
    ensures
        starts_with(s, t) <==> (s.len() > 0 && s[0] == c),
{
    assert(t.len() == 1 && t[0] == c);
    if s.len() > 0 {
        assert(s.subrange(0, 1) =~= seq![s[0]]);
        if s[0] == c {
            assert(s.subrange(0, 1) =~= t);
        }
        if starts_with(s, t) {
            assert(s.subrange(0, 1)[0] == t[0]);
        }
    }
}

/// What game logic sees in a cell of a single-word code without an overlay:
/// water where the code starts with `W` or is `Ss`, hills where it starts
/// with `H` or `M`, a keep where it starts with `K`, a castle where it starts
/// with `C`.
pub proof fn lemma_gameplay_of_plain_code(code: Seq<char>)
    requires
        plain_word(code),
        lacks(code, '^'),
    ensures
        code[0] == 'W' ==> spec_gameplay_type(code) == "water"@,
        code == "Ss"@ ==> spec_gameplay_type(code) == "water"@,
        (code[0] == 'H' || code[0] == 'M') ==> spec_gameplay_type(code) == "hills"@,
        code[0] == 'K' ==> spec_gameplay_type(code) == "keep"@,
        code[0] == 'C' ==> spec_gameplay_type(code) == "castle"@,
{
    lemma_last_word_plain(code);
    lemma_find_from_none(code, '^', 0);
    assert(spec_visual_codes(code) == (code, Seq::<char>::empty()));
    let e = Seq::<char>::empty();
    reveal_strlit("B");
    assert("B"@ =~= seq!['B']);
    reveal_strlit("V");
    assert("V"@ =~= seq!['V']);
    reveal_strlit("F");
    assert("F"@ =~= seq!['F']);
    reveal_strlit("K");
    assert("K"@ =~= seq!['K']);
    reveal_strlit("C");
    assert("C"@ =~= seq!['C']);
    reveal_strlit("W");
    assert("W"@ =~= seq!['W']);
    reveal_strlit("H");
    assert("H"@ =~= seq!['H']);
    reveal_strlit("M");
    assert("M"@ =~= seq!['M']);
    reveal_strlit("Ss");
    lemma_starts_with_char(e, "B"@, 'B');
    lemma_starts_with_char(e, "V"@, 'V');
    lemma_starts_with_char(e, "F"@, 'F');
    lemma_starts_with_char(code, "K"@, 'K');
    lemma_starts_with_char(code, "C"@, 'C');
    lemma_starts_with_char(code, "W"@, 'W');
    lemma_starts_with_char(code, "H"@, 'H');
    lemma_starts_with_char(code, "M"@, 'M');
    if code == "Ss"@ {
        assert(code[0] == 'S');
    }
}

/// What game logic sees in a cell of a single-word code with an overlay:
/// grassland under a bridge (`B`), a village (`V`) or a forest (`F`),
/// whatever the base.
pub proof fn lemma_gameplay_of_overlay(base: Seq<char>, overlay: Seq<char>)
    requires
        plain_word(base + seq!['^'] + overlay),
        lacks(base, '^'),
        overlay.len() > 0,
    ensures
        overlay[0] == 'B' ==> spec_gameplay_type(base + seq!['^'] + overlay) == "grassland"@,
        overlay[0] == 'V' ==> spec_gameplay_type(base + seq!['^'] + overlay) == "village"@,
        overlay[0] == 'F' ==> spec_gameplay_type(base + seq!['^'] + overlay) == "forest"@,
{
    let code = base + seq!['^'] + overlay;
    lemma_last_word_plain(code);
    lemma_split_once_at(base, overlay, '^');
    assert(spec_visual_codes(code) == (base, overlay));
    reveal_strlit("B");
    assert("B"@ =~= seq!['B']);
    reveal_strlit("V");
    assert("V"@ =~= seq!['V']);
    reveal_strlit("F");
    assert("F"@ =~= seq!['F']);
    lemma_starts_with_char(overlay, "B"@, 'B');
    lemma_starts_with_char(overlay, "V"@, 'V');
    lemma_starts_with_char(overlay, "F"@, 'F');
}

/// The gameplay terrain type of a map code.
pub open spec fn spec_gameplay_type(code: Seq<char>) -> Seq<char> {
    let base = spec_visual_codes(code).0;
    let overlay = spec_visual_codes(code).1;
    if starts_with(overlay, "B"@) {
        "grassland"@
    } else if starts_with(overlay, "V"@) {
        "village"@
    } else if starts_with(overlay, "F"@) {
        "forest"@
    } else if starts_with(base, "K"@) {
        "keep"@
    } else if starts_with(base, "C"@) {
        "castle"@
    } else if spec_is_water(base) {
        "water"@
    } else if starts_with(base, "H"@) || starts_with(base, "M"@) {
        "hills"@
    } else if code == "forest"@ {
        "forest"@
    } else if code == "hills"@ {
        "hills"@
    } else if code == "water"@ {
        "water"@
    } else if code == "castle"@ {
        "castle"@
    } else if code == "keep"@ {
        "keep"@
    } else if code == "village"@ {
        "village"@
    } else {
        "grassland"@
    }
}

/// Which side of a transition is drawn: the lower priority gives way.
pub open spec fn spec_transition_priority(base: Seq<char>) -> int {
    if base == "Ww"@ || base == "Wwf"@ || base == "Wwg"@ || base == "Ss"@ {
        0
    } else if base == "Wo"@ {
        1
    } else if base == "Ds"@ {
        10
    } else if base == "Gd"@ {
        20
    } else if base == "Gs"@ {
        21
    } else if base == "Gg"@ {
        22
    } else if base == "Gll"@ {
        23
    } else if base == "Re"@ {
        30
    } else if base == "Rp"@ {
        31
    } else if base == "Hh"@ {
        40
    } else {
        -1
    }
}

/// The transition image of a base, where it has one.
pub open spec fn spec_transition_image(base: Seq<char>) -> Option<Seq<char>> {
    if base == "Wo"@ {
        Some("transition-ocean"@)
    } else if base == "Ds"@ {
        Some("transition-beach"@)
    } else if base == "Gd"@ {
        Some("transition-grass-dry"@)
    } else if base == "Gs"@ {
        Some("transition-grass-semi-dry"@)
    } else if base == "Gg"@ {
        Some("transition-grass-green"@)
    } else if base == "Gll"@ {
        Some("transition-leaf-litter"@)
    } else if base == "Re"@ {
        Some("transition-dirt"@)
    } else if base == "Rp"@ {
        Some("transition-stone-path"@)
    } else if base == "Hh"@ {
        Some("transition-hills"@)
    } else if base == "Ss"@ {
        Some("transition-swamp"@)
    } else {
        None
    }
}

/// The ground image of a base; unknown bases fall back to green grass.
pub open spec fn spec_base_image(base: Seq<char>) -> Seq<char> {
    if base == "Gg"@ || base == "grassland"@ {
        "grass-green"@
    } else if base == "Gs"@ {
        "grass-semi-dry"@
    } else if base == "Gd"@ {
        "grass-dry"@
    } else if base == "Gll"@ {
        "leaf-litter"@
    } else if base == "Re"@ {
        "dirt"@
    } else if base == "Rp"@ {
        "stone-path"@
    } else if base == "Ds"@ {
        "beach"@
    } else if base == "Hh"@ || base == "hills"@ {
        "hills-regular"@
    } else if base == "Hd"@ {
        "hills-dry"@
    } else if base == "Mm"@ {
        "mountains-single-1"@
    } else if base == "Ss"@ {
        "swamp"@
    } else if base == "Sm"@ {
        "swamp-mud"@
    } else if base == "Wo"@ {
        "ocean"@
    } else if base == "Wwr"@ || base == "Wwrg"@ {
        "reef-gray"@
    } else if starts_with(base, "W"@) {
        "water"@
    } else if base == "Ce"@ || base == "Ke"@ {
        "dirt"@
    } else if base == "Chr"@ {
        "stone-path"@
    } else if base == "Chw"@ {
        "sunken-cobbles"@
    } else if base == "Khr"@ {
        "keep-cobbles"@
    } else if base == "Cme"@ {
        "aquatic-camp-floor"@
    } else if base == "Cud"@ {
        "dwarven-castle-floor"@
    } else if base == "Kud"@ {
        "dwarven-keep-floor"@
    } else if base == "Cvr"@ {
        "elven-ruin-ground"@
    } else if base == "Kvr"@ {
        "elven-ruin-keep"@
    } else if starts_with(base, "K"@) {
        "keep-ground"@
    } else if starts_with(base, "C"@) {
        "castle-ground"@
    } else if base == "Rd"@ {
        "road-desert"@
    } else if base == "Rr"@ {
        "road-cobbles"@
    } else if base == "Iwo"@ {
        "interior-wood-ruined"@
    } else if base == "Uu"@ {
        "cave-floor"@
    } else if base == "Ql"@ {
        "lava"@
    } else if base == "Xu"@ {
        "cave-wall"@
    } else if base == "Xoa"@ {
        "ancient-wall"@
    } else if base == "Xos"@ {
        "stone-wall"@
    } else if base == "castle"@ {
        "castle-ground"@
    } else if base == "keep"@ {
        "keep-ground"@
    } else {
        "grass-green"@
    }
}

/// The family of castle-wall images for a castle or keep base.
pub open spec fn spec_castle_wall_family(base: Seq<char>) -> Seq<char> {
    if base == "Ce"@ || base == "Ke"@ {
        "encampment"@
    } else if base == "Chr"@ || base == "Khr"@ {
        "ruin"@
    } else if base == "Chw"@ {
        "sunken-ruin"@
    } else {
        "castle"@
    }
}

/// The two directions a straight bridge overlay connects.
pub open spec fn spec_bridge_axis(overlay: Seq<char>) -> (int, int) {
    if ends_with(overlay, "|"@) {
        (0, 3)
    } else if ends_with(overlay, "/"@) {
        (1, 4)
    } else {
        (2, 5)
    }
}

/// The straight image of a bridge overlay.
pub open spec fn spec_bridge_image(overlay: Seq<char>) -> Seq<char> {
    if starts_with(overlay, "Bsb"@) {
        if ends_with(overlay, "|"@) {
            "stone-bridge-n-s"@
        } else if ends_with(overlay, "/"@) {
            "stone-bridge-ne-sw"@
        } else {
            "stone-bridge-se-nw"@
        }
    } else if ends_with(overlay, "|"@) {
        "wood-bridge-n-s"@
    } else if ends_with(overlay, "/"@) {
        "wood-bridge-ne-sw"@
    } else {
        "wood-bridge-se-nw"@
    }
}

pub open spec fn spec_overlay_layer(overlay: Seq<char>) -> int {
    if starts_with(overlay, "B"@) {
        -10
    } else if starts_with(overlay, "F"@) {
        10
    } else {
        0
    }
}

/// Whether `base` is water.
pub fn is_water(base: &str) -> (r: bool)
    ensures
        r == spec_is_water(base@),
{
    let v = chars_of(base);
    starts_with_str(&v, "W") || eq_str(&v, "Ss")
}

/// Whether `base` is a castle or keep.
pub fn is_castle(base: &str) -> (r: bool)
    ensures
        r == spec_is_castle(base@),
{
    let v = chars_of(base);
    starts_with_str(&v, "C") || starts_with_str(&v, "K") || eq_str(&v, "castle") || eq_str(
        &v,
        "keep",
    )
}

/// Whether `base` is a keep.
pub fn is_keep(base: &str) -> (r: bool)
    ensures
        r == spec_is_keep(base@),
{
    let v = chars_of(base);
    starts_with_str(&v, "K") || eq_str(&v, "keep")
}

/// Whether `base` is a keep that rises above its castle.
pub fn is_raised_keep(base: &str) -> (r: bool)
    ensures
        r == spec_is_raised_keep(base@),
{
    let v = chars_of(base);
    is_keep(base) && !starts_with_str(&v, "Ke")
}

/// Whether the terrain rules, not the direct pass, draw this base.
pub fn rule_managed_base(base: &str) -> (r: bool)
    ensures
        r == spec_rule_managed_base(base@),
{
    let v = chars_of(base);
    eq_str(&v, "Gg") || eq_str(&v, "Wo") || eq_str(&v, "Ww") || eq_str(&v, "Wwf") || eq_str(
        &v,
        "Wwg",
    )
}

/// The gameplay terrain type of a map code: an overlay decides first, then
/// the base; plain type names are accepted as they are.
pub fn gameplay_type(code: &str) -> (r: &'static str)
    ensures
        r@ == spec_gameplay_type(code@),
{
    let (base, overlay) = visual_codes(code);
    let b = chars_of(base);
    let o = chars_of(overlay);
    let c = chars_of(code);
    if starts_with_str(&o, "B") {
        "grassland"
    } else if starts_with_str(&o, "V") {
        "village"
    } else if starts_with_str(&o, "F") {
        "forest"
    } else if starts_with_str(&b, "K") {
        "keep"
    } else if starts_with_str(&b, "C") {
        "castle"
    } else if is_water(base) {
        "water"
    } else if starts_with_str(&b, "H") || starts_with_str(&b, "M") {
        "hills"
    } else if eq_str(&c, "forest") {
        "forest"
    } else if eq_str(&c, "hills") {
        "hills"
    } else if eq_str(&c, "water") {
        "water"
    } else if eq_str(&c, "castle") {
        "castle"
    } else if eq_str(&c, "keep") {
        "keep"
    } else if eq_str(&c, "village") {
        "village"
    } else {
        "grassland"
    }
}

/// The transition priority of a base.
pub fn transition_priority(base: &str) -> (r: i16)
    ensures
        r == spec_transition_priority(base@),
{
    let v = chars_of(base);
    if eq_str(&v, "Ww") || eq_str(&v, "Wwf") || eq_str(&v, "Wwg") || eq_str(&v, "Ss") {
        0
    } else if eq_str(&v, "Wo") {
        1
    } else if eq_str(&v, "Ds") {
        10
    } else if eq_str(&v, "Gd") {
        20
    } else if eq_str(&v, "Gs") {
        21
    } else if eq_str(&v, "Gg") {
        22
    } else if eq_str(&v, "Gll") {
        23
    } else if eq_str(&v, "Re") {
        30
    } else if eq_str(&v, "Rp") {
        31
    } else if eq_str(&v, "Hh") {
        40
    } else {
        -1
    }
}

/// The transition image of a base, where it has one.
pub fn transition_image(base: &str) -> (r: Option<&'static str>)
    ensures
        match r {
            Some(image) => spec_transition_image(base@) == Some(image@),
            None => spec_transition_image(base@) is None,
        },
{
    let v = chars_of(base);
    if eq_str(&v, "Wo") {
        Some("transition-ocean")
    } else if eq_str(&v, "Ds") {
        Some("transition-beach")
    } else if eq_str(&v, "Gd") {
        Some("transition-grass-dry")
    } else if eq_str(&v, "Gs") {
        Some("transition-grass-semi-dry")
    } else if eq_str(&v, "Gg") {
        Some("transition-grass-green")
    } else if eq_str(&v, "Gll") {
        Some("transition-leaf-litter")
    } else if eq_str(&v, "Re") {
        Some("transition-dirt")
    } else if eq_str(&v, "Rp") {
        Some("transition-stone-path")
    } else if eq_str(&v, "Hh") {
        Some("transition-hills")
    } else if eq_str(&v, "Ss") {
        Some("transition-swamp")
    } else {
        None
    }
}

/// The ground image of a base; unknown bases fall back to green grass.
pub fn base_image(base: &str) -> (r: &'static str)
    ensures
        r@ == spec_base_image(base@),
{
    let v = chars_of(base);
    if eq_str(&v, "Gg") || eq_str(&v, "grassland") {
        "grass-green"
    } else if eq_str(&v, "Gs") {
        "grass-semi-dry"
    } else if eq_str(&v, "Gd") {
        "grass-dry"
    } else if eq_str(&v, "Gll") {
        "leaf-litter"
    } else if eq_str(&v, "Re") {
        "dirt"
    } else if eq_str(&v, "Rp") {
        "stone-path"
    } else if eq_str(&v, "Ds") {
        "beach"
    } else if eq_str(&v, "Hh") || eq_str(&v, "hills") {
        "hills-regular"
    } else if eq_str(&v, "Hd") {
        "hills-dry"
    } else if eq_str(&v, "Mm") {
        "mountains-single-1"
    } else if eq_str(&v, "Ss") {
        "swamp"
    } else if eq_str(&v, "Sm") {
        "swamp-mud"
    } else if eq_str(&v, "Wo") {
        "ocean"
    } else if eq_str(&v, "Wwr") || eq_str(&v, "Wwrg") {
        "reef-gray"
    } else if starts_with_str(&v, "W") {
        "water"
    } else if eq_str(&v, "Ce") || eq_str(&v, "Ke") {
        "dirt"
    } else if eq_str(&v, "Chr") {
        "stone-path"
    } else if eq_str(&v, "Chw") {
        "sunken-cobbles"
    } else if eq_str(&v, "Khr") {
        "keep-cobbles"
    } else if eq_str(&v, "Cme") {
        "aquatic-camp-floor"
    } else if eq_str(&v, "Cud") {
        "dwarven-castle-floor"
    } else if eq_str(&v, "Kud") {
        "dwarven-keep-floor"
    } else if eq_str(&v, "Cvr") {
        "elven-ruin-ground"
    } else if eq_str(&v, "Kvr") {
        "elven-ruin-keep"
    } else if starts_with_str(&v, "K") {
        "keep-ground"
    } else if starts_with_str(&v, "C") {
        "castle-ground"
    } else if eq_str(&v, "Rd") {
        "road-desert"
    } else if eq_str(&v, "Rr") {
        "road-cobbles"
    } else if eq_str(&v, "Iwo") {
        "interior-wood-ruined"
    } else if eq_str(&v, "Uu") {
        "cave-floor"
    } else if eq_str(&v, "Ql") {
        "lava"
    } else if eq_str(&v, "Xu") {
        "cave-wall"
    } else if eq_str(&v, "Xoa") {
        "ancient-wall"
    } else if eq_str(&v, "Xos") {
        "stone-wall"
    } else if eq_str(&v, "castle") {
        "castle-ground"
    } else if eq_str(&v, "keep") {
        "keep-ground"
    } else {
        "grass-green"
    }
}

/// The image a base adds on top of its ground: the tent of an encampment
/// keep.
pub fn base_overlay_image(base: &str) -> (r: Option<&'static str>)
    ensures
        r is Some <==> base@ == "Ke"@,
        r matches Some(image) ==> image@ == "encampment-tent"@,
{
    let v = chars_of(base);
    if eq_str(&v, "Ke") {
        Some("encampment-tent")
    } else {
        None
    }
}

/// The family of castle-wall images for a castle or keep base.
pub fn castle_wall_family(base: &str) -> (r: &'static str)
    ensures
        r@ == spec_castle_wall_family(base@),
{
    let v = chars_of(base);
    if eq_str(&v, "Ce") || eq_str(&v, "Ke") {
        "encampment"
    } else if eq_str(&v, "Chr") || eq_str(&v, "Khr") {
        "ruin"
    } else if eq_str(&v, "Chw") {
        "sunken-ruin"
    } else {
        "castle"
    }
}

/// The two directions a straight bridge overlay connects.
pub fn bridge_axis(overlay: &str) -> (r: (usize, usize))
    ensures
        (r.0 as int, r.1 as int) == spec_bridge_axis(overlay@),
{
    let v = chars_of(overlay);
    if ends_with_str(&v, "|") {
        (0, 3)
    } else if ends_with_str(&v, "/") {
        (1, 4)
    } else {
        (2, 5)
    }
}

/// The straight image of a bridge overlay.
pub fn bridge_image(overlay: &str) -> (r: &'static str)
    ensures
        r@ == spec_bridge_image(overlay@),
{
    let v = chars_of(overlay);
    if starts_with_str(&v, "Bsb") {
        if ends_with_str(&v, "|") {
            "stone-bridge-n-s"
        } else if ends_with_str(&v, "/") {
            "stone-bridge-ne-sw"
        } else {
            "stone-bridge-se-nw"
        }
    } else if ends_with_str(&v, "|") {
        "wood-bridge-n-s"
    } else if ends_with_str(&v, "/") {
        "wood-bridge-ne-sw"
    } else {
        "wood-bridge-se-nw"
    }
}

/// The drawing layer of an overlay: bridges below, forests above.
pub fn overlay_layer(overlay: &str) -> (r: i16)
    ensures
        r == spec_overlay_layer(overlay@),
{
    let v = chars_of(overlay);
    if starts_with_str(&v, "B") {
        -10
    } else if starts_with_str(&v, "F") {
        10
    } else {
        0
    }
}

// ---------------------------------------------------------------------------
// Variants, overlays and bridges
// ---------------------------------------------------------------------------
/// The arithmetic of `variant` stays inside `i64`.
pub open spec fn variant_fits(p: Position) -> bool {
    &&& i64::MIN <= 17 * p.x <= i64::MAX
    &&& i64::MIN <= 31 * p.y <= i64::MAX
    &&& i64::MIN <= 17 * p.x + 31 * p.y <= i64::MAX
}

/// Which of three look-alike images a cell shows.
pub open spec fn variant(p: Position) -> int {
    abs(17 * p.x + 31 * p.y) % 3
}

pub open spec fn pick3(v: int, a: Seq<char>, b: Seq<char>, c: Seq<char>) -> Seq<char> {
    if v == 0 {
        a
    } else if v == 1 {
        b
    } else {
        c
    }
}

/// The overlay image of a code at `p`; `small_forest` asks for the small
/// forest images that fit next to hard edges.
pub open spec fn spec_overlay_image(overlay: Seq<char>, p: Position, small_forest: bool) -> Option<
    Seq<char>,
> {
    let v = variant(p);
    if starts_with(overlay, "Fms"@) && small_forest {
        Some("forest-mixed-small"@)
    } else if starts_with(overlay, "Fds"@) && small_forest {
        Some("forest-summer-small"@)
    } else if starts_with(overlay, "Fp"@) && small_forest {
        Some("forest-pine-small"@)
    } else if starts_with(overlay, "Fms"@) {
        Some(pick3(v, "forest-mixed-1"@, "forest-mixed-2"@, "forest-mixed-3"@))
    } else if starts_with(overlay, "Fds"@) {
        Some(pick3(v, "forest-summer-1"@, "forest-summer-2"@, "forest-summer-3"@))
    } else if starts_with(overlay, "Fp"@) {
        Some(pick3(v, "forest-pine-1"@, "forest-pine-2"@, "forest-pine-3"@))
    } else if starts_with(overlay, "Fdw"@) && small_forest {
        Some("forest-winter-small"@)
    } else if starts_with(overlay, "Fmw"@) && small_forest {
        Some("forest-mixed-winter-small"@)
    } else if starts_with(overlay, "Fdw"@) {
        Some("forest-winter"@)
    } else if starts_with(overlay, "Fmw"@) {
        Some("forest-mixed-winter"@)
    } else if starts_with(overlay, "Fet"@) {
        Some("great-tree"@)
    } else if starts_with(overlay, "Vhcr"@) {
        Some("village-human-city-ruin"@)
    } else if starts_with(overlay, "Vhhr"@) {
        Some("village-human-hills-ruin"@)
    } else if starts_with(overlay, "Vhh"@) {
        Some("village-hills"@)
    } else if starts_with(overlay, "Vhr"@) {
        Some("village-human-ruin"@)
    } else if starts_with(overlay, "Vhs"@) {
        Some("village-swamp"@)
    } else if starts_with(overlay, "Vh"@) {
        Some("village-human"@)
    } else if starts_with(overlay, "Ve"@) {
        Some("village-elven"@)
    } else if starts_with(overlay, "Vwm"@) {
        Some("village-windmill"@)
    } else if starts_with(overlay, "Vc"@) {
        Some("village-hut"@)
    } else if starts_with(overlay, "Vl"@) {
        Some("village-log-cabin"@)
    } else if starts_with(overlay, "Vct"@) {
        Some("village-camp"@)
    } else if starts_with(overlay, "Bw"@) || starts_with(overlay, "Bsb"@) {
        Some(spec_bridge_image(overlay))
    } else {
        spec_decoration_image(overlay)
    }
}

/// The image of a plain decoration overlay.
pub open spec fn spec_decoration_image(overlay: Seq<char>) -> Option<Seq<char>> {
    if overlay == "Xm"@ {
        Some("mountain-wall"@)
    } else if overlay == "Efm"@ {
        Some("flowers-mixed"@)
    } else if overlay == "Eff"@ {
        Some("flowers-farm"@)
    } else if overlay == "Em"@ {
        Some("mushrooms"@)
    } else if overlay == "Es"@ {
        Some("stones"@)
    } else if overlay == "Edb"@ {
        Some("detritus"@)
    } else if overlay == "Edt"@ {
        Some("detritus-trash"@)
    } else if overlay == "Dr"@ {
        Some("rubble"@)
    } else if overlay == "Ewf"@ {
        Some("water-flowers"@)
    } else if overlay == "Ewl"@ {
        Some("water-lilies"@)
    } else if overlay == "Ewsh"@ {
        Some("seashells"@)
    } else if overlay == "Wkf"@ {
        Some("kelp"@)
    } else if overlay == "Gvs"@ {
        Some("farm"@)
    } else if overlay == "Wm"@ {
        Some("windmill"@)
    } else if overlay == "Ecf"@ {
        Some("campfire"@)
    } else if overlay == "Eb"@ {
        Some("brazier"@)
    } else if overlay == "Ebn"@ {
        Some("brazier-lit"@)
    } else if overlay == "Efs"@ {
        Some("wall-fire"@)
    } else {
        None
    }
}

fn variant_exec(p: Position) -> (v: usize)
    requires
        variant_fits(p),
    ensures
        v == variant(p),
        v < 3,
{
    let m = p.x * 17 + p.y * 31;
    if m >= 0 {
        ((m as u64) % 3) as usize
    } else {
        let a = (-(m + 1)) as u64 + 1;
        assert(a == abs(m as int));
        (a % 3) as usize
    }
}

fn pick3_exec(v: usize, a: &'static str, b: &'static str, c: &'static str) -> (r: &'static str)
    ensures
        r@ == pick3(v as int, a@, b@, c@),
{
    if v == 0 {
        a
    } else if v == 1 {
        b
    } else {
        c
    }
}

fn decoration_image(o: &Vec<char>) -> (r: Option<&'static str>)
    ensures
        match r {
            Some(image) => spec_decoration_image(o@) == Some(image@),
            None => spec_decoration_image(o@) is None,
        },
{
    if eq_str(o, "Xm") {
        Some("mountain-wall")
    } else if eq_str(o, "Efm") {
        Some("flowers-mixed")
    } else if eq_str(o, "Eff") {
        Some("flowers-farm")
    } else if eq_str(o, "Em") {
        Some("mushrooms")
    } else if eq_str(o, "Es") {
        Some("stones")
    } else if eq_str(o, "Edb") {
        Some("detritus")
    } else if eq_str(o, "Edt") {
        Some("detritus-trash")
    } else if eq_str(o, "Dr") {
        Some("rubble")
    } else if eq_str(o, "Ewf") {
        Some("water-flowers")
    } else if eq_str(o, "Ewl") {
        Some("water-lilies")
    } else if eq_str(o, "Ewsh") {
        Some("seashells")
    } else if eq_str(o, "Wkf") {
        Some("kelp")
    } else if eq_str(o, "Gvs") {
        Some("farm")
    } else if eq_str(o, "Wm") {
        Some("windmill")
    } else if eq_str(o, "Ecf") {
        Some("campfire")
    } else if eq_str(o, "Eb") {
        Some("brazier")
    } else if eq_str(o, "Ebn") {
        Some("brazier-lit")
    } else if eq_str(o, "Efs") {
        Some("wall-fire")
    } else {
        None
    }
}

/// The overlay image of a code at `position`.
pub fn overlay_image(overlay: &str, position: Position, small_forest: bool) -> (r: Option<
    &'static str,
>)
    requires
        variant_fits(position),
    ensures
        match r {
            Some(image) => spec_overlay_image(overlay@, position, small_forest) == Some(image@),
            None => spec_overlay_image(overlay@, position, small_forest) is None,
        },
{
    let v = variant_exec(position);
    let o = chars_of(overlay);
    if starts_with_str(&o, "Fms") && small_forest {
        Some("forest-mixed-small")
    } else if starts_with_str(&o, "Fds") && small_forest {
        Some("forest-summer-small")
    } else if starts_with_str(&o, "Fp") && small_forest {
        Some("forest-pine-small")
    } else if starts_with_str(&o, "Fms") {
        Some(pick3_exec(v, "forest-mixed-1", "forest-mixed-2", "forest-mixed-3"))
    } else if starts_with_str(&o, "Fds") {
        Some(pick3_exec(v, "forest-summer-1", "forest-summer-2", "forest-summer-3"))
    } else if starts_with_str(&o, "Fp") {
        Some(pick3_exec(v, "forest-pine-1", "forest-pine-2", "forest-pine-3"))
    } else if starts_with_str(&o, "Fdw") && small_forest {
        Some("forest-winter-small")
    } else if starts_with_str(&o, "Fmw") && small_forest {
        Some("forest-mixed-winter-small")
    } else if starts_with_str(&o, "Fdw") {
        Some("forest-winter")
    } else if starts_with_str(&o, "Fmw") {
        Some("forest-mixed-winter")
    } else if starts_with_str(&o, "Fet") {
        Some("great-tree")
    } else if starts_with_str(&o, "Vhcr") {
        Some("village-human-city-ruin")
    } else if starts_with_str(&o, "Vhhr") {
        Some("village-human-hills-ruin")
    } else if starts_with_str(&o, "Vhh") {
        Some("village-hills")
    } else if starts_with_str(&o, "Vhr") {
        Some("village-human-ruin")
    } else if starts_with_str(&o, "Vhs") {
        Some("village-swamp")
    } else if starts_with_str(&o, "Vh") {
        Some("village-human")
    } else if starts_with_str(&o, "Ve") {
        Some("village-elven")
    } else if starts_with_str(&o, "Vwm") {
        Some("village-windmill")
    } else if starts_with_str(&o, "Vc") {
        Some("village-hut")
    } else if starts_with_str(&o, "Vl") {
        Some("village-log-cabin")
    } else if starts_with_str(&o, "Vct") {
        Some("village-camp")
    } else if starts_with_str(&o, "Bw") || starts_with_str(&o, "Bsb") {
        Some(bridge_image(overlay))
    } else {
        decoration_image(&o)
    }
}

/// One of the three single-mountain images, chosen by position.
pub fn mountain_single_image(position: Position) -> (r: &'static str)
    requires
        variant_fits(position),
    ensures
        r@ == pick3(
            variant(position),
            "mountains-single-1"@,
            "mountains-single-2"@,
            "mountains-single-3"@,
        ),
{
    let v = variant_exec(position);
    pick3_exec(v, "mountains-single-1", "mountains-single-2", "mountains-single-3")
}

/// The image of a wooden bridge whose connected sides are `connected`
/// (N, NE, SE, S, SW, NW); a straight bridge keeps its overlay's image.
pub open spec fn spec_wood_bridge_image(overlay: Seq<char>, c: Seq<bool>) -> Seq<char> {
    if c == seq![true, false, true, false, false, false] {
        "wood-bridge-n-se"@
    } else if c == seq![false, true, false, true, false, false] {
        "wood-bridge-ne-s"@
    } else if c == seq![false, false, true, false, true, false] {
        "wood-bridge-se-sw"@
    } else if c == seq![false, false, false, true, false, true] {
        "wood-bridge-s-nw"@
    } else if c == seq![true, false, false, false, true, false] {
        "wood-bridge-sw-n"@
    } else if c == seq![false, true, false, false, false, true] {
        "wood-bridge-nw-ne"@
    } else if c == seq![true, false, true, false, true, false] {
        "wood-bridge-n-se-sw"@
    } else if c == seq![false, true, false, true, false, true] {
        "wood-bridge-ne-s-nw"@
    } else {
        spec_bridge_image(overlay)
    }
}

fn same_sides(c: [bool; 6], want: [bool; 6]) -> (r: bool)
    ensures
        r == (c@ == want@),
{
    let mut i: usize = 0;
    while i < 6
        invariant
            i <= 6,
            forall|j: int| 0 <= j < i ==> c@[j] == want@[j],
        decreases 6 - i,
    {
        if c[i] != want[i] {
            return false;
        }
        i = i + 1;
    }
    assert(c@ =~= want@);
    true
}

/// The image of a wooden bridge with the given connected sides.
pub fn wood_bridge_image(overlay: &str, connected: [bool; 6]) -> (r: &'static str)
    ensures
        r@ == spec_wood_bridge_image(overlay@, connected@),
{
    if same_sides(connected, [true, false, true, false, false, false]) {
        "wood-bridge-n-se"
    } else if same_sides(connected, [false, true, false, true, false, false]) {
        "wood-bridge-ne-s"
    } else if same_sides(connected, [false, false, true, false, true, false]) {
        "wood-bridge-se-sw"
    } else if same_sides(connected, [false, false, false, true, false, true]) {
        "wood-bridge-s-nw"
    } else if same_sides(connected, [true, false, false, false, true, false]) {
        "wood-bridge-sw-n"
    } else if same_sides(connected, [false, true, false, false, false, true]) {
        "wood-bridge-nw-ne"
    } else if same_sides(connected, [true, false, true, false, true, false]) {
        "wood-bridge-n-se-sw"
    } else if same_sides(connected, [false, true, false, true, false, true]) {
        "wood-bridge-ne-s-nw"
    } else {
        bridge_image(overlay)
    }
}

// ---------------------------------------------------------------------------
// Geometry of the drawing
// ---------------------------------------------------------------------------
/// The six neighbours of a cell in the order N, NE, SE, S, SW, NW; even
/// 1-based columns are raised by half a hex.
pub open spec fn spec_terrain_neighbors(p: Position) -> Seq<Position> {
    let up = if p.x % 2 == 0 { -1int } else { 0int };
    seq![
        Position { x: p.x, y: (p.y - 1) as i64 },
        Position { x: (p.x + 1) as i64, y: (p.y + up) as i64 },
        Position { x: (p.x + 1) as i64, y: (p.y + up + 1) as i64 },
        Position { x: p.x, y: (p.y + 1) as i64 },
        Position { x: (p.x - 1) as i64, y: (p.y + up + 1) as i64 },
        Position { x: (p.x - 1) as i64, y: (p.y + up) as i64 },
    ]
}

/// The neighbours of a cell, N, NE, SE, S, SW, NW.
pub fn neighbors(position: Position) -> (r: [Position; 6])
    requires
        steppable(position),
    ensures
        r@ == spec_terrain_neighbors(position),
{
    let up: i64 = if position.x % 2 == 0 { -1 } else { 0 };
    let r = [
        Position { x: position.x, y: position.y - 1 },
        Position { x: position.x + 1, y: position.y + up },
        Position { x: position.x + 1, y: position.y + up + 1 },
        Position { x: position.x, y: position.y + 1 },
        Position { x: position.x - 1, y: position.y + up + 1 },
        Position { x: position.x - 1, y: position.y + up },
    ];
    assert(r@ =~= spec_terrain_neighbors(position));
    r
}

/// The screen row of a hex in pixels: 72 per row, even columns raised by 36.
pub open spec fn spec_hex_screen_y(p: Position) -> int {
    (p.y - 1) * 72 - if p.x % 2 == 0 { 36int } else { 0int }
}

/// The screen row fits in `i64`, with room for the offsets of the drawing.
pub open spec fn screen_fits(p: Position) -> bool {
    -0x0100_0000_0000_0000 <= p.y <= 0x0100_0000_0000_0000
}

/// The screen row of a hex.
pub fn hex_screen_y(position: Position) -> (r: i64)
    requires
        screen_fits(position),
    ensures
        r == spec_hex_screen_y(position),
{
    let raised: i64 = if position.x % 2 == 0 { 1 } else { 0 };
    (position.y - 1) * 72 - raised * 36
}

/// The direction named after `prefix` in `path` (the prefix is stripped as
/// often as it repeats), counted N, NE, SE, S, SW, NW.
pub open spec fn strip_prefixes(s: Seq<char>, prefix: Seq<char>) -> Seq<char>
    decreases s.len(),
{
    if prefix.len() > 0 && starts_with(s, prefix) {
        strip_prefixes(s.subrange(prefix.len() as int, s.len() as int), prefix)
    } else {
        s
    }
}

pub open spec fn spec_direction(path: Seq<char>, prefix: Seq<char>) -> Option<int> {
    let name = strip_prefixes(path, prefix);
    if name == "n"@ {
        Some(0)
    } else if name == "ne"@ {
        Some(1)
    } else if name == "se"@ {
        Some(2)
    } else if name == "s"@ {
        Some(3)
    } else if name == "sw"@ {
        Some(4)
    } else if name == "nw"@ {
        Some(5)
    } else {
        None
    }
}

/// The direction index that a directional image name ends in.
pub fn direction(path: &str, prefix: &str) -> (r: Option<usize>)
    ensures
        match r {
            Some(d) => spec_direction(path@, prefix@) == Some(d as int),
            None => spec_direction(path@, prefix@) is None,
        },
{
    let v = chars_of(path);
    let p = chars_of(prefix);
    let n = v.len();
    let mut k: usize = 0;
    assert(v@.subrange(0, n as int) =~= v@);
    loop
        invariant
            k <= n == v.len(),
            strip_prefixes(v@, p@) == strip_prefixes(v@.subrange(k as int, n as int), p@),
        ensures
            k <= n,
            strip_prefixes(v@, p@) == v@.subrange(k as int, n as int),
        decreases n - k,
    {
        if p.len() == 0 || p.len() > n - k {
            assert(!(p@.len() > 0 && starts_with(v@.subrange(k as int, n as int), p@)));
            break;
        }
        let head = slice_chars(&v, k, k + p.len());
        if !chars_eq(&head, &p) {
            assert(!starts_with(v@.subrange(k as int, n as int), p@)) by {
                assert(v@.subrange(k as int, n as int).subrange(0, p@.len() as int) =~= head@);
            }
            break;
        }
        proof {
            let t = v@.subrange(k as int, n as int);
            assert(t.subrange(0, p@.len() as int) =~= head@);
            assert(t.subrange(p@.len() as int, t.len() as int) =~= v@.subrange(
                (k + p.len()) as int,
                n as int,
            ));
        }
        k = k + p.len();
    }
    let name = slice_chars(&v, k, n);
    if eq_str(&name, "n") {
        Some(0)
    } else if eq_str(&name, "ne") {
        Some(1)
    } else if eq_str(&name, "se") {
        Some(2)
    } else if eq_str(&name, "s") {
        Some(3)
    } else if eq_str(&name, "sw") {
        Some(4)
    } else if eq_str(&name, "nw") {
        Some(5)
    } else {
        None
    }
}

// ---------------------------------------------------------------------------
// Anchors and drawing depth
// ---------------------------------------------------------------------------
/// Where the castle hex lies inside a castle-wall image, in pixels.
///
/// A wall image covers a pattern of three hexes; after each rotation the
/// pattern is moved to the top-left corner of the image, so the castle hex
/// lands at a different place for each corner.
pub open spec fn spec_wall_anchor(corner: int) -> (int, int) {
    let c = corner % 6;
    if c == 0 || c == 1 {
        (36, 108)
    } else if c == 2 {
        (36, 36)
    } else if c == 3 || c == 4 {
        (90, 72)
    } else {
        (90, 144)
    }
}

/// The anchor of a castle-wall image, in whole pixels.
pub fn wall_anchor(corner: usize) -> (r: (i32, i32))
    ensures
        (r.0 as int, r.1 as int) == spec_wall_anchor(corner as int),
{
    let c = corner % 6;
    if c == 0 || c == 1 {
        (36, 108)
    } else if c == 2 {
        (36, 36)
    } else if c == 3 || c == 4 {
        (90, 72)
    } else {
        (90, 144)
    }
}

/// The anchor of a mountain-range image, where the name is one.
pub open spec fn spec_range_anchor(image: Seq<char>) -> Option<(int, int)> {
    if starts_with(image, "mountain-long-se-"@) {
        Some((90, 144))
    } else if starts_with(image, "mountain-long-ne-"@) {
        Some((90, 216))
    } else if starts_with(image, "mountain-range-se-"@) {
        Some((90, 144))
    } else if starts_with(image, "mountain-range-ne-"@) {
        Some((90, 216))
    } else if starts_with(image, "mountain-cluster-"@) {
        Some((90, 144))
    } else {
        None
    }
}

/// The anchor of a mountain-range image, in whole pixels.
pub fn range_anchor(image: &str) -> (r: Option<(i32, i32)>)
    ensures
        match r {
            Some(a) => spec_range_anchor(image@) == Some((a.0 as int, a.1 as int)),
            None => spec_range_anchor(image@) is None,
        },
{
    let v = chars_of(image);
    if starts_with_str(&v, "mountain-long-se-") {
        Some((90, 144))
    } else if starts_with_str(&v, "mountain-long-ne-") {
        Some((90, 216))
    } else if starts_with_str(&v, "mountain-range-se-") {
        Some((90, 144))
    } else if starts_with_str(&v, "mountain-range-ne-") {
        Some((90, 216))
    } else if starts_with_str(&v, "mountain-cluster-") {
        Some((90, 144))
    } else {
        None
    }
}

/// The last index of `c` in `s`.
pub open spec fn rfind(s: Seq<char>, c: char, i: int) -> Option<int>
    decreases i,
{
    if i <= 0 {
        None
    } else if s[i - 1] == c {
        Some(i - 1)
    } else {
        rfind(s, c, i - 1)
    }
}

/// The number after the last `-` of an image name.
pub open spec fn image_number(image: Seq<char>) -> Option<int> {
    match rfind(image, '-', image.len() as int) {
        Some(k) => parse_unsigned(image.subrange(k + 1, image.len() as int), usize::MAX as int),
        None => None,
    }
}

/// The bottom rows of the parts of each mountain-range family.
pub open spec fn range_base_rows(image: Seq<char>) -> Option<Seq<int>> {
    if starts_with(image, "mountain-long-se-"@) {
        Some(seq![107, 107, 73, 108, 144])
    } else if starts_with(image, "mountain-long-ne-"@) {
        Some(seq![144, 108, 73, 107, 107])
    } else if starts_with(image, "mountain-range-se-"@) {
        Some(seq![107, 107, 144])
    } else if starts_with(image, "mountain-range-ne-"@) {
        Some(seq![144, 107, 107])
    } else if starts_with(image, "mountain-cluster-"@) {
        Some(seq![107, 107, 107])
    } else {
        None
    }
}

/// A numbered image name is counted from 1, and a part of a known family
/// names one of its parts, so that its tables can be indexed.
pub open spec fn base_row_defined(image: Seq<char>) -> bool {
    match image_number(image) {
        Some(n) => n >= 1 && (range_base_rows(image) matches Some(rows) ==> n - 1 < rows.len()),
        None => true,
    }
}

/// The bottom row of a part of a mountain range.
pub open spec fn spec_range_base_y(image: Seq<char>) -> Option<int> {
    match image_number(image) {
        Some(n) => match range_base_rows(image) {
            Some(rows) => Some(rows[n - 1]),
            None => None,
        },
        None => None,
    }
}

/// The bottom row of a part of a mountain range, by its number.
pub fn mountain_range_base_y(image: &str) -> (r: Option<i64>)
    requires
        base_row_defined(image@),
    ensures
        match r {
            Some(y) => spec_range_base_y(image@) == Some(y as int),
            None => spec_range_base_y(image@) is None,
        },
{
    let v = chars_of(image);
    let mut k: usize = v.len();
    while k > 0 && v[k - 1] != '-'
        invariant
            k <= v.len(),
            rfind(v@, '-', v.len() as int) == rfind(v@, '-', k as int),
        decreases k,
    {
        k = k - 1;
    }
    if k == 0 {
        return None;
    }
    let tail = slice_chars(&v, k, v.len());
    let n = match parse_unsigned_chars(&tail, usize::MAX as u64) {
        Some(n) => n as usize,
        None => {
            return None;
        },
    };
    let index = n - 1;
    if starts_with_str(&v, "mountain-long-se-") {
        let rows: [i64; 5] = [107, 107, 73, 108, 144];
        assert(rows@ =~= seq![107i64, 107, 73, 108, 144]);
        Some(rows[index])
    } else if starts_with_str(&v, "mountain-long-ne-") {
        let rows: [i64; 5] = [144, 108, 73, 107, 107];
        assert(rows@ =~= seq![144i64, 108, 73, 107, 107]);
        Some(rows[index])
    } else if starts_with_str(&v, "mountain-range-se-") {
        let rows: [i64; 3] = [107, 107, 144];
        assert(rows@ =~= seq![107i64, 107, 144]);
        Some(rows[index])
    } else if starts_with_str(&v, "mountain-range-ne-") {
        let rows: [i64; 3] = [144, 107, 107];
        assert(rows@ =~= seq![144i64, 107, 107]);
        Some(rows[index])
    } else if starts_with_str(&v, "mountain-cluster-") {
        let rows: [i64; 3] = [107, 107, 107];
        assert(rows@ =~= seq![107i64, 107, 107]);
        Some(rows[index])
    } else {
        None
    }
}

/// The drawing depth of a tile within its layer: single mountains and
/// ranges by the bottom of their image, castle walls by their castle hex
/// (keep walls after castle walls), everything else first.
pub open spec fn spec_visual_depth(tile: VisualTile) -> (int, int) {
    let y = spec_hex_screen_y(tile.position);
    if starts_with(tile.image@, "mountains-single-"@) {
        (0, y - 18)
    } else if tile.kind is MountainRange {
        (0, y - spec_range_anchor(tile.image@).unwrap().1 + spec_range_base_y(tile.image@).unwrap())
    } else {
        match tile.kind {
            VisualKind::CastleConvex(c) => (0, y - spec_wall_anchor(c as int).1),
            VisualKind::CastleConcave(c) => (0, y - spec_wall_anchor(c as int).1),
            VisualKind::KeepConvex(c) => (1, y - spec_wall_anchor(c as int).1),
            VisualKind::KeepConcave(c) => (1, y - spec_wall_anchor(c as int).1),
            _ => (0, i64::MIN as int),
        }
    }
}

/// A mountain-range tile names a numbered part of a known range.
pub open spec fn depth_defined(tile: VisualTile) -> bool {
    &&& screen_fits(tile.position)
    &&& (tile.kind is MountainRange && !starts_with(tile.image@, "mountains-single-"@)) ==> {
        &&& spec_range_anchor(tile.image@) is Some
        &&& base_row_defined(tile.image@)
        &&& spec_range_base_y(tile.image@) is Some
    }
}

/// The drawing depth of a tile within its layer.
pub fn visual_depth(tile: &VisualTile) -> (r: (u8, i64))
    requires
        depth_defined(*tile),
    ensures
        (r.0 as int, r.1 as int) == spec_visual_depth(*tile),
{
    let image = chars_of(tile.image);
    if starts_with_str(&image, "mountains-single-") {
        return (0, hex_screen_y(tile.position) - 18);
    }
    if let VisualKind::MountainRange = tile.kind {
        let anchor = match range_anchor(tile.image) {
            Some(a) => a,
            None => {
                return (0, i64::MIN);
            },
        };
        let base = match mountain_range_base_y(tile.image) {
            Some(b) => b,
            None => {
                return (0, i64::MIN);
            },
        };
        return (0, hex_screen_y(tile.position) - anchor.1 as i64 + base);
    }
    let (corner, keep_pass): (usize, u8) = match tile.kind {
        VisualKind::CastleConvex(c) => (c, 0),
        VisualKind::CastleConcave(c) => (c, 0),
        VisualKind::KeepConvex(c) => (c, 1),
        VisualKind::KeepConcave(c) => (c, 1),
        _ => {
            return (0, i64::MIN);
        },
    };
    let anchor = wall_anchor(corner);
    (keep_pass, hex_screen_y(tile.position) - anchor.1 as i64)
}

// ---------------------------------------------------------------------------
// Castle-wall mask
// ---------------------------------------------------------------------------
/// The offset of the centre of the neighbour in direction `d`, in pixels.
pub open spec fn hex_step(d: int) -> (int, int) {
    if d == 0 {
        (0, -72)
    } else if d == 1 {
        (54, -36)
    } else if d == 2 {
        (54, 36)
    } else if d == 3 {
        (0, 72)
    } else if d == 4 {
        (-54, 36)
    } else {
        (-54, -36)
    }
}

/// The centres of the three hexes of the wall pattern of `corner`: the
/// castle hex and its neighbours at `corner` and the next corner.
pub open spec fn wall_centers(corner: int) -> Seq<(int, int)> {
    let a = spec_wall_anchor(corner);
    let d0 = hex_step(corner % 6);
    let d1 = hex_step((corner + 1) % 6);
    seq![a, (a.0 + d0.0, a.1 + d0.1), (a.0 + d1.0, a.1 + d1.1)]
}

/// The mask alpha that the hex centred at `c` gives to the pixel `(x, y)`.
pub open spec fn mask_alpha_at(mask: Seq<u8>, c: (int, int), x: int, y: int) -> int {
    let mx = x - (c.0 - 36);
    let my = y - (c.1 - 36);
    if 0 <= mx < 72 && 0 <= my < 72 {
        mask[(my * 72 + mx) * 4 + 3] as int
    } else {
        0
    }
}

pub open spec fn max3(a: int, b: int, c: int) -> int {
    if a >= b && a >= c {
        a
    } else if b >= c {
        b
    } else {
        c
    }
}

/// The greatest mask alpha of the three pattern hexes at `(x, y)`; a pixel
/// outside all three gets 0.
pub open spec fn wall_mask_alpha(mask: Seq<u8>, corner: int, x: int, y: int) -> int {
    let cs = wall_centers(corner);
    max3(
        mask_alpha_at(mask, cs[0], x, y),
        mask_alpha_at(mask, cs[1], x, y),
        mask_alpha_at(mask, cs[2], x, y),
    )
}

/// The pixels of a wall image after masking: each alpha byte is lowered to
/// the mask alpha of its pixel; colour bytes are kept.
pub open spec fn masked_byte(old: Seq<u8>, mask: Seq<u8>, width: int, corner: int, i: int) -> int {
    if i % 4 == 3 {
        let p = i / 4;
        let m = wall_mask_alpha(mask, corner, p % width, p / width);
        if (old[i] as int) < m {
            old[i] as int
        } else {
            m
        }
    } else {
        old[i] as int
    }
}

fn mask_alpha_exec(hex_mask: &[u8], cx: i64, cy: i64, x: i64, y: i64) -> (r: u8)
    requires
        hex_mask@.len() == 72 * 72 * 4,
        -0x1000_0000 <= cx <= 0x1000_0000,
        -0x1000_0000 <= cy <= 0x1000_0000,
        0 <= x <= 0x7fff_ffff,
        0 <= y <= 0x7fff_ffff,
    ensures
        r as int == mask_alpha_at(hex_mask@, (cx as int, cy as int), x as int, y as int),
{
    let mx = x - (cx - 36);
    let my = y - (cy - 36);
    if 0 <= mx && mx < 72 && 0 <= my && my < 72 {
        let k = ((my * 72 + mx) * 4 + 3) as usize;
        hex_mask[k]
    } else {
        0
    }
}

/// Masks a castle-wall image with the hex mask of its three pattern hexes,
/// as is done for the three cells of the wall rule.
/// `pixels` holds `width` x `height` RGBA pixels and `hex_mask` one 72 x 72
/// RGBA hex; columns and rows are addressed as `i32`.
pub fn mask_castle_wall(
    pixels: &mut Vec<u8>,
    width: usize,
    height: usize,
    hex_mask: &[u8],
    corner: usize,
)
    requires
        old(pixels)@.len() == width * height * 4,
        hex_mask@.len() == 72 * 72 * 4,
        width <= 0x7fff_ffff,
        height <= 0x7fff_ffff,
        corner < usize::MAX,
    ensures
        final(pixels)@.len() == old(pixels)@.len(),
        forall|i: int|
            0 <= i < old(pixels)@.len() ==> final(pixels)@[i] as int == masked_byte(
                old(pixels)@,
                hex_mask@,
                width as int,
                corner as int,
                i,
            ),
{
    let ghost start = pixels@;
    let anchor = wall_anchor(corner);
    let steps: [(i64, i64); 6] = [(0, -72), (54, -36), (54, 36), (0, 72), (-54, 36), (-54, -36)];
    assert(forall|d: int| 0 <= d < 6 ==> (steps@[d].0 as int, steps@[d].1 as int) == hex_step(d));
    let d0 = steps[corner % 6];
    let d1 = steps[(corner + 1) % 6];
    let ax = anchor.0 as i64;
    let ay = anchor.1 as i64;
    let centers: [(i64, i64); 3] = [(ax, ay), (ax + d0.0, ay + d0.1), (ax + d1.0, ay + d1.1)];
    proof {
        let cs = wall_centers(corner as int);
        assert(cs[0] == (centers@[0].0 as int, centers@[0].1 as int));
        assert(cs[1] == (centers@[1].0 as int, centers@[1].1 as int));
        assert(cs[2] == (centers@[2].0 as int, centers@[2].1 as int));
    }
    let len = pixels.len();
    assert(width * height <= usize::MAX) by (nonlinear_arith)
        requires
            width * height * 4 == len,
            len <= usize::MAX,
    ;
    let count = width * height;
    let mut p: usize = 0;
    while p < count
        invariant
            count == width * height,
            width <= 0x7fff_ffff,
            height <= 0x7fff_ffff,
            hex_mask@.len() == 72 * 72 * 4,
            start.len() == count * 4,
            start.len() == len,
            pixels@.len() == start.len(),
            p <= count,
            -0x1000 <= centers@[0].0 <= 0x1000 && -0x1000 <= centers@[0].1 <= 0x1000,
            -0x1000 <= centers@[1].0 <= 0x1000 && -0x1000 <= centers@[1].1 <= 0x1000,
            -0x1000 <= centers@[2].0 <= 0x1000 && -0x1000 <= centers@[2].1 <= 0x1000,
            wall_centers(corner as int) == seq![
                (centers@[0].0 as int, centers@[0].1 as int),
                (centers@[1].0 as int, centers@[1].1 as int),
                (centers@[2].0 as int, centers@[2].1 as int),
            ],
            forall|i: int|
                0 <= i < start.len() ==> #[trigger] pixels@[i] as int == if i / 4 < p {
                    masked_byte(start, hex_mask@, width as int, corner as int, i)
                } else {
                    start[i] as int
                },
        decreases count - p,
    {
        assert(width > 0) by (nonlinear_arith)
            requires
                p < count,
                count == width * height,
        ;
        let x = p % width;
        let y = p / width;
        assert(y < height) by (nonlinear_arith)
            requires
                p < count,
                count == width * height,
                y == p / width,
                width > 0,
        ;
        let a0 = mask_alpha_exec(hex_mask, centers[0].0, centers[0].1, x as i64, y as i64);
        let a1 = mask_alpha_exec(hex_mask, centers[1].0, centers[1].1, x as i64, y as i64);
        let a2 = mask_alpha_exec(hex_mask, centers[2].0, centers[2].1, x as i64, y as i64);
        let m = if a0 >= a1 && a0 >= a2 {
            a0
        } else if a1 >= a2 {
            a1
        } else {
            a2
        };
        assert(p * 4 + 3 < start.len()) by (nonlinear_arith)
            requires
                p < count,
                start.len() == count * 4,
        ;
        let k = p * 4 + 3;
        let current = pixels[k];
        let lowered = if current < m {
            current
        } else {
            m
        };
        pixels.set(k, lowered);
        proof {
            assert(k / 4 == p && k % 4 == 3);
            assert(m as int == wall_mask_alpha(hex_mask@, corner as int, x as int, y as int));
            assert(current == start[k as int]);
            assert forall|i: int| 0 <= i < start.len() implies #[trigger] pixels@[i] as int == if i
                / 4 < p + 1 {
                masked_byte(start, hex_mask@, width as int, corner as int, i)
            } else {
                start[i] as int
            } by {
                if i != k {
                    if i / 4 == p as int {
                        assert(i % 4 != 3);
                    }
                }
            }
        }
        p = p + 1;
    }
}

/// The neighbours in drawing order are the six hex neighbours of the cell,
/// each one step away.
pub proof fn lemma_terrain_neighbors_are_hex_neighbors(p: Position)
    requires
        steppable(p),
    ensures
        forall|i: int|
            0 <= i < 6 ==> spec_neighbors(p).contains(#[trigger] spec_terrain_neighbors(p)[i]),
        forall|j: int|
            0 <= j < 6 ==> spec_terrain_neighbors(p).contains(#[trigger] spec_neighbors(p)[j]),
        forall|i: int|
            0 <= i < 6 ==> spec_distance(p, #[trigger] spec_terrain_neighbors(p)[i]) == 1,
{
    let t = spec_terrain_neighbors(p);
    let h = spec_neighbors(p);
    let map: Seq<int> = if p.x % 2 == 0 {
        seq![2int, 5, 4, 3, 0, 1]
    } else {
        seq![2int, 4, 5, 3, 1, 0]
    };
    assert forall|i: int| 0 <= i < 6 implies h.contains(#[trigger] t[i]) && spec_distance(p, t[i])
        == 1 by {
        assert(t[i] == h[map[i]]);
        lemma_neighbors_adjacent(p, map[i]);
    }
    let back: Seq<int> = if p.x % 2 == 0 {
        seq![4int, 5, 0, 3, 2, 1]
    } else {
        seq![5int, 4, 0, 3, 1, 2]
    };
    assert forall|j: int| 0 <= j < 6 implies t.contains(#[trigger] h[j]) by {
        assert(h[j] == t[back[j]]);
    }
}

/// Masking never raises the alpha of a pixel.
pub proof fn lemma_mask_never_raises(old: Seq<u8>, mask: Seq<u8>, width: int, corner: int, i: int)
    requires
        0 <= i < old.len(),
    ensures
        masked_byte(old, mask, width, corner, i) <= old[i],
{
}
} // verus!
