//! Where the image of each visual tile is found among the terrain sprites.
//!
//! A visual tile names an image by a stable key and, for directional images,
//! a direction or a corner. This module turns such a tile into the relative
//! path of the sprite file that draws it.
use vstd::prelude::*;
use crate::terrain::{VisualKind, VisualTile};
use crate::text::{chars_of, concat, eq_str, slice_chars, string_of};

verus! {

/// The names of the six hex directions, in the order N, NE, SE, S, SW, NW.
pub open spec fn direction_names() -> Seq<Seq<char>> {
    seq!["n"@, "ne"@, "se"@, "s"@, "sw"@, "nw"@]
}

/// The name of direction `i`, if it is one of the six.
pub open spec fn spec_direction_name(i: int) -> Option<Seq<char>> {
    if 0 <= i < 6 {
        Some(direction_names()[i])
    } else {
        None
    }
}

/// The view of an optional image key.
pub open spec fn key_view(key: Option<&'static str>) -> Option<Seq<char>> {
    match key {
        Some(k) => Some(k@),
        None => None,
    }
}

/// The name of direction `index`; `None` past the sixth.
pub fn direction_name(index: usize) -> (r: Option<&'static str>)
    ensures
        key_view(r) == spec_direction_name(index as int),
{
    if index == 0 {
        Some("n")
    } else if index == 1 {
        Some("ne")
    } else if index == 2 {
        Some("se")
    } else if index == 3 {
        Some("s")
    } else if index == 4 {
        Some("sw")
    } else if index == 5 {
        Some("nw")
    } else {
        None
    }
}

/// The names of the six wall corners as the sprite files spell them.
pub open spec fn corner_names() -> Seq<Seq<char>> {
    seq!["tl"@, "tr"@, "r"@, "br"@, "bl"@, "l"@]
}

/// The file suffix of wall corner `corner`: corner 0 lies between the north
/// and the north-east side, which the sprites call the top right.
pub open spec fn spec_castle_corner(corner: int) -> Seq<char> {
    corner_names()[(corner + 1) % 6]
}

/// The file suffix of a castle-wall corner; every corner has one.
pub fn castle_corner(corner: usize) -> (r: Option<&'static str>)
    ensures
        key_view(r) == Some(spec_castle_corner(corner as int)),
{
    let i = corner % 6;
    assert((corner as int + 1) % 6 == (i as int + 1) % 6);
    if i == 0 {
        Some("tr")
    } else if i == 1 {
        Some("r")
    } else if i == 2 {
        Some("br")
    } else if i == 3 {
        Some("bl")
    } else if i == 4 {
        Some("l")
    } else {
        Some("tl")
    }
}

/// The suffix of a grass transition that spans the sides in `mask` (bit `d`
/// for direction `d`), for the runs that have a sprite of their own.
pub open spec fn spec_green_run_suffix(mask: int) -> Option<Seq<char>> {
    if mask == 1 {
        Some("n"@)
    } else if mask == 2 {
        Some("ne"@)
    } else if mask == 4 {
        Some("se"@)
    } else if mask == 8 {
        Some("s"@)
    } else if mask == 16 {
        Some("sw"@)
    } else if mask == 32 {
        Some("nw"@)
    } else if mask == 3 {
        Some("n-ne"@)
    } else if mask == 6 {
        Some("ne-se"@)
    } else if mask == 12 {
        Some("se-s"@)
    } else if mask == 24 {
        Some("s-sw"@)
    } else if mask == 48 {
        Some("sw-nw"@)
    } else if mask == 33 {
        Some("nw-n"@)
    } else if mask == 7 {
        Some("n-ne-se"@)
    } else if mask == 14 {
        Some("ne-se-s"@)
    } else if mask == 28 {
        Some("se-s-sw"@)
    } else if mask == 56 {
        Some("s-sw-nw"@)
    } else if mask == 49 {
        Some("sw-nw-n"@)
    } else if mask == 35 {
        Some("nw-n-ne"@)
    } else if mask == 59 {
        Some("s-sw-nw-n-ne"@)
    } else if mask == 55 {
        Some("sw-nw-n-ne-se"@)
    } else if mask == 63 {
        Some("s-sw-nw-n-ne-se"@)
    } else {
        None
    }
}

/// The suffix of a grass transition run; `None` for a run without a sprite.
pub fn green_run_suffix(mask: u8) -> (r: Option<&'static str>)
    ensures
        key_view(r) == spec_green_run_suffix(mask as int),
{
    if mask == 1 {
        Some("n")
    } else if mask == 2 {
        Some("ne")
    } else if mask == 4 {
        Some("se")
    } else if mask == 8 {
        Some("s")
    } else if mask == 16 {
        Some("sw")
    } else if mask == 32 {
        Some("nw")
    } else if mask == 3 {
        Some("n-ne")
    } else if mask == 6 {
        Some("ne-se")
    } else if mask == 12 {
        Some("se-s")
    } else if mask == 24 {
        Some("s-sw")
    } else if mask == 48 {
        Some("sw-nw")
    } else if mask == 33 {
        Some("nw-n")
    } else if mask == 7 {
        Some("n-ne-se")
    } else if mask == 14 {
        Some("ne-se-s")
    } else if mask == 28 {
        Some("se-s-sw")
    } else if mask == 56 {
        Some("s-sw-nw")
    } else if mask == 49 {
        Some("sw-nw-n")
    } else if mask == 35 {
        Some("nw-n-ne")
    } else if mask == 59 {
        Some("s-sw-nw-n-ne")
    } else if mask == 55 {
        Some("sw-nw-n-ne-se")
    } else if mask == 63 {
        Some("s-sw-nw-n-ne-se")
    } else {
        None
    }
}

/// The index of the lowest bit set in `m` among bits `i..5`, counting from
/// `i`; 5 when none of them is set.
pub open spec fn lowest_bit(m: nat, i: nat) -> nat
    decreases 5 - i,
{
    if i >= 5 {
        5
    } else if m % 2 == 1 {
        i
    } else {
        lowest_bit(m / 2, i + 1)
    }
}

/// The direction of the lowest side in a run mask, at most 5.
pub fn lowest_direction(mask: u8) -> (r: usize)
    ensures
        r == lowest_bit(mask as nat, 0),
        r <= 5,
{
    let mut m: u8 = mask;
    let mut i: usize = 0;
    while i < 5 && m % 2 == 0
        invariant
            i <= 5,
            lowest_bit(m as nat, i as nat) == lowest_bit(mask as nat, 0),
        decreases 5 - i,
    {
        m = m / 2;
        i = i + 1;
    }
    i
}

/// The suffix of the sprite for a grass transition run: the run's own sprite
/// where there is one, else the single side of its lowest direction.
pub open spec fn run_suffix(mask: int) -> Seq<char> {
    match spec_green_run_suffix(mask) {
        Some(s) => s,
        None => direction_names()[lowest_bit(mask as nat, 0) as int],
    }
}

/// The file of a single-image sprite, by image key.
pub open spec fn spec_simple_sprite(image: Seq<char>) -> Option<Seq<char>> {
    if image == "grass-green"@ {
        Some("grass/green.png"@)
    } else if image == "grass-semi-dry"@ {
        Some("grass/semi-dry.png"@)
    } else if image == "grass-dry"@ {
        Some("grass/dry.png"@)
    } else if image == "leaf-litter"@ {
        Some("grass/leaf-litter.png"@)
    } else if image == "dirt"@ {
        Some("flat/dirt.png"@)
    } else if image == "stone-path"@ {
        Some("flat/stone-path.png"@)
    } else if image == "beach"@ {
        Some("sand/beach.png"@)
    } else if image == "hills-regular"@ {
        Some("hills/regular.png"@)
    } else if image == "hills-dry"@ {
        Some("hills/dry.png"@)
    } else if image == "mountains-single-1"@ {
        Some("mountains/basic.png"@)
    } else if image == "mountains-single-2"@ {
        Some("mountains/basic2.png"@)
    } else if image == "mountains-single-3"@ {
        Some("mountains/basic3.png"@)
    } else if image == "mountain-wall"@ {
        Some("mountains/basic-castle-n.png"@)
    } else if image == "swamp"@ {
        Some("swamp/water.png"@)
    } else if image == "swamp-mud"@ {
        Some("swamp/mud.png"@)
    } else if image == "ocean"@ {
        Some("water/ocean-A01.png"@)
    } else if image == "water"@ {
        Some("water/coast-tile.png"@)
    } else if image == "reef-gray"@ {
        Some("water/reef-gray-tile.png"@)
    } else if image == "castle-ground"@ {
        Some("castle/castle-tile.png"@)
    } else if image == "keep-ground"@ {
        Some("castle/keep-tile.png"@)
    } else if image == "sunken-cobbles"@ {
        Some("castle/aquatic-castle/cobbles.png"@)
    } else if image == "keep-cobbles"@ {
        Some("castle/cobbles-keep.png"@)
    } else if image == "aquatic-camp-floor"@ {
        Some("castle/aquatic-camp/floor.png"@)
    } else if image == "dwarven-castle-floor"@ {
        Some("castle/dwarven-castle-floor.png"@)
    } else if image == "dwarven-keep-floor"@ {
        Some("castle/dwarven-keep-floor.png"@)
    } else if image == "elven-ruin-ground"@ {
        Some("castle/elven-ruin/grounds.png"@)
    } else if image == "elven-ruin-keep"@ {
        Some("castle/elven-ruin/keep.png"@)
    } else if image == "road-desert"@ {
        Some("flat/desert-road.png"@)
    } else if image == "road-cobbles"@ {
        Some("flat/road.png"@)
    } else if image == "interior-wood-ruined"@ {
        Some("interior/wood-ruined.png"@)
    } else if image == "cave-floor"@ {
        Some("cave/floor6.png"@)
    } else if image == "lava"@ {
        Some("unwalkable/lava-A01.png"@)
    } else if image == "cave-wall"@ {
        Some("cave/wall-rough-tile.png"@)
    } else if image == "ancient-wall"@ {
        Some("walls/stone/ancient/wall-stone-tile.png"@)
    } else if image == "stone-wall"@ {
        Some("walls/stone/wall-stone-tile.png"@)
    } else if image == "encampment-tent"@ {
        Some("castle/encampment/tent.png"@)
    } else if image == "forest-mixed-1"@ || image == "forest-mixed-3"@ {
        Some("forest/mixed-summer.png"@)
    } else if image == "forest-mixed-2"@ {
        Some("forest/mixed-summer2.png"@)
    } else if image == "forest-summer-1"@ {
        Some("forest/deciduous-summer.png"@)
    } else if image == "forest-summer-2"@ {
        Some("forest/deciduous-summer2.png"@)
    } else if image == "forest-summer-3"@ {
        Some("forest/deciduous-summer3.png"@)
    } else if image == "forest-pine-1"@ {
        Some("forest/pine.png"@)
    } else if image == "forest-pine-2"@ {
        Some("forest/pine2.png"@)
    } else if image == "forest-pine-3"@ {
        Some("forest/pine3.png"@)
    } else if image == "forest-mixed-small"@ {
        Some("forest/mixed-summer-small.png"@)
    } else if image == "forest-summer-small"@ {
        Some("forest/deciduous-summer-small.png"@)
    } else if image == "forest-pine-small"@ {
        Some("forest/pine-small.png"@)
    } else if image == "forest-winter"@ {
        Some("forest/deciduous-winter.png"@)
    } else if image == "forest-winter-small"@ {
        Some("forest/deciduous-winter-small.png"@)
    } else if image == "forest-mixed-winter"@ {
        Some("forest/mixed-winter.png"@)
    } else if image == "forest-mixed-winter-small"@ {
        Some("forest/mixed-winter-small.png"@)
    } else if image == "great-tree"@ {
        Some("forest/great-tree.png"@)
    } else if image == "village-human"@ {
        Some("village/human.png"@)
    } else if image == "village-human-ruin"@ {
        Some("village/human-cottage-ruin.png"@)
    } else if image == "village-human-city-ruin"@ {
        Some("village/human-city-ruin.png"@)
    } else if image == "village-human-hills-ruin"@ {
        Some("village/human-hills-ruin.png"@)
    } else if image == "village-hills"@ {
        Some("village/human-hills.png"@)
    } else if image == "village-swamp"@ {
        Some("village/swampwater.png"@)
    } else if image == "village-elven"@ {
        Some("village/elven.png"@)
    } else if image == "village-windmill"@ {
        Some("misc/windmill-A01.png"@)
    } else if image == "village-hut"@ {
        Some("village/hut.png"@)
    } else if image == "village-log-cabin"@ {
        Some("village/log-cabin.png"@)
    } else if image == "village-camp"@ {
        Some("village/camp.png"@)
    } else if image == "wood-bridge-n-s"@ {
        Some("bridge/wood-n-s.png"@)
    } else if image == "wood-bridge-ne-sw"@ {
        Some("bridge/wood-ne-sw.png"@)
    } else if image == "wood-bridge-se-nw"@ {
        Some("bridge/wood-se-nw.png"@)
    } else if image == "wood-bridge-n-se-sw"@ {
        Some("bridge/wood-n-se-sw.png"@)
    } else if image == "wood-bridge-ne-s-nw"@ {
        Some("bridge/wood-ne-s-nw.png"@)
    } else if image == "wood-bridge-n-se"@ {
        Some("bridge/wood-n-se.png"@)
    } else if image == "wood-bridge-ne-s"@ {
        Some("bridge/wood-ne-s.png"@)
    } else if image == "wood-bridge-se-sw"@ {
        Some("bridge/wood-se-sw.png"@)
    } else if image == "wood-bridge-s-nw"@ {
        Some("bridge/wood-s-nw.png"@)
    } else if image == "wood-bridge-sw-n"@ {
        Some("bridge/wood-sw-n.png"@)
    } else if image == "wood-bridge-nw-ne"@ {
        Some("bridge/wood-nw-ne.png"@)
    } else if image == "stone-bridge-n-s"@ {
        Some("bridge/stonebridge-n-s-tile.png"@)
    } else if image == "stone-bridge-ne-sw"@ {
        Some("bridge/stonebridge-ne-sw-tile.png"@)
    } else if image == "stone-bridge-se-nw"@ {
        Some("bridge/stonebridge-se-nw-tile.png"@)
    } else if image == "flowers-mixed"@ || image == "flowers-farm"@ {
        Some("embellishments/flowers-mixed.png"@)
    } else if image == "mushrooms"@ {
        Some("embellishments/mushroom.png"@)
    } else if image == "stones"@ {
        Some("embellishments/stones-small.png"@)
    } else if image == "detritus"@ {
        Some("misc/detritus/liter.png"@)
    } else if image == "detritus-trash"@ {
        Some("misc/detritus/trashA-1.png"@)
    } else if image == "rubble"@ {
        Some("misc/rubble.png"@)
    } else if image == "water-flowers"@ {
        Some("embellishments/water-lilies-flower.png"@)
    } else if image == "water-lilies"@ {
        Some("embellishments/water-lilies.png"@)
    } else if image == "seashells"@ {
        Some("embellishments/seashells.png"@)
    } else if image == "kelp"@ {
        Some("water/seaweed/kelp-1.png"@)
    } else if image == "farm"@ {
        Some("embellishments/farm-veg-spring.png"@)
    } else if image == "windmill"@ {
        Some("misc/windmill-A01.png"@)
    } else if image == "campfire"@ {
        Some("misc/fire-A01.png"@)
    } else if image == "brazier"@ {
        Some("misc/brazier-embellishment.png"@)
    } else if image == "brazier-lit"@ {
        Some("misc/brazier-A01.png"@)
    } else if image == "wall-fire"@ {
        Some("walls/stone/flames/flames-tile.png"@)
    } else {
        None
    }
}

/// The file of a single-image sprite, by image key; `None` for an unknown key.
pub fn simple_sprite(image: &str) -> (r: Option<&'static str>)
    ensures
        match r {
            Some(path) => spec_simple_sprite(image@) == Some(path@),
            None => spec_simple_sprite(image@) is None,
        },
{
    let v = chars_of(image);
    if eq_str(&v, "grass-green") {
        Some("grass/green.png")
    } else if eq_str(&v, "grass-semi-dry") {
        Some("grass/semi-dry.png")
    } else if eq_str(&v, "grass-dry") {
        Some("grass/dry.png")
    } else if eq_str(&v, "leaf-litter") {
        Some("grass/leaf-litter.png")
    } else if eq_str(&v, "dirt") {
        Some("flat/dirt.png")
    } else if eq_str(&v, "stone-path") {
        Some("flat/stone-path.png")
    } else if eq_str(&v, "beach") {
        Some("sand/beach.png")
    } else if eq_str(&v, "hills-regular") {
        Some("hills/regular.png")
    } else if eq_str(&v, "hills-dry") {
        Some("hills/dry.png")
    } else if eq_str(&v, "mountains-single-1") {
        Some("mountains/basic.png")
    } else if eq_str(&v, "mountains-single-2") {
        Some("mountains/basic2.png")
    } else if eq_str(&v, "mountains-single-3") {
        Some("mountains/basic3.png")
    } else if eq_str(&v, "mountain-wall") {
        Some("mountains/basic-castle-n.png")
    } else if eq_str(&v, "swamp") {
        Some("swamp/water.png")
    } else if eq_str(&v, "swamp-mud") {
        Some("swamp/mud.png")
    } else if eq_str(&v, "ocean") {
        Some("water/ocean-A01.png")
    } else if eq_str(&v, "water") {
        Some("water/coast-tile.png")
    } else if eq_str(&v, "reef-gray") {
        Some("water/reef-gray-tile.png")
    } else if eq_str(&v, "castle-ground") {
        Some("castle/castle-tile.png")
    } else if eq_str(&v, "keep-ground") {
        Some("castle/keep-tile.png")
    } else if eq_str(&v, "sunken-cobbles") {
        Some("castle/aquatic-castle/cobbles.png")
    } else if eq_str(&v, "keep-cobbles") {
        Some("castle/cobbles-keep.png")
    } else if eq_str(&v, "aquatic-camp-floor") {
        Some("castle/aquatic-camp/floor.png")
    } else if eq_str(&v, "dwarven-castle-floor") {
        Some("castle/dwarven-castle-floor.png")
    } else if eq_str(&v, "dwarven-keep-floor") {
        Some("castle/dwarven-keep-floor.png")
    } else if eq_str(&v, "elven-ruin-ground") {
        Some("castle/elven-ruin/grounds.png")
    } else if eq_str(&v, "elven-ruin-keep") {
        Some("castle/elven-ruin/keep.png")
    } else if eq_str(&v, "road-desert") {
        Some("flat/desert-road.png")
    } else if eq_str(&v, "road-cobbles") {
        Some("flat/road.png")
    } else if eq_str(&v, "interior-wood-ruined") {
        Some("interior/wood-ruined.png")
    } else if eq_str(&v, "cave-floor") {
        Some("cave/floor6.png")
    } else if eq_str(&v, "lava") {
        Some("unwalkable/lava-A01.png")
    } else if eq_str(&v, "cave-wall") {
        Some("cave/wall-rough-tile.png")
    } else if eq_str(&v, "ancient-wall") {
        Some("walls/stone/ancient/wall-stone-tile.png")
    } else if eq_str(&v, "stone-wall") {
        Some("walls/stone/wall-stone-tile.png")
    } else if eq_str(&v, "encampment-tent") {
        Some("castle/encampment/tent.png")
    } else if eq_str(&v, "forest-mixed-1") || eq_str(&v, "forest-mixed-3") {
        Some("forest/mixed-summer.png")
    } else if eq_str(&v, "forest-mixed-2") {
        Some("forest/mixed-summer2.png")
    } else if eq_str(&v, "forest-summer-1") {
        Some("forest/deciduous-summer.png")
    } else if eq_str(&v, "forest-summer-2") {
        Some("forest/deciduous-summer2.png")
    } else if eq_str(&v, "forest-summer-3") {
        Some("forest/deciduous-summer3.png")
    } else if eq_str(&v, "forest-pine-1") {
        Some("forest/pine.png")
    } else if eq_str(&v, "forest-pine-2") {
        Some("forest/pine2.png")
    } else if eq_str(&v, "forest-pine-3") {
        Some("forest/pine3.png")
    } else if eq_str(&v, "forest-mixed-small") {
        Some("forest/mixed-summer-small.png")
    } else if eq_str(&v, "forest-summer-small") {
        Some("forest/deciduous-summer-small.png")
    } else if eq_str(&v, "forest-pine-small") {
        Some("forest/pine-small.png")
    } else if eq_str(&v, "forest-winter") {
        Some("forest/deciduous-winter.png")
    } else if eq_str(&v, "forest-winter-small") {
        Some("forest/deciduous-winter-small.png")
    } else if eq_str(&v, "forest-mixed-winter") {
        Some("forest/mixed-winter.png")
    } else if eq_str(&v, "forest-mixed-winter-small") {
        Some("forest/mixed-winter-small.png")
    } else if eq_str(&v, "great-tree") {
        Some("forest/great-tree.png")
    } else if eq_str(&v, "village-human") {
        Some("village/human.png")
    } else if eq_str(&v, "village-human-ruin") {
        Some("village/human-cottage-ruin.png")
    } else if eq_str(&v, "village-human-city-ruin") {
        Some("village/human-city-ruin.png")
    } else if eq_str(&v, "village-human-hills-ruin") {
        Some("village/human-hills-ruin.png")
    } else if eq_str(&v, "village-hills") {
        Some("village/human-hills.png")
    } else if eq_str(&v, "village-swamp") {
        Some("village/swampwater.png")
    } else if eq_str(&v, "village-elven") {
        Some("village/elven.png")
    } else if eq_str(&v, "village-windmill") {
        Some("misc/windmill-A01.png")
    } else if eq_str(&v, "village-hut") {
        Some("village/hut.png")
    } else if eq_str(&v, "village-log-cabin") {
        Some("village/log-cabin.png")
    } else if eq_str(&v, "village-camp") {
        Some("village/camp.png")
    } else if eq_str(&v, "wood-bridge-n-s") {
        Some("bridge/wood-n-s.png")
    } else if eq_str(&v, "wood-bridge-ne-sw") {
        Some("bridge/wood-ne-sw.png")
    } else if eq_str(&v, "wood-bridge-se-nw") {
        Some("bridge/wood-se-nw.png")
    } else if eq_str(&v, "wood-bridge-n-se-sw") {
        Some("bridge/wood-n-se-sw.png")
    } else if eq_str(&v, "wood-bridge-ne-s-nw") {
        Some("bridge/wood-ne-s-nw.png")
    } else if eq_str(&v, "wood-bridge-n-se") {
        Some("bridge/wood-n-se.png")
    } else if eq_str(&v, "wood-bridge-ne-s") {
        Some("bridge/wood-ne-s.png")
    } else if eq_str(&v, "wood-bridge-se-sw") {
        Some("bridge/wood-se-sw.png")
    } else if eq_str(&v, "wood-bridge-s-nw") {
        Some("bridge/wood-s-nw.png")
    } else if eq_str(&v, "wood-bridge-sw-n") {
        Some("bridge/wood-sw-n.png")
    } else if eq_str(&v, "wood-bridge-nw-ne") {
        Some("bridge/wood-nw-ne.png")
    } else if eq_str(&v, "stone-bridge-n-s") {
        Some("bridge/stonebridge-n-s-tile.png")
    } else if eq_str(&v, "stone-bridge-ne-sw") {
        Some("bridge/stonebridge-ne-sw-tile.png")
    } else if eq_str(&v, "stone-bridge-se-nw") {
        Some("bridge/stonebridge-se-nw-tile.png")
    } else if eq_str(&v, "flowers-mixed") || eq_str(&v, "flowers-farm") {
        Some("embellishments/flowers-mixed.png")
    } else if eq_str(&v, "mushrooms") {
        Some("embellishments/mushroom.png")
    } else if eq_str(&v, "stones") {
        Some("embellishments/stones-small.png")
    } else if eq_str(&v, "detritus") {
        Some("misc/detritus/liter.png")
    } else if eq_str(&v, "detritus-trash") {
        Some("misc/detritus/trashA-1.png")
    } else if eq_str(&v, "rubble") {
        Some("misc/rubble.png")
    } else if eq_str(&v, "water-flowers") {
        Some("embellishments/water-lilies-flower.png")
    } else if eq_str(&v, "water-lilies") {
        Some("embellishments/water-lilies.png")
    } else if eq_str(&v, "seashells") {
        Some("embellishments/seashells.png")
    } else if eq_str(&v, "kelp") {
        Some("water/seaweed/kelp-1.png")
    } else if eq_str(&v, "farm") {
        Some("embellishments/farm-veg-spring.png")
    } else if eq_str(&v, "windmill") {
        Some("misc/windmill-A01.png")
    } else if eq_str(&v, "campfire") {
        Some("misc/fire-A01.png")
    } else if eq_str(&v, "brazier") {
        Some("misc/brazier-embellishment.png")
    } else if eq_str(&v, "brazier-lit") {
        Some("misc/brazier-A01.png")
    } else if eq_str(&v, "wall-fire") {
        Some("walls/stone/flames/flames-tile.png")
    } else {
        None
    }
}

/// The file of one piece of a mountain range, by image key.
pub open spec fn spec_mountain_range_path(image: Seq<char>) -> Option<Seq<char>> {
    if image == "mountain-long-se-1"@ {
        Some("mountains/basic_range3_1.png"@)
    } else if image == "mountain-long-se-2"@ {
        Some("mountains/basic_range3_2.png"@)
    } else if image == "mountain-long-se-3"@ {
        Some("mountains/basic_range3_3.png"@)
    } else if image == "mountain-long-se-4"@ {
        Some("mountains/basic_range3_4.png"@)
    } else if image == "mountain-long-se-5"@ {
        Some("mountains/basic_range3_5.png"@)
    } else if image == "mountain-long-ne-1"@ {
        Some("mountains/basic_range4_1.png"@)
    } else if image == "mountain-long-ne-2"@ {
        Some("mountains/basic_range4_2.png"@)
    } else if image == "mountain-long-ne-3"@ {
        Some("mountains/basic_range4_3.png"@)
    } else if image == "mountain-long-ne-4"@ {
        Some("mountains/basic_range4_4.png"@)
    } else if image == "mountain-long-ne-5"@ {
        Some("mountains/basic_range4_5.png"@)
    } else if image == "mountain-range-se-1"@ {
        Some("mountains/basic_range1_1.png"@)
    } else if image == "mountain-range-se-2"@ {
        Some("mountains/basic_range1_2.png"@)
    } else if image == "mountain-range-se-3"@ {
        Some("mountains/basic_range1_3.png"@)
    } else if image == "mountain-range-ne-1"@ {
        Some("mountains/basic_range2_1.png"@)
    } else if image == "mountain-range-ne-2"@ {
        Some("mountains/basic_range2_2.png"@)
    } else if image == "mountain-range-ne-3"@ {
        Some("mountains/basic_range2_3.png"@)
    } else if image == "mountain-cluster-a-1"@ {
        Some("mountains/basic5_1.png"@)
    } else if image == "mountain-cluster-a-2"@ {
        Some("mountains/basic5_2.png"@)
    } else if image == "mountain-cluster-a-3"@ {
        Some("mountains/basic5_3.png"@)
    } else if image == "mountain-cluster-b-1"@ {
        Some("mountains/basic6_1.png"@)
    } else if image == "mountain-cluster-b-2"@ {
        Some("mountains/basic6_2.png"@)
    } else if image == "mountain-cluster-b-3"@ {
        Some("mountains/basic6_3.png"@)
    } else {
        None
    }
}

/// The file of one piece of a mountain range; `None` for an unknown key.
pub fn mountain_range_path(image: &str) -> (r: Option<&'static str>)
    ensures
        match r {
            Some(path) => spec_mountain_range_path(image@) == Some(path@),
            None => spec_mountain_range_path(image@) is None,
        },
{
    let v = chars_of(image);
    if eq_str(&v, "mountain-long-se-1") {
        Some("mountains/basic_range3_1.png")
    } else if eq_str(&v, "mountain-long-se-2") {
        Some("mountains/basic_range3_2.png")
    } else if eq_str(&v, "mountain-long-se-3") {
        Some("mountains/basic_range3_3.png")
    } else if eq_str(&v, "mountain-long-se-4") {
        Some("mountains/basic_range3_4.png")
    } else if eq_str(&v, "mountain-long-se-5") {
        Some("mountains/basic_range3_5.png")
    } else if eq_str(&v, "mountain-long-ne-1") {
        Some("mountains/basic_range4_1.png")
    } else if eq_str(&v, "mountain-long-ne-2") {
        Some("mountains/basic_range4_2.png")
    } else if eq_str(&v, "mountain-long-ne-3") {
        Some("mountains/basic_range4_3.png")
    } else if eq_str(&v, "mountain-long-ne-4") {
        Some("mountains/basic_range4_4.png")
    } else if eq_str(&v, "mountain-long-ne-5") {
        Some("mountains/basic_range4_5.png")
    } else if eq_str(&v, "mountain-range-se-1") {
        Some("mountains/basic_range1_1.png")
    } else if eq_str(&v, "mountain-range-se-2") {
        Some("mountains/basic_range1_2.png")
    } else if eq_str(&v, "mountain-range-se-3") {
        Some("mountains/basic_range1_3.png")
    } else if eq_str(&v, "mountain-range-ne-1") {
        Some("mountains/basic_range2_1.png")
    } else if eq_str(&v, "mountain-range-ne-2") {
        Some("mountains/basic_range2_2.png")
    } else if eq_str(&v, "mountain-range-ne-3") {
        Some("mountains/basic_range2_3.png")
    } else if eq_str(&v, "mountain-cluster-a-1") {
        Some("mountains/basic5_1.png")
    } else if eq_str(&v, "mountain-cluster-a-2") {
        Some("mountains/basic5_2.png")
    } else if eq_str(&v, "mountain-cluster-a-3") {
        Some("mountains/basic5_3.png")
    } else if eq_str(&v, "mountain-cluster-b-1") {
        Some("mountains/basic6_1.png")
    } else if eq_str(&v, "mountain-cluster-b-2") {
        Some("mountains/basic6_2.png")
    } else if eq_str(&v, "mountain-cluster-b-3") {
        Some("mountains/basic6_3.png")
    } else {
        None
    }
}

/// The file stem of a castle-wall image, by image key.
pub open spec fn spec_wall_stem(image: Seq<char>) -> Option<Seq<char>> {
    if image == "castle-convex"@ {
        Some("castle/castle-convex"@)
    } else if image == "castle-concave"@ {
        Some("castle/castle-concave"@)
    } else if image == "keep-convex"@ {
        Some("castle/keep-convex"@)
    } else if image == "keep-concave"@ {
        Some("castle/keep-concave"@)
    } else if image == "ruinkeep1-convex"@ {
        Some("castle/ruinkeep1-convex"@)
    } else if image == "ruinkeep1-concave"@ {
        Some("castle/ruinkeep1-concave"@)
    } else if image == "encampment-convex"@ {
        Some("castle/encampment/regular-convex"@)
    } else if image == "encampment-concave"@ {
        Some("castle/encampment/regular-concave"@)
    } else if image == "ruin-convex"@ {
        Some("castle/ruin-convex"@)
    } else if image == "ruin-concave"@ {
        Some("castle/ruin-concave"@)
    } else if image == "sunken-ruin-convex"@ {
        Some("castle/sunken-ruin-convex"@)
    } else if image == "sunken-ruin-concave"@ {
        Some("castle/sunken-ruin-concave"@)
    } else {
        None
    }
}

/// The file stem of a castle-wall image; `None` for an unknown key.
pub fn wall_stem(image: &str) -> (r: Option<&'static str>)
    ensures
        match r {
            Some(path) => spec_wall_stem(image@) == Some(path@),
            None => spec_wall_stem(image@) is None,
        },
{
    let v = chars_of(image);
    if eq_str(&v, "castle-convex") {
        Some("castle/castle-convex")
    } else if eq_str(&v, "castle-concave") {
        Some("castle/castle-concave")
    } else if eq_str(&v, "keep-convex") {
        Some("castle/keep-convex")
    } else if eq_str(&v, "keep-concave") {
        Some("castle/keep-concave")
    } else if eq_str(&v, "ruinkeep1-convex") {
        Some("castle/ruinkeep1-convex")
    } else if eq_str(&v, "ruinkeep1-concave") {
        Some("castle/ruinkeep1-concave")
    } else if eq_str(&v, "encampment-convex") {
        Some("castle/encampment/regular-convex")
    } else if eq_str(&v, "encampment-concave") {
        Some("castle/encampment/regular-concave")
    } else if eq_str(&v, "ruin-convex") {
        Some("castle/ruin-convex")
    } else if eq_str(&v, "ruin-concave") {
        Some("castle/ruin-concave")
    } else if eq_str(&v, "sunken-ruin-convex") {
        Some("castle/sunken-ruin-convex")
    } else if eq_str(&v, "sunken-ruin-concave") {
        Some("castle/sunken-ruin-concave")
    } else {
        None
    }
}

/// The file stem of a transition image, by image key.
pub open spec fn spec_transition_stem(image: Seq<char>) -> Option<Seq<char>> {
    if image == "transition-beach"@ {
        Some("sand/beach"@)
    } else if image == "transition-grass-dry"@ {
        Some("grass/dry"@)
    } else if image == "transition-grass-semi-dry"@ {
        Some("grass/semi-dry"@)
    } else if image == "transition-grass-green"@ {
        Some("grass/green"@)
    } else if image == "transition-leaf-litter"@ {
        Some("grass/leaf-litter"@)
    } else if image == "transition-dirt"@ {
        Some("flat/dirt"@)
    } else if image == "transition-stone-path"@ {
        Some("flat/stone-path"@)
    } else if image == "transition-hills"@ {
        Some("hills/regular"@)
    } else if image == "shore"@ {
        Some("hills/dry-to-water"@)
    } else if image == "transition-swamp"@ {
        Some("swamp/water"@)
    } else if image == "transition-ocean"@ {
        Some("water/ocean-A01"@)
    } else {
        None
    }
}

/// The file stem of a transition image; `None` for an unknown key.
pub fn transition_stem(image: &str) -> (r: Option<&'static str>)
    ensures
        match r {
            Some(path) => spec_transition_stem(image@) == Some(path@),
            None => spec_transition_stem(image@) is None,
        },
{
    let v = chars_of(image);
    if eq_str(&v, "transition-beach") {
        Some("sand/beach")
    } else if eq_str(&v, "transition-grass-dry") {
        Some("grass/dry")
    } else if eq_str(&v, "transition-grass-semi-dry") {
        Some("grass/semi-dry")
    } else if eq_str(&v, "transition-grass-green") {
        Some("grass/green")
    } else if eq_str(&v, "transition-leaf-litter") {
        Some("grass/leaf-litter")
    } else if eq_str(&v, "transition-dirt") {
        Some("flat/dirt")
    } else if eq_str(&v, "transition-stone-path") {
        Some("flat/stone-path")
    } else if eq_str(&v, "transition-hills") {
        Some("hills/regular")
    } else if eq_str(&v, "shore") {
        Some("hills/dry-to-water")
    } else if eq_str(&v, "transition-swamp") {
        Some("swamp/water")
    } else if eq_str(&v, "transition-ocean") {
        Some("water/ocean-A01")
    } else {
        None
    }
}

/// The sprite file of a visual tile, relative to the terrain images; `None`
/// for a key or a direction that has no sprite.
pub open spec fn spec_sprite_path(tile: VisualTile) -> Option<Seq<char>> {
    match tile.kind {
        VisualKind::Edge(i) => match spec_direction_name(i as int) {
            Some(d) => Some("water/coast-tropical-A01-"@ + d + ".png"@),
            None => None,
        },
        VisualKind::Transition(i) => match (
            spec_transition_stem(tile.image@),
            spec_direction_name(i as int),
        ) {
            (Some(stem), Some(d)) => Some(stem + "-"@ + d + ".png"@),
            _ => None,
        },
        VisualKind::TransitionRun(mask) => Some("grass/green-"@ + run_suffix(mask as int) + ".png"@),
        VisualKind::CastleConvex(c) => wall_path(tile.image@, c as int),
        VisualKind::CastleConcave(c) => wall_path(tile.image@, c as int),
        VisualKind::KeepConvex(c) => wall_path(tile.image@, c as int),
        VisualKind::KeepConcave(c) => wall_path(tile.image@, c as int),
        VisualKind::BridgeEnd(i) => match spec_direction_name(i as int) {
            Some(d) => Some(
                if tile.image@ == "stone-bridge-end"@ {
                    "bridge/stonebridge-"@ + d + ".png"@
                } else if tile.image@ == "wood-bridge-dock"@ {
                    "bridge/wood-dock-"@ + d + ".png"@
                } else {
                    "bridge/wood-end-"@ + d + ".png"@
                },
            ),
            None => None,
        },
        VisualKind::MountainRange => spec_mountain_range_path(tile.image@),
        _ => spec_simple_sprite(tile.image@),
    }
}

/// The sprite file of one corner of a castle wall.
pub open spec fn wall_path(image: Seq<char>, corner: int) -> Option<Seq<char>> {
    match spec_wall_stem(image) {
        Some(stem) => Some(stem + "-"@ + spec_castle_corner(corner) + ".png"@),
        None => None,
    }
}

/// `stem`, a hyphen, `suffix` and `.png`.
fn sprite_file(stem: &str, suffix: &str) -> (r: String)
    ensures
        r@ == stem@ + "-"@ + suffix@ + ".png"@,
{
    let a = concat(stem, "-");
    let b = concat(a.as_str(), suffix);
    concat(b.as_str(), ".png")
}

/// `prefix`, `suffix` and `.png`.
fn prefixed_file(prefix: &str, suffix: &str) -> (r: String)
    ensures
        r@ == prefix@ + suffix@ + ".png"@,
{
    let a = concat(prefix, suffix);
    concat(a.as_str(), ".png")
}

/// The sprite file of a visual tile, relative to the terrain images.
pub fn sprite_path(tile: &VisualTile) -> (r: Option<String>)
    ensures
        match r {
            Some(path) => spec_sprite_path(*tile) == Some(path@),
            None => spec_sprite_path(*tile) is None,
        },
{
    match tile.kind {
        VisualKind::Edge(index) => match direction_name(index) {
            Some(d) => Some(prefixed_file("water/coast-tropical-A01-", d)),
            None => None,
        },
        VisualKind::Transition(index) => match transition_stem(tile.image) {
            Some(stem) => match direction_name(index) {
                Some(d) => Some(sprite_file(stem, d)),
                None => None,
            },
            None => None,
        },
        VisualKind::TransitionRun(mask) => {
            let suffix = match green_run_suffix(mask) {
                Some(s) => s,
                None => {
                    let low = lowest_direction(mask);
                    match direction_name(low) {
                        Some(d) => d,
                        None => "nw",
                    }
                },
            };
            Some(prefixed_file("grass/green-", suffix))
        },
        VisualKind::CastleConvex(corner)
        | VisualKind::CastleConcave(corner)
        | VisualKind::KeepConvex(corner)
        | VisualKind::KeepConcave(corner) => match wall_stem(tile.image) {
            Some(stem) => match castle_corner(corner) {
                Some(c) => Some(sprite_file(stem, c)),
                None => None,
            },
            None => None,
        },
        VisualKind::BridgeEnd(index) => match direction_name(index) {
            Some(d) => {
                let v = chars_of(tile.image);
                if eq_str(&v, "stone-bridge-end") {
                    Some(prefixed_file("bridge/stonebridge-", d))
                } else if eq_str(&v, "wood-bridge-dock") {
                    Some(prefixed_file("bridge/wood-dock-", d))
                } else {
                    Some(prefixed_file("bridge/wood-end-", d))
                }
            },
            None => None,
        },
        VisualKind::MountainRange => match mountain_range_path(tile.image) {
            Some(path) => Some(path.to_owned()),
            None => None,
        },
        _ => match simple_sprite(tile.image) {
            Some(path) => Some(path.to_owned()),
            None => None,
        },
    }
}


/// The corner of a castle-wall tile, if it is one.
pub open spec fn spec_castle_wall_corner(kind: VisualKind) -> Option<usize> {
    match kind {
        VisualKind::CastleConvex(c) => Some(c),
        VisualKind::CastleConcave(c) => Some(c),
        VisualKind::KeepConvex(c) => Some(c),
        VisualKind::KeepConcave(c) => Some(c),
        _ => None,
    }
}

/// The corner of a castle-wall tile, if it is one.
pub fn castle_wall_corner(kind: VisualKind) -> (r: Option<usize>)
    ensures
        r == spec_castle_wall_corner(kind),
{
    match kind {
        VisualKind::CastleConvex(c) | VisualKind::CastleConcave(c) | VisualKind::KeepConvex(c)
        | VisualKind::KeepConcave(c) => Some(c),
        _ => None,
    }
}

/// `value` cut to `max_chars` characters, the last one an ellipsis, where
/// it is longer.
pub open spec fn spec_ellipsize(value: Seq<char>, max_chars: int) -> Seq<char> {
    if value.len() <= max_chars {
        value
    } else {
        value.take(max_chars - 1).push('\u{2026}')
    }
}

/// A label cut to `max_chars` characters, ending in an ellipsis where it
/// was longer.
pub fn ellipsize(value: &str, max_chars: usize) -> (r: String)
    requires
        max_chars > 0 || value@.len() == 0,
    ensures
        r@ == spec_ellipsize(value@, max_chars as int),
{
    let v = chars_of(value);
    if v.len() <= max_chars {
        return String::from_str(value);
    }
    let mut cut = slice_chars(&v, 0, max_chars - 1);
    cut.push('\u{2026}');
    string_of(&cut)
}
} // verus!
