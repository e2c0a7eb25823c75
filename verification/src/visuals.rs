//! The visual layers of a whole map, in drawing order.
//!
//! `build_visuals` turns every cell of a game map into the images that draw
//! it: the ground, the overlay, the transitions towards higher neighbours,
//! the wooden bridges bent along their neighbours, the mountain ranges, the
//! castle walls and what the terrain rules place. All of it is then ordered
//! by layer and, within a layer, by drawing depth.
use vstd::prelude::*;
use crate::map::spec_raw;
use crate::world::WorldMap;
use crate::hex::Position;
use crate::terrain::{
    base_image, base_overlay_image, mountain_single_image, neighbors, overlay_image, overlay_layer,
    pick3, rule_managed_base, spec_base_image, spec_is_water, spec_overlay_image,
    spec_overlay_layer, spec_rule_managed_base, spec_terrain_neighbors, spec_transition_image,
    spec_transition_priority, spec_visual_codes, transition_image, transition_priority, variant,
    visual_codes, is_water, VisualKind, VisualTile, bridge_axis, spec_bridge_axis,
    spec_wood_bridge_image, wood_bridge_image, castle_wall_family, is_castle, is_keep,
    is_raised_keep, spec_castle_wall_family, spec_is_castle, spec_is_keep, spec_is_raised_keep,
};
use crate::terrain::{
    depth_defined, direction, image_number, range_anchor, range_base_rows, rfind, spec_direction,
    spec_hex_screen_y, spec_range_anchor, spec_visual_depth, spec_wall_anchor, wall_anchor,
};
use crate::terrain_rules::{compose, placed_view, spec_compose, PlacedImage, PlacedSpec, TerrainRule};
use crate::sorting::{
    items_of, key_le, lemma_sorted_items_in_order, lemma_sorted_map_items, sort_by_key, sorted_by_key,
};
use crate::text::{
    chars_of, eq_str, parse_unsigned_chars, slice_chars, starts_with, starts_with_str,
};

verus! {

/// The mathematical form of a visual tile.
pub struct TileSpec {
    pub position: Position,
    pub image: Seq<char>,
    pub kind: VisualKind,
    pub layer: int,
}

pub open spec fn tile(position: Position, image: Seq<char>, kind: VisualKind, layer: int) -> TileSpec {
    TileSpec { position, image, kind, layer }
}

pub open spec fn tile_view(t: VisualTile) -> TileSpec {
    TileSpec { position: t.position, image: t.image@, kind: t.kind, layer: t.layer as int }
}

pub open spec fn tiles_view(v: Seq<VisualTile>) -> Seq<TileSpec> {
    v.map_values(|t: VisualTile| tile_view(t))
}

/// A map small enough that every position near it, and the arithmetic of
/// drawing it, stays inside `i64`.
pub open spec fn visuals_fit(m: WorldMap) -> bool {
    m.width <= 0x0080_0000_0000_0000 && m.height <= 0x0080_0000_0000_0000
}

/// A position on, or at most a few hexes beside, a map that fits.
pub open spec fn near_map(p: Position) -> bool {
    -8 <= p.x <= 0x0080_0000_0000_0008 && -8 <= p.y <= 0x0080_0000_0000_0008
}

/// The code of the cell at `p`, or `fallback` off the map.
pub open spec fn code_or(m: WorldMap, p: Position, fallback: Seq<char>) -> Seq<char> {
    match spec_raw(m, p) {
        Ok(code) => code,
        Err(_) => fallback,
    }
}

fn push_tile(out: &mut Vec<VisualTile>, t: VisualTile)
    ensures
        tiles_view(final(out)@) == tiles_view(old(out)@).push(tile_view(t)),
{
    let ghost prev = out@;
    out.push(t);
    assert(tiles_view(out@) =~= tiles_view(prev).push(tile_view(t)));
}

// ---------------------------------------------------------------------------
// The first pass: ground, overlay and transitions of each cell
// ---------------------------------------------------------------------------
/// Shallow water, which every other ground meets with a shore.
pub open spec fn is_shallow(base: Seq<char>) -> bool {
    base == "Ww"@ || base == "Wwf"@ || base == "Wwg"@
}

/// The ground of a cell, unless the terrain rules draw it.
pub open spec fn ground_tiles(p: Position, base: Seq<char>) -> Seq<TileSpec> {
    if spec_rule_managed_base(base) {
        seq![]
    } else if base == "Mm"@ {
        seq![
            tile(
                p,
                pick3(variant(p), "mountains-single-1"@, "mountains-single-2"@, "mountains-single-3"@),
                VisualKind::Base,
                8,
            ),
        ]
    } else {
        seq![tile(p, spec_base_image(base), VisualKind::Base, -1000)]
    }
}

/// A neighbour next to which a forest is drawn small: water, a castle, a
/// keep, a mountain or a village.
pub open spec fn hard_edge(m: WorldMap, n: Position) -> bool {
    match spec_raw(m, n) {
        Ok(code) => {
            let base = spec_visual_codes(code).0;
            let overlay = spec_visual_codes(code).1;
            spec_is_water(base) || starts_with(base, "C"@) || starts_with(base, "K"@) || starts_with(
                base,
                "M"@,
            ) || starts_with(overlay, "V"@)
        },
        Err(_) => false,
    }
}

/// Whether a forest overlay at `p` is drawn small.
pub open spec fn spec_forest_needs_small(m: WorldMap, p: Position, overlay: Seq<char>) -> bool {
    starts_with(overlay, "F"@) && exists|d: int|
        0 <= d < 6 && hard_edge(m, #[trigger] spec_terrain_neighbors(p)[d])
}

/// The overlay of a cell; bridges are laid out separately.
pub open spec fn overlay_tiles(m: WorldMap, p: Position, overlay: Seq<char>) -> Seq<TileSpec> {
    if starts_with(overlay, "B"@) {
        seq![]
    } else {
        match spec_overlay_image(overlay, p, spec_forest_needs_small(m, p, overlay)) {
            Some(image) => seq![tile(p, image, VisualKind::Overlay, spec_overlay_layer(overlay))],
            None => seq![],
        }
    }
}

/// The image that a base adds on its ground: the tent of an encampment keep.
pub open spec fn extra_tiles(p: Position, base: Seq<char>) -> Seq<TileSpec> {
    if base == "Ke"@ {
        seq![tile(p, "encampment-tent"@, VisualKind::Overlay, 0)]
    } else {
        seq![]
    }
}

/// The base of the neighbour in direction `d`, if it is on the map.
pub open spec fn neighbour_base(m: WorldMap, p: Position, d: int) -> Option<Seq<char>> {
    match spec_raw(m, spec_terrain_neighbors(p)[d]) {
        Ok(code) => Some(spec_visual_codes(code).0),
        Err(_) => None,
    }
}

/// Whether the cell gives way to the neighbour in direction `d`, and with
/// which transition image.
pub open spec fn gives_way(m: WorldMap, p: Position, base: Seq<char>, d: int) -> Option<Seq<char>> {
    match neighbour_base(m, p, d) {
        None => None,
        Some(nb) => if !spec_is_water(base) && is_shallow(nb) {
            None
        } else if is_shallow(base) && !spec_is_water(nb) {
            None
        } else if spec_transition_priority(nb) > spec_transition_priority(base) {
            spec_transition_image(nb)
        } else {
            None
        },
    }
}

/// The transition tile towards direction `d`: a shore (or beach) drawn on
/// the shallow-water neighbour, or the neighbour's transition drawn on this
/// cell; deep water and green grass are drawn elsewhere.
pub open spec fn edge_tile(m: WorldMap, p: Position, base: Seq<char>, d: int) -> Seq<TileSpec> {
    match neighbour_base(m, p, d) {
        None => seq![],
        Some(nb) => if !spec_is_water(base) && is_shallow(nb) {
            seq![
                tile(
                    spec_terrain_neighbors(p)[d],
                    if base == "Ds"@ { "transition-beach"@ } else { "shore"@ },
                    VisualKind::Transition(((d + 3) % 6) as usize),
                    -482,
                ),
            ]
        } else {
            match gives_way(m, p, base, d) {
                Some(image) => if image == "transition-ocean"@ || image == "transition-grass-green"@ {
                    seq![]
                } else {
                    seq![
                        tile(
                            p,
                            image,
                            VisualKind::Transition(d as usize),
                            -400 + spec_transition_priority(nb),
                        ),
                    ]
                },
                None => seq![],
            }
        },
    }
}

/// The transition tiles towards the first `k` directions.
pub open spec fn edge_tiles(m: WorldMap, p: Position, base: Seq<char>, k: nat) -> Seq<TileSpec>
    decreases k,
{
    if k == 0 {
        seq![]
    } else {
        edge_tiles(m, p, base, (k - 1) as nat) + edge_tile(m, p, base, k - 1)
    }
}

/// The bit of direction `d` in a run mask.
pub open spec fn bit(d: int) -> int {
    if d == 0 {
        1
    } else if d == 1 {
        2
    } else if d == 2 {
        4
    } else if d == 3 {
        8
    } else if d == 4 {
        16
    } else {
        32
    }
}

/// Two to the power `k`.
pub open spec fn pow2(k: nat) -> int
    decreases k,
{
    if k == 0 {
        1
    } else {
        2 * pow2((k - 1) as nat)
    }
}

/// The sides among the first `k` where the cell gives way to green grass.
pub open spec fn green_mask(m: WorldMap, p: Position, base: Seq<char>, k: nat) -> int
    decreases k,
{
    if k == 0 {
        0
    } else {
        green_mask(m, p, base, (k - 1) as nat) + if gives_way(m, p, base, k - 1) == Some(
            "transition-grass-green"@,
        ) {
            bit(k - 1)
        } else {
            0
        }
    }
}

/// The green grass transitions of a cell, gathered into one run.
pub open spec fn run_tiles(m: WorldMap, p: Position, base: Seq<char>) -> Seq<TileSpec> {
    let mask = green_mask(m, p, base, 6);
    if mask != 0 {
        seq![
            tile(
                p,
                "transition-grass-green"@,
                VisualKind::TransitionRun(mask as u8),
                -400 + spec_transition_priority("Gg"@),
            ),
        ]
    } else {
        seq![]
    }
}

/// What the first pass draws for the cell at `p`.
pub open spec fn cell_visuals(m: WorldMap, p: Position) -> Seq<TileSpec> {
    let code = code_or(m, p, "Gg"@);
    let base = spec_visual_codes(code).0;
    let overlay = spec_visual_codes(code).1;
    ground_tiles(p, base) + overlay_tiles(m, p, overlay) + extra_tiles(p, base) + edge_tiles(
        m,
        p,
        base,
        6,
    ) + run_tiles(m, p, base)
}

/// The tiles of the cells `1..=n` of row `y`, left to right.
pub open spec fn row_tiles(f: spec_fn(Position) -> Seq<TileSpec>, y: int, n: nat) -> Seq<TileSpec>
    decreases n,
{
    if n == 0 {
        seq![]
    } else {
        row_tiles(f, y, (n - 1) as nat) + f(Position { x: n as i64, y: y as i64 })
    }
}

/// The tiles of every cell of rows `1..=n` of a map, row by row.
pub open spec fn grid_tiles(f: spec_fn(Position) -> Seq<TileSpec>, width: nat, n: nat) -> Seq<
    TileSpec,
>
    decreases n,
{
    if n == 0 {
        seq![]
    } else {
        grid_tiles(f, width, (n - 1) as nat) + row_tiles(f, n as int, width)
    }
}

fn hard_edge_exec(map: &WorldMap, n: Position) -> (r: bool)
    ensures
        r == hard_edge(*map, n),
{
    match map.raw(n) {
        Ok(code) => {
            let (base, overlay) = visual_codes(code);
            let b = chars_of(base);
            let o = chars_of(overlay);
            is_water(base) || starts_with_str(&b, "C") || starts_with_str(&b, "K")
                || starts_with_str(&b, "M") || starts_with_str(&o, "V")
        },
        Err(_) => false,
    }
}

/// Whether a forest overlay is drawn small: it is next to water, a castle, a
/// keep, a mountain or a village.
pub fn forest_needs_small(map: &WorldMap, position: Position, overlay: &str) -> (r: bool)
    requires
        near_map(position),
    ensures
        r == spec_forest_needs_small(*map, position, overlay@),
{
    let o = chars_of(overlay);
    if !starts_with_str(&o, "F") {
        return false;
    }
    let around = neighbors(position);
    let mut d: usize = 0;
    while d < 6
        invariant
            d <= 6,
            around@ == spec_terrain_neighbors(position),
            starts_with(overlay@, "F"@),
            forall|j: int| 0 <= j < d ==> !hard_edge(*map, #[trigger] spec_terrain_neighbors(position)[j]),
        decreases 6 - d,
    {
        if hard_edge_exec(map, around[d]) {
            assert(hard_edge(*map, spec_terrain_neighbors(position)[d as int]));
            return true;
        }
        d = d + 1;
    }
    false
}

fn neighbour_base_exec<'a>(map: &'a WorldMap, around: &[Position; 6], d: usize) -> (r: Option<&'a str>)
    requires
        d < 6,
    ensures
        match r {
            Some(b) => neighbour_base_at(*map, around@[d as int]) == Some(b@),
            None => neighbour_base_at(*map, around@[d as int]) is None,
        },
{
    match map.raw(around[d]) {
        Ok(code) => Some(visual_codes(code).0),
        Err(_) => None,
    }
}

/// The base at a position, if it is on the map.
pub open spec fn neighbour_base_at(m: WorldMap, n: Position) -> Option<Seq<char>> {
    match spec_raw(m, n) {
        Ok(code) => Some(spec_visual_codes(code).0),
        Err(_) => None,
    }
}

fn shallow_exec(base: &str) -> (r: bool)
    ensures
        r == is_shallow(base@),
{
    let b = chars_of(base);
    eq_str(&b, "Ww") || eq_str(&b, "Wwf") || eq_str(&b, "Wwg")
}

fn bit_exec(d: usize) -> (r: u8)
    requires
        d < 6,
    ensures
        r == bit(d as int),
{
    if d == 0 {
        1
    } else if d == 1 {
        2
    } else if d == 2 {
        4
    } else if d == 3 {
        8
    } else if d == 4 {
        16
    } else {
        32
    }
}

/// Appends the transition tile towards direction `d`, if any, and tells
/// whether the cell gives way to green grass there.
fn push_edge(
    map: &WorldMap,
    position: Position,
    base: &str,
    around: &[Position; 6],
    d: usize,
    out: &mut Vec<VisualTile>,
) -> (green: bool)
    requires
        d < 6,
        around@ == spec_terrain_neighbors(position),
    ensures
        tiles_view(final(out)@) == tiles_view(old(out)@) + edge_tile(*map, position, base@, d as int),
        green == (gives_way(*map, position, base@, d as int) == Some("transition-grass-green"@)),
{
    let ghost before = tiles_view(out@);
    assert(neighbour_base(*map, position, d as int) == neighbour_base_at(*map, around@[d as int]));
    let nb = match neighbour_base_exec(map, around, d) {
        None => {
            return false;
        },
        Some(nb) => nb,
    };
    let water = is_water(base);
    if !water && shallow_exec(nb) {
        let c = chars_of(base);
        let image = if eq_str(&c, "Ds") {
            "transition-beach"
        } else {
            "shore"
        };
        push_tile(out, VisualTile {
            position: around[d],
            image,
            kind: VisualKind::Transition((d + 3) % 6),
            layer: -482,
        });
        return false;
    }
    if shallow_exec(base) && !is_water(nb) {
        return false;
    }
    let np = transition_priority(nb);
    if np <= transition_priority(base) {
        return false;
    }
    let image = match transition_image(nb) {
        Some(image) => image,
        None => {
            return false;
        },
    };
    let iv = chars_of(image);
    if eq_str(&iv, "transition-ocean") {
        proof {
            reveal_strlit("transition-ocean");
            reveal_strlit("transition-grass-green");
            assert("transition-ocean"@.len() != "transition-grass-green"@.len());
            assert(image@ != "transition-grass-green"@);
        }
        return false;
    }
    if eq_str(&iv, "transition-grass-green") {
        return true;
    }
    push_tile(out, VisualTile { position, image, kind: VisualKind::Transition(d), layer: -400 + np });
    false
}

/// Appends the ground, the overlay and the extra image of one cell.
fn push_cell_head(
    map: &WorldMap,
    position: Position,
    base: &str,
    overlay: &str,
    out: &mut Vec<VisualTile>,
)
    requires
        near_map(position),
    ensures
        tiles_view(final(out)@) == tiles_view(old(out)@) + ground_tiles(position, base@)
            + overlay_tiles(*map, position, overlay@) + extra_tiles(position, base@),
{
    let ghost start = tiles_view(out@);
    let b = chars_of(base);
    let o = chars_of(overlay);
    if !rule_managed_base(base) {
        let mountain = eq_str(&b, "Mm");
        let image = if mountain {
            mountain_single_image(position)
        } else {
            base_image(base)
        };
        push_tile(out, VisualTile {
            position,
            image,
            kind: VisualKind::Base,
            layer: if mountain { 8 } else { -1000 },
        });
    }
    assert(tiles_view(out@) == start + ground_tiles(position, base@));
    let ghost after_ground = tiles_view(out@);
    if !starts_with_str(&o, "B") {
        let small = forest_needs_small(map, position, overlay);
        match overlay_image(overlay, position, small) {
            Some(image) => {
                push_tile(out, VisualTile {
                    position,
                    image,
                    kind: VisualKind::Overlay,
                    layer: overlay_layer(overlay),
                });
            },
            None => {},
        }
    }
    assert(tiles_view(out@) == after_ground + overlay_tiles(*map, position, overlay@));
    let ghost after_overlay = tiles_view(out@);
    match base_overlay_image(base) {
        Some(image) => {
            push_tile(out, VisualTile { position, image, kind: VisualKind::Overlay, layer: 0 });
        },
        None => {},
    }
    assert(tiles_view(out@) == after_overlay + extra_tiles(position, base@));
}

/// Appends what the first pass draws for one cell.
fn push_cell_visuals(map: &WorldMap, position: Position, out: &mut Vec<VisualTile>)
    requires
        near_map(position),
    ensures
        tiles_view(final(out)@) == tiles_view(old(out)@) + cell_visuals(*map, position),
{
    let ghost start = tiles_view(out@);
    let code = match map.raw(position) {
        Ok(c) => c,
        Err(_) => "Gg",
    };
    let (base, overlay) = visual_codes(code);
    let ghost base_s = base@;
    assert(base_s == spec_visual_codes(code_or(*map, position, "Gg"@)).0);
    assert(overlay@ == spec_visual_codes(code_or(*map, position, "Gg"@)).1);
    push_cell_head(map, position, base, overlay, out);
    let ghost after_head = tiles_view(out@);
    let around = neighbors(position);
    let mut green_run: u8 = 0;
    let mut d: usize = 0;
    while d < 6
        invariant
            d <= 6,
            around@ == spec_terrain_neighbors(position),
            base@ == base_s,
            green_run == green_mask(*map, position, base_s, d as nat),
            0 <= green_mask(*map, position, base_s, d as nat) < pow2(d as nat),
            tiles_view(out@) == after_head + edge_tiles(*map, position, base_s, d as nat),
        decreases 6 - d,
    {
        let green = push_edge(map, position, base, &around, d, out);
        assert(pow2((d + 1) as nat) == 2 * pow2(d as nat));
        assert(bit(d as int) == pow2(d as nat)) by {
            reveal_with_fuel(pow2, 6);
        }
        assert(pow2(6) == 64) by {
            reveal_with_fuel(pow2, 7);
        }
        if green {
            green_run = green_run + bit_exec(d);
        }
        d = d + 1;
    }
    let ghost after_edges = tiles_view(out@);
    if green_run != 0 {
        push_tile(out, VisualTile {
            position,
            image: "transition-grass-green",
            kind: VisualKind::TransitionRun(green_run),
            layer: -400 + transition_priority("Gg"),
        });
    }
    assert(tiles_view(out@) == after_edges + run_tiles(*map, position, base_s));
    assert(tiles_view(out@) =~= start + cell_visuals(*map, position));
}


/// Whether the cells `1..=width` x `1..=height` of a map that fits all lie
/// near it.
proof fn lemma_cells_near(m: WorldMap, x: i64, y: i64)
    requires
        visuals_fit(m),
        1 <= x <= m.width,
        1 <= y <= m.height,
    ensures
        near_map(Position { x, y }),
{
}

/// The first pass over the whole map, row by row: ground, overlay and
/// transitions of every cell.
pub fn first_pass(map: &WorldMap) -> (r: Vec<VisualTile>)
    requires
        visuals_fit(*map),
    ensures
        tiles_view(r@) == grid_tiles(
            |p: Position| cell_visuals(*map, p),
            map.width as nat,
            map.height as nat,
        ),
{
    let ghost f = |p: Position| cell_visuals(*map, p);
    let mut out: Vec<VisualTile> = Vec::new();
    let width = map.width as i64;
    let height = map.height as i64;
    let mut y: i64 = 1;
    while y <= height
        invariant
            1 <= y <= height + 1,
            visuals_fit(*map),
            width == map.width,
            height == map.height,
            f == (|p: Position| cell_visuals(*map, p)),
            tiles_view(out@) == grid_tiles(f, map.width as nat, (y - 1) as nat),
        decreases height + 1 - y,
    {
        let ghost row_start = tiles_view(out@);
        let mut x: i64 = 1;
        while x <= width
            invariant
                1 <= x <= width + 1,
                1 <= y <= height,
                visuals_fit(*map),
                width == map.width,
                height == map.height,
                f == (|p: Position| cell_visuals(*map, p)),
                tiles_view(out@) == row_start + row_tiles(f, y as int, (x - 1) as nat),
            decreases width + 1 - x,
        {
            let ghost before = tiles_view(out@);
            push_cell_visuals(map, Position { x, y }, &mut out);
            assert(tiles_view(out@) =~= row_start + row_tiles(f, y as int, x as nat));
            x = x + 1;
        }
        assert(tiles_view(out@) =~= grid_tiles(f, map.width as nat, y as nat));
        y = y + 1;
    }
    out
}

// ---------------------------------------------------------------------------
// Wooden bridges
// ---------------------------------------------------------------------------
/// Whether the cell at `n` holds a wooden bridge.
pub open spec fn bridge_at(m: WorldMap, n: Position) -> bool {
    match spec_raw(m, n) {
        Ok(code) => starts_with(spec_visual_codes(code).1, "Bw"@),
        Err(_) => false,
    }
}

/// Whether the cell at `n` is water.
pub open spec fn water_at(m: WorldMap, n: Position) -> bool {
    match spec_raw(m, n) {
        Ok(code) => spec_is_water(spec_visual_codes(code).0),
        Err(_) => false,
    }
}

/// Which neighbours of `p` hold wooden bridges, N to NW.
pub open spec fn adjacent_bridges(m: WorldMap, p: Position) -> Seq<bool> {
    Seq::new(6, |d: int| bridge_at(m, spec_terrain_neighbors(p)[d]))
}

/// How many sides apart two directions are.
pub open spec fn side_distance(axis: int, d: int) -> int {
    let delta = if axis >= d { axis - d } else { d - axis };
    if delta <= 6 - delta { delta } else { 6 - delta }
}

/// One step of bending a bridge: where a neighbouring bridge touches a side
/// that is not an exit, the nearer end of the axis moves to that side (it
/// stays where a bridge lies beyond it too).
pub open spec fn bend_step(adj: Seq<bool>, first: int, second: int, c: Seq<bool>, d: int) -> Seq<bool> {
    if !adj[d] || c[d] {
        c
    } else {
        let displaced = if side_distance(first, d) < side_distance(second, d) {
            first
        } else {
            second
        };
        let kept = if !adj[displaced] {
            c.update(displaced, false)
        } else {
            c
        };
        kept.update(d, true)
    }
}

/// The connected sides of a bridge with axis `first`-`second` after the
/// first `k` directions have been considered.
pub open spec fn bend(adj: Seq<bool>, first: int, second: int, k: nat) -> Seq<bool>
    decreases k,
{
    if k == 0 {
        Seq::new(6, |i: int| i == first || i == second)
    } else {
        bend_step(adj, first, second, bend(adj, first, second, (k - 1) as nat), k - 1)
    }
}

/// The end of the bridge towards the first `k` directions: a dock on water
/// or a ramp on land, drawn on the neighbour and facing back.
pub open spec fn bridge_ends(m: WorldMap, p: Position, adj: Seq<bool>, c: Seq<bool>, k: nat) -> Seq<
    TileSpec,
>
    decreases k,
{
    if k == 0 {
        seq![]
    } else {
        let d = k - 1;
        let n = spec_terrain_neighbors(p)[d];
        bridge_ends(m, p, adj, c, (k - 1) as nat) + if c[d] && !adj[d] {
            seq![
                tile(
                    n,
                    if water_at(m, n) { "wood-bridge-dock"@ } else { "wood-bridge-end"@ },
                    VisualKind::BridgeEnd(((d + 3) % 6) as usize),
                    -9,
                ),
            ]
        } else {
            seq![]
        }
    }
}

/// The wooden bridge of a cell, bent along its neighbours, with its ends.
pub open spec fn bridge_visuals(m: WorldMap, p: Position) -> Seq<TileSpec> {
    let overlay = spec_visual_codes(code_or(m, p, ""@)).1;
    if !starts_with(overlay, "Bw"@) {
        seq![]
    } else {
        let adj = adjacent_bridges(m, p);
        let axis = spec_bridge_axis(overlay);
        let c = bend(adj, axis.0, axis.1, 6);
        seq![tile(p, spec_wood_bridge_image(overlay, c), VisualKind::Overlay, -10)] + bridge_ends(
            m,
            p,
            adj,
            c,
            6,
        )
    }
}

fn bridge_at_exec(map: &WorldMap, n: Position) -> (r: bool)
    ensures
        r == bridge_at(*map, n),
{
    match map.raw(n) {
        Ok(code) => {
            let o = chars_of(visual_codes(code).1);
            starts_with_str(&o, "Bw")
        },
        Err(_) => false,
    }
}

fn water_at_exec(map: &WorldMap, n: Position) -> (r: bool)
    ensures
        r == water_at(*map, n),
{
    match map.raw(n) {
        Ok(code) => is_water(visual_codes(code).0),
        Err(_) => false,
    }
}

fn side_distance_exec(axis: usize, d: usize) -> (r: usize)
    requires
        axis < 6,
        d < 6,
    ensures
        r == side_distance(axis as int, d as int),
{
    let delta = if axis >= d {
        axis - d
    } else {
        d - axis
    };
    if delta <= 6 - delta {
        delta
    } else {
        6 - delta
    }
}

/// Appends the wooden bridge of one cell and its ends.
fn push_bridge_visuals(map: &WorldMap, position: Position, out: &mut Vec<VisualTile>)
    requires
        near_map(position),
    ensures
        tiles_view(final(out)@) == tiles_view(old(out)@) + bridge_visuals(*map, position),
{
    let ghost start = tiles_view(out@);
    let code = match map.raw(position) {
        Ok(c) => c,
        Err(_) => "",
    };
    let overlay = visual_codes(code).1;
    let o = chars_of(overlay);
    if !starts_with_str(&o, "Bw") {
        assert(tiles_view(out@) =~= start + bridge_visuals(*map, position));
        return;
    }
    let around = neighbors(position);
    let mut adjacent: Vec<bool> = Vec::new();
    let mut d: usize = 0;
    while d < 6
        invariant
            d <= 6,
            around@ == spec_terrain_neighbors(position),
            adjacent@ == adjacent_bridges(*map, position).take(d as int),
        decreases 6 - d,
    {
        adjacent.push(bridge_at_exec(map, around[d]));
        assert(adjacent@ =~= adjacent_bridges(*map, position).take(d + 1));
        d = d + 1;
    }
    assert(adjacent@ =~= adjacent_bridges(*map, position));
    let ghost adj = adjacent_bridges(*map, position);
    let (first, second) = bridge_axis(overlay);
    let mut connected: Vec<bool> = Vec::new();
    let mut i: usize = 0;
    while i < 6
        invariant
            i <= 6,
            first < 6,
            second < 6,
            connected@ == Seq::new(6, |j: int| j == first || j == second).take(i as int),
        decreases 6 - i,
    {
        connected.push(i == first || i == second);
        assert(connected@ =~= Seq::new(6, |j: int| j == first || j == second).take(i + 1));
        i = i + 1;
    }
    assert(connected@ =~= bend(adj, first as int, second as int, 0));
    let mut d: usize = 0;
    while d < 6
        invariant
            d <= 6,
            first < 6,
            second < 6,
            adjacent@ == adj,
            adj.len() == 6,
            connected@ == bend(adj, first as int, second as int, d as nat),
            connected@.len() == 6,
        decreases 6 - d,
    {
        if adjacent[d] && !connected[d] {
            let displaced = if side_distance_exec(first, d) < side_distance_exec(second, d) {
                first
            } else {
                second
            };
            if !adjacent[displaced] {
                connected.set(displaced, false);
            }
            connected.set(d, true);
        }
        d = d + 1;
    }
    let sides: [bool; 6] = [
        connected[0],
        connected[1],
        connected[2],
        connected[3],
        connected[4],
        connected[5],
    ];
    assert(sides@ =~= connected@);
    push_tile(out, VisualTile {
        position,
        image: wood_bridge_image(overlay, sides),
        kind: VisualKind::Overlay,
        layer: -10,
    });
    let ghost c = connected@;
    let ghost after_bridge = tiles_view(out@);
    let mut d: usize = 0;
    while d < 6
        invariant
            d <= 6,
            around@ == spec_terrain_neighbors(position),
            adjacent@ == adj,
            connected@ == c,
            adj.len() == 6,
            c.len() == 6,
            tiles_view(out@) == after_bridge + bridge_ends(*map, position, adj, c, d as nat),
        decreases 6 - d,
    {
        if connected[d] && !adjacent[d] {
            let image = if water_at_exec(map, around[d]) {
                "wood-bridge-dock"
            } else {
                "wood-bridge-end"
            };
            push_tile(out, VisualTile {
                position: around[d],
                image,
                kind: VisualKind::BridgeEnd((d + 3) % 6),
                layer: -9,
            });
        }
        assert(tiles_view(out@) =~= after_bridge + bridge_ends(*map, position, adj, c, (d + 1) as nat));
        d = d + 1;
    }
    assert(tiles_view(out@) =~= start + bridge_visuals(*map, position));
}

/// The wooden bridges of the whole map, row by row. Neighbouring bridges may
/// bend a bridge's axis so that bridges of different axes join into one.
pub fn wood_bridge_visuals(map: &WorldMap) -> (r: Vec<VisualTile>)
    requires
        visuals_fit(*map),
    ensures
        tiles_view(r@) == grid_tiles(
            |p: Position| bridge_visuals(*map, p),
            map.width as nat,
            map.height as nat,
        ),
{
    let ghost f = |p: Position| bridge_visuals(*map, p);
    let mut out: Vec<VisualTile> = Vec::new();
    let width = map.width as i64;
    let height = map.height as i64;
    let mut y: i64 = 1;
    while y <= height
        invariant
            1 <= y <= height + 1,
            visuals_fit(*map),
            width == map.width,
            height == map.height,
            f == (|p: Position| bridge_visuals(*map, p)),
            tiles_view(out@) == grid_tiles(f, map.width as nat, (y - 1) as nat),
        decreases height + 1 - y,
    {
        let ghost row_start = tiles_view(out@);
        let mut x: i64 = 1;
        while x <= width
            invariant
                1 <= x <= width + 1,
                1 <= y <= height,
                visuals_fit(*map),
                width == map.width,
                height == map.height,
                f == (|p: Position| bridge_visuals(*map, p)),
                tiles_view(out@) == row_start + row_tiles(f, y as int, (x - 1) as nat),
            decreases width + 1 - x,
        {
            push_bridge_visuals(map, Position { x, y }, &mut out);
            assert(tiles_view(out@) =~= row_start + row_tiles(f, y as int, x as nat));
            x = x + 1;
        }
        assert(tiles_view(out@) =~= grid_tiles(f, map.width as nat, y as nat));
        y = y + 1;
    }
    out
}

// ---------------------------------------------------------------------------
// Mountain ranges
// ---------------------------------------------------------------------------
/// A state carried along the cells of a map in row order.
pub open spec fn row_fold<S>(f: spec_fn(S, Position) -> S, st: S, y: int, n: nat) -> S
    decreases n,
{
    if n == 0 {
        st
    } else {
        f(row_fold(f, st, y, (n - 1) as nat), Position { x: n as i64, y: y as i64 })
    }
}

/// A state carried along every cell of rows `1..=n`, row by row.
pub open spec fn grid_fold<S>(f: spec_fn(S, Position) -> S, st: S, width: nat, n: nat) -> S
    decreases n,
{
    if n == 0 {
        st
    } else {
        row_fold(f, grid_fold(f, st, width, (n - 1) as nat), n as int, width)
    }
}

/// The hexes claimed by mountain ranges so far, and the range tiles.
pub type MountainState = (Seq<(int, int)>, Seq<TileSpec>);

/// Whether the cell at `p` is a mountain.
pub open spec fn mountain_at(m: WorldMap, p: Position) -> bool {
    match spec_raw(m, p) {
        Ok(code) => spec_visual_codes(code).0 == "Mm"@,
        Err(_) => false,
    }
}

pub open spec fn hex_key(p: Position) -> (int, int) {
    (p.x as int, p.y as int)
}

/// A range whose hexes are all unclaimed mountains claims them and draws
/// its images, anchored at its first hex; otherwise nothing changes.
pub open spec fn claim(
    m: WorldMap,
    st: MountainState,
    positions: Seq<Position>,
    images: Seq<Seq<char>>,
) -> MountainState {
    if exists|i: int|
        0 <= i < positions.len() && (st.0.contains(hex_key(#[trigger] positions[i]))
            || !mountain_at(m, positions[i])) {
        st
    } else {
        (
            st.0 + positions.map_values(|p: Position| hex_key(p)),
            st.1 + images.map_values(
                |image: Seq<char>| tile(positions[0], image, VisualKind::MountainRange, 8),
            ),
        )
    }
}

/// The six hexes of a long range that runs in direction `dir` from `first`,
/// with the hexes beside its second and third towards `side`.
pub open spec fn long_positions(first: Position, dir: int, side: int) -> Seq<Position> {
    let second = spec_terrain_neighbors(first)[dir];
    let third = spec_terrain_neighbors(second)[dir];
    let fourth = spec_terrain_neighbors(third)[dir];
    seq![
        first,
        second,
        spec_terrain_neighbors(second)[side],
        third,
        spec_terrain_neighbors(third)[side],
        fourth,
    ]
}

pub open spec fn long_se_images() -> Seq<Seq<char>> {
    seq![
        "mountain-long-se-1"@,
        "mountain-long-se-2"@,
        "mountain-long-se-3"@,
        "mountain-long-se-4"@,
        "mountain-long-se-5"@,
    ]
}

pub open spec fn long_ne_images() -> Seq<Seq<char>> {
    seq![
        "mountain-long-ne-1"@,
        "mountain-long-ne-2"@,
        "mountain-long-ne-3"@,
        "mountain-long-ne-4"@,
        "mountain-long-ne-5"@,
    ]
}

/// The four hexes of a cluster: a hex, its NE and SE neighbours and the SE
/// neighbour of the NE one.
pub open spec fn cluster_positions(first: Position) -> Seq<Position> {
    let east = spec_terrain_neighbors(first)[1];
    seq![first, east, spec_terrain_neighbors(first)[2], spec_terrain_neighbors(east)[2]]
}

/// The images of a cluster, which alternate with the parity of `x + y`.
pub open spec fn cluster_images(first: Position) -> Seq<Seq<char>> {
    if (first.x + first.y) % 2 == 0 {
        seq!["mountain-cluster-a-1"@, "mountain-cluster-a-2"@, "mountain-cluster-a-3"@]
    } else {
        seq!["mountain-cluster-b-1"@, "mountain-cluster-b-2"@, "mountain-cluster-b-3"@]
    }
}

pub open spec fn range_se_images() -> Seq<Seq<char>> {
    seq!["mountain-range-se-1"@, "mountain-range-se-2"@, "mountain-range-se-3"@]
}

pub open spec fn range_ne_images() -> Seq<Seq<char>> {
    seq!["mountain-range-ne-1"@, "mountain-range-ne-2"@, "mountain-range-ne-3"@]
}

/// Whether a short range of three fits from `start` in direction `dir`.
pub open spec fn range_fits(m: WorldMap, claimed: Seq<(int, int)>, start: Position, dir: int) -> bool {
    let second = spec_terrain_neighbors(start)[dir];
    let third = spec_terrain_neighbors(second)[dir];
    mountain_at(m, second) && mountain_at(m, third) && !claimed.contains(hex_key(second))
        && !claimed.contains(hex_key(third))
}

/// A short range of three drawn from `start` in direction `dir`.
pub open spec fn range_claim(
    st: MountainState,
    start: Position,
    dir: int,
    images: Seq<Seq<char>>,
) -> MountainState {
    let second = spec_terrain_neighbors(start)[dir];
    let third = spec_terrain_neighbors(second)[dir];
    (
        st.0 + seq![hex_key(start), hex_key(second), hex_key(third)],
        st.1 + images.map_values(
            |image: Seq<char>| tile(start, image, VisualKind::MountainRange, 8),
        ),
    )
}

/// An unclaimed mountain starts a short range towards SE, or else NE, when
/// two more unclaimed mountains follow.
pub open spec fn range_visit(m: WorldMap, st: MountainState, start: Position) -> MountainState {
    if st.0.contains(hex_key(start)) || !mountain_at(m, start) {
        st
    } else if range_fits(m, st.0, start, 2) {
        range_claim(st, start, 2, range_se_images())
    } else if range_fits(m, st.0, start, 1) {
        range_claim(st, start, 1, range_ne_images())
    } else {
        st
    }
}

/// The mountain ranges of a map: long ranges towards SE, then towards NE,
/// then clusters of four, then short ranges of three; each claims its
/// hexes, so no hex belongs to two ranges.
pub open spec fn mountain_ranges(m: WorldMap) -> MountainState {
    let w = m.width as nat;
    let h = m.height as nat;
    let s1 = grid_fold(
        |st: MountainState, p: Position| claim(m, st, long_positions(p, 2, 1), long_se_images()),
        (seq![], seq![]),
        w,
        h,
    );
    let s2 = grid_fold(
        |st: MountainState, p: Position| claim(m, st, long_positions(p, 1, 2), long_ne_images()),
        s1,
        w,
        h,
    );
    let s3 = grid_fold(
        |st: MountainState, p: Position| claim(m, st, cluster_positions(p), cluster_images(p)),
        s2,
        w,
        h,
    );
    grid_fold(|st: MountainState, p: Position| range_visit(m, st, p), s3, w, h)
}

pub open spec fn claimed_view(v: Seq<(i64, i64)>) -> Seq<(int, int)> {
    v.map_values(|c: (i64, i64)| (c.0 as int, c.1 as int))
}

pub open spec fn images_view(v: Seq<&'static str>) -> Seq<Seq<char>> {
    v.map_values(|s: &'static str| s@)
}

fn is_claimed(claimed: &Vec<(i64, i64)>, p: Position) -> (r: bool)
    ensures
        r == claimed_view(claimed@).contains(hex_key(p)),
{
    let mut i: usize = 0;
    while i < claimed.len()
        invariant
            i <= claimed.len(),
            forall|j: int| 0 <= j < i ==> claimed_view(claimed@)[j] != hex_key(p),
        decreases claimed.len() - i,
    {
        if claimed[i].0 == p.x && claimed[i].1 == p.y {
            assert(claimed_view(claimed@)[i as int] == hex_key(p));
            return true;
        }
        i = i + 1;
    }
    false
}

fn mountain_at_exec(map: &WorldMap, p: Position) -> (r: bool)
    ensures
        r == mountain_at(*map, p),
{
    match map.raw(p) {
        Ok(code) => {
            let b = chars_of(visual_codes(code).0);
            eq_str(&b, "Mm")
        },
        Err(_) => false,
    }
}

fn push_range_tiles(out: &mut Vec<VisualTile>, anchor: Position, images: &[&'static str])
    ensures
        tiles_view(final(out)@) == tiles_view(old(out)@) + images_view(images@).map_values(
            |image: Seq<char>| tile(anchor, image, VisualKind::MountainRange, 8),
        ),
{
    let ghost start = tiles_view(out@);
    let ghost made = images_view(images@).map_values(
        |image: Seq<char>| tile(anchor, image, VisualKind::MountainRange, 8),
    );
    let mut i: usize = 0;
    while i < images.len()
        invariant
            i <= images.len(),
            made == images_view(images@).map_values(
                |image: Seq<char>| tile(anchor, image, VisualKind::MountainRange, 8),
            ),
            tiles_view(out@) == start + made.take(i as int),
        decreases images.len() - i,
    {
        push_tile(out, VisualTile {
            position: anchor,
            image: images[i],
            kind: VisualKind::MountainRange,
            layer: 8,
        });
        assert(made.take(i + 1) =~= made.take(i as int).push(made[i as int]));
        i = i + 1;
    }
    assert(made.take(i as int) =~= made);
}

/// Claims a range whose hexes are all unclaimed mountains and draws it;
/// tells whether it did.
fn claim_mountains(
    map: &WorldMap,
    claimed: &mut Vec<(i64, i64)>,
    out: &mut Vec<VisualTile>,
    positions: &[Position],
    images: &[&'static str],
)
    requires
        positions.len() > 0,
    ensures
        (claimed_view(final(claimed)@), tiles_view(final(out)@)) == claim(
            *map,
            (claimed_view(old(claimed)@), tiles_view(old(out)@)),
            positions@,
            images_view(images@),
        ),
{
    let ghost st = (claimed_view(claimed@), tiles_view(out@));
    let mut i: usize = 0;
    while i < positions.len()
        invariant
            i <= positions.len(),
            st == (claimed_view(claimed@), tiles_view(out@)),
            forall|j: int|
                0 <= j < i ==> !(claimed_view(claimed@).contains(hex_key(#[trigger] positions@[j]))
                    || !mountain_at(*map, positions@[j])),
        decreases positions.len() - i,
    {
        if is_claimed(claimed, positions[i]) || !mountain_at_exec(map, positions[i]) {
            assert(claim(*map, st, positions@, images_view(images@)) == st);
            return;
        }
        i = i + 1;
    }
    let ghost before = claimed_view(claimed@);
    let mut k: usize = 0;
    while k < positions.len()
        invariant
            k <= positions.len(),
            claimed_view(claimed@) == before + positions@.take(k as int).map_values(
                |p: Position| hex_key(p),
            ),
        decreases positions.len() - k,
    {
        let ghost prev = claimed@;
        claimed.push((positions[k].x, positions[k].y));
        assert(claimed_view(claimed@) =~= claimed_view(prev).push(hex_key(positions@[k as int])));
        assert(positions@.take(k + 1).map_values(|p: Position| hex_key(p)) =~= positions@.take(
            k as int,
        ).map_values(|p: Position| hex_key(p)).push(hex_key(positions@[k as int])));
        k = k + 1;
    }
    assert(positions@.take(k as int) =~= positions@);
    push_range_tiles(out, positions[0], images);
}

/// One pass of long ranges running in direction `dir`, with `side` the
/// direction of the hexes beside the middle ones.
fn long_pass(
    map: &WorldMap,
    claimed: &mut Vec<(i64, i64)>,
    out: &mut Vec<VisualTile>,
    dir: usize,
    side: usize,
    images: &[&'static str; 5],
)
    requires
        visuals_fit(*map),
        dir < 6,
        side < 6,
    ensures
        (claimed_view(final(claimed)@), tiles_view(final(out)@)) == grid_fold(
            |st: MountainState, p: Position| claim(*map, st, long_positions(p, dir as int, side as int), images_view(images@)),
            (claimed_view(old(claimed)@), tiles_view(old(out)@)),
            map.width as nat,
            map.height as nat,
        ),
{
    let ghost f = |st: MountainState, p: Position| claim(*map, st, long_positions(p, dir as int, side as int), images_view(images@));
    let ghost st0 = (claimed_view(claimed@), tiles_view(out@));
    let width = map.width as i64;
    let height = map.height as i64;
    let mut y: i64 = 1;
    while y <= height
        invariant
            1 <= y <= height + 1,
            visuals_fit(*map),
        dir < 6,
        side < 6,
            width == map.width,
            height == map.height,
            f == (|st: MountainState, p: Position| claim(*map, st, long_positions(p, dir as int, side as int), images_view(images@))),
            (claimed_view(claimed@), tiles_view(out@)) == grid_fold(f, st0, map.width as nat, (y - 1) as nat),
        decreases height + 1 - y,
    {
        let ghost row_start = (claimed_view(claimed@), tiles_view(out@));
        let mut x: i64 = 1;
        while x <= width
            invariant
                1 <= x <= width + 1,
                1 <= y <= height,
                visuals_fit(*map),
        dir < 6,
        side < 6,
                width == map.width,
                height == map.height,
                f == (|st: MountainState, p: Position| claim(*map, st, long_positions(p, dir as int, side as int), images_view(images@))),
                (claimed_view(claimed@), tiles_view(out@)) == row_fold(f, row_start, y as int, (x - 1) as nat),
            decreases width + 1 - x,
        {
            let first = Position { x, y };
            long_step(map, claimed, out, first, dir, side, images);
            x = x + 1;
        }
        y = y + 1;
    }
}

/// The pass of four-hex clusters.
fn cluster_pass(
    map: &WorldMap,
    claimed: &mut Vec<(i64, i64)>,
    out: &mut Vec<VisualTile>,
)
    requires
        visuals_fit(*map),
    ensures
        (claimed_view(final(claimed)@), tiles_view(final(out)@)) == grid_fold(
            |st: MountainState, p: Position| claim(*map, st, cluster_positions(p), cluster_images(p)),
            (claimed_view(old(claimed)@), tiles_view(old(out)@)),
            map.width as nat,
            map.height as nat,
        ),
{
    let ghost f = |st: MountainState, p: Position| claim(*map, st, cluster_positions(p), cluster_images(p));
    let ghost st0 = (claimed_view(claimed@), tiles_view(out@));
    let width = map.width as i64;
    let height = map.height as i64;
    let mut y: i64 = 1;
    while y <= height
        invariant
            1 <= y <= height + 1,
            visuals_fit(*map),
            width == map.width,
            height == map.height,
            f == (|st: MountainState, p: Position| claim(*map, st, cluster_positions(p), cluster_images(p))),
            (claimed_view(claimed@), tiles_view(out@)) == grid_fold(f, st0, map.width as nat, (y - 1) as nat),
        decreases height + 1 - y,
    {
        let ghost row_start = (claimed_view(claimed@), tiles_view(out@));
        let mut x: i64 = 1;
        while x <= width
            invariant
                1 <= x <= width + 1,
                1 <= y <= height,
                visuals_fit(*map),
                width == map.width,
                height == map.height,
                f == (|st: MountainState, p: Position| claim(*map, st, cluster_positions(p), cluster_images(p))),
                (claimed_view(claimed@), tiles_view(out@)) == row_fold(f, row_start, y as int, (x - 1) as nat),
            decreases width + 1 - x,
        {
            let first = Position { x, y };
            cluster_step(map, claimed, out, first);
            x = x + 1;
        }
        y = y + 1;
    }
}

/// The pass of short ranges of three.
fn range_pass(
    map: &WorldMap,
    claimed: &mut Vec<(i64, i64)>,
    out: &mut Vec<VisualTile>,
)
    requires
        visuals_fit(*map),
    ensures
        (claimed_view(final(claimed)@), tiles_view(final(out)@)) == grid_fold(
            |st: MountainState, p: Position| range_visit(*map, st, p),
            (claimed_view(old(claimed)@), tiles_view(old(out)@)),
            map.width as nat,
            map.height as nat,
        ),
{
    let ghost f = |st: MountainState, p: Position| range_visit(*map, st, p);
    let ghost st0 = (claimed_view(claimed@), tiles_view(out@));
    let width = map.width as i64;
    let height = map.height as i64;
    let mut y: i64 = 1;
    while y <= height
        invariant
            1 <= y <= height + 1,
            visuals_fit(*map),
            width == map.width,
            height == map.height,
            f == (|st: MountainState, p: Position| range_visit(*map, st, p)),
            (claimed_view(claimed@), tiles_view(out@)) == grid_fold(f, st0, map.width as nat, (y - 1) as nat),
        decreases height + 1 - y,
    {
        let ghost row_start = (claimed_view(claimed@), tiles_view(out@));
        let mut x: i64 = 1;
        while x <= width
            invariant
                1 <= x <= width + 1,
                1 <= y <= height,
                visuals_fit(*map),
                width == map.width,
                height == map.height,
                f == (|st: MountainState, p: Position| range_visit(*map, st, p)),
                (claimed_view(claimed@), tiles_view(out@)) == row_fold(f, row_start, y as int, (x - 1) as nat),
            decreases width + 1 - x,
        {
            let first = Position { x, y };
            push_short_range(map, claimed, out, first);
            x = x + 1;
        }
        y = y + 1;
    }
}

/// Draws a short range from `start` in direction `dir` where one fits;
/// tells whether it did.
fn try_range(
    map: &WorldMap,
    claimed: &mut Vec<(i64, i64)>,
    out: &mut Vec<VisualTile>,
    start: Position,
    dir: usize,
    images: &[&'static str; 3],
) -> (drawn: bool)
    requires
        near_map(start),
        dir < 6,
    ensures
        drawn == range_fits(*map, claimed_view(old(claimed)@), start, dir as int),
        drawn ==> (claimed_view(final(claimed)@), tiles_view(final(out)@)) == range_claim(
            (claimed_view(old(claimed)@), tiles_view(old(out)@)),
            start,
            dir as int,
            images_view(images@),
        ),
        !drawn ==> final(claimed)@ == old(claimed)@ && final(out)@ == old(out)@,
{
    let second = neighbors(start)[dir];
    let third = neighbors(second)[dir];
    if mountain_at_exec(map, second) && mountain_at_exec(map, third) && !is_claimed(claimed, second)
        && !is_claimed(claimed, third) {
        let ghost before = claimed@;
        claimed.push((start.x, start.y));
        claimed.push((second.x, second.y));
        claimed.push((third.x, third.y));
        assert(claimed_view(claimed@) =~= claimed_view(before) + seq![
            hex_key(start),
            hex_key(second),
            hex_key(third),
        ]);
        push_range_tiles(out, start, images);
        true
    } else {
        false
    }
}

/// Starts a short range at `start` where one fits, towards SE or else NE.
fn push_short_range(
    map: &WorldMap,
    claimed: &mut Vec<(i64, i64)>,
    out: &mut Vec<VisualTile>,
    start: Position,
)
    requires
        near_map(start),
    ensures
        (claimed_view(final(claimed)@), tiles_view(final(out)@)) == range_visit(
            *map,
            (claimed_view(old(claimed)@), tiles_view(old(out)@)),
            start,
        ),
{
    if is_claimed(claimed, start) || !mountain_at_exec(map, start) {
        return;
    }
    let se: [&'static str; 3] = ["mountain-range-se-1", "mountain-range-se-2", "mountain-range-se-3"];
    assert(images_view(se@) =~= range_se_images());
    if try_range(map, claimed, out, start, 2, &se) {
        return;
    }
    let ne: [&'static str; 3] = ["mountain-range-ne-1", "mountain-range-ne-2", "mountain-range-ne-3"];
    assert(images_view(ne@) =~= range_ne_images());
    try_range(map, claimed, out, start, 1, &ne);
}

/// Claims and draws the long range that starts at `first`, where it fits.
fn long_step(
    map: &WorldMap,
    claimed: &mut Vec<(i64, i64)>,
    out: &mut Vec<VisualTile>,
    first: Position,
    dir: usize,
    side: usize,
    images: &[&'static str; 5],
)
    requires
        near_map(first),
        dir < 6,
        side < 6,
    ensures
        (claimed_view(final(claimed)@), tiles_view(final(out)@)) == claim(
            *map,
            (claimed_view(old(claimed)@), tiles_view(old(out)@)),
            long_positions(first, dir as int, side as int),
            images_view(images@),
        ),
{
    let second = neighbors(first)[dir];
    let third = neighbors(second)[dir];
    let fourth = neighbors(third)[dir];
    let positions = [first, second, neighbors(second)[side], third, neighbors(third)[side], fourth];
    assert(positions@ =~= long_positions(first, dir as int, side as int));
    claim_mountains(map, claimed, out, &positions, images);
}

/// Claims and draws the cluster that starts at `first`, where it fits.
fn cluster_step(
    map: &WorldMap,
    claimed: &mut Vec<(i64, i64)>,
    out: &mut Vec<VisualTile>,
    first: Position,
)
    requires
        near_map(first),
    ensures
        (claimed_view(final(claimed)@), tiles_view(final(out)@)) == claim(
            *map,
            (claimed_view(old(claimed)@), tiles_view(old(out)@)),
            cluster_positions(first),
            cluster_images(first),
        ),
{
    let east = neighbors(first)[1];
    let positions = [first, east, neighbors(first)[2], neighbors(east)[2]];
    assert(positions@ =~= cluster_positions(first));
    let images: [&'static str; 3] = if (first.x + first.y) % 2 == 0 {
        ["mountain-cluster-a-1", "mountain-cluster-a-2", "mountain-cluster-a-3"]
    } else {
        ["mountain-cluster-b-1", "mountain-cluster-b-2", "mountain-cluster-b-3"]
    };
    assert(images_view(images@) =~= cluster_images(first));
    claim_mountains(map, claimed, out, &positions, &images);
}

/// Draws the mountain ranges of the map and returns the hexes they claim.
pub fn add_mountain_ranges(map: &WorldMap, out: &mut Vec<VisualTile>) -> (claimed: Vec<(i64, i64)>)
    requires
        visuals_fit(*map),
    ensures
        claimed_view(claimed@) == mountain_ranges(*map).0,
        tiles_view(final(out)@) == tiles_view(old(out)@) + mountain_ranges(*map).1,
{
    let ghost start = tiles_view(out@);
    let mut claimed: Vec<(i64, i64)> = Vec::new();
    let mut ranges: Vec<VisualTile> = Vec::new();
    assert(claimed_view(claimed@) =~= Seq::<(int, int)>::empty());
    assert(tiles_view(ranges@) =~= Seq::<TileSpec>::empty());
    let se: [&'static str; 5] = [
        "mountain-long-se-1",
        "mountain-long-se-2",
        "mountain-long-se-3",
        "mountain-long-se-4",
        "mountain-long-se-5",
    ];
    assert(images_view(se@) =~= long_se_images());
    long_pass(map, &mut claimed, &mut ranges, 2, 1, &se);
    let ne: [&'static str; 5] = [
        "mountain-long-ne-1",
        "mountain-long-ne-2",
        "mountain-long-ne-3",
        "mountain-long-ne-4",
        "mountain-long-ne-5",
    ];
    assert(images_view(ne@) =~= long_ne_images());
    long_pass(map, &mut claimed, &mut ranges, 1, 2, &ne);
    cluster_pass(map, &mut claimed, &mut ranges);
    range_pass(map, &mut claimed, &mut ranges);
    let mut i: usize = 0;
    let ghost made = tiles_view(ranges@);
    while i < ranges.len()
        invariant
            i <= ranges.len(),
            made == tiles_view(ranges@),
            tiles_view(out@) == start + made.take(i as int),
        decreases ranges.len() - i,
    {
        push_tile(out, ranges[i]);
        assert(made.take(i + 1) =~= made.take(i as int).push(made[i as int]));
        i = i + 1;
    }
    assert(made.take(i as int) =~= made);
    claimed
}

// ---------------------------------------------------------------------------
// Castle walls
// ---------------------------------------------------------------------------
/// The corners claimed by walls so far (column, row, corner), and the walls.
pub type WallState = (Seq<(int, int, int)>, Seq<TileSpec>);

/// Whether a base belongs to the wall ring being drawn: raised keeps in the
/// keep pass, every castle or keep otherwise.
pub open spec fn wall_member(keep_pass: bool, base: Seq<char>) -> bool {
    if keep_pass {
        spec_is_raised_keep(base)
    } else {
        spec_is_castle(base)
    }
}

/// Whether the neighbour in direction `d` belongs to the same ring.
pub open spec fn wall_connected(m: WorldMap, p: Position, keep_pass: bool, d: int) -> bool {
    match neighbour_base(m, p, d) {
        Some(b) => wall_member(keep_pass, b),
        None => false,
    }
}

/// Whether the neighbour in direction `d` is a keep.
pub open spec fn keep_side(m: WorldMap, p: Position, d: int) -> bool {
    match neighbour_base(m, p, d) {
        Some(b) => spec_is_keep(b),
        None => false,
    }
}

/// Whether corner `c` (between sides `c` and `c + 1`) takes a wall: an
/// outer corner where neither side continues the ring, an inner corner
/// where both do.
pub open spec fn corner_matches(m: WorldMap, p: Position, keep_pass: bool, convex: bool, c: int) -> bool {
    let next = (c + 1) % 6;
    if convex {
        !wall_connected(m, p, keep_pass, c) && !wall_connected(m, p, keep_pass, next)
    } else {
        wall_connected(m, p, keep_pass, c) && wall_connected(m, p, keep_pass, next)
    }
}

/// The three hex corners that meet at corner `c` of `p`; a wall claims all
/// of them so that the neighbours do not draw the same corner again.
pub open spec fn corner_claims(p: Position, c: int) -> Seq<(int, int, int)> {
    let adj = spec_terrain_neighbors(p);
    let next = (c + 1) % 6;
    seq![
        (p.x as int, p.y as int, c),
        (adj[c].x as int, adj[c].y as int, (c + 2) % 6),
        (adj[next].x as int, adj[next].y as int, (c + 4) % 6),
    ]
}

/// The base whose family draws the wall: the cell's own for an outer
/// corner, a neighbour's for an inner one.
pub open spec fn wall_base(m: WorldMap, p: Position, base: Seq<char>, convex: bool, c: int) -> Seq<
    char,
> {
    if convex {
        base
    } else {
        match neighbour_base(m, p, c) {
            Some(b) => b,
            None => match neighbour_base(m, p, (c + 1) % 6) {
                Some(b) => b,
                None => "C"@,
            },
        }
    }
}

/// The wall image for a pass, a family, whether a keep is involved, and the
/// kind of corner.
pub open spec fn wall_image(keep_pass: bool, family: Seq<char>, use_keep: bool, convex: bool) -> Seq<
    char,
> {
    if keep_pass && family == "ruin"@ {
        if convex { "ruinkeep1-convex"@ } else { "ruinkeep1-concave"@ }
    } else if keep_pass {
        if convex { "keep-convex"@ } else { "keep-concave"@ }
    } else if family == "encampment"@ {
        if convex { "encampment-convex"@ } else { "encampment-concave"@ }
    } else if family == "ruin"@ {
        if convex { "ruin-convex"@ } else { "ruin-concave"@ }
    } else if family == "sunken-ruin"@ {
        if convex { "sunken-ruin-convex"@ } else { "sunken-ruin-concave"@ }
    } else if use_keep {
        if convex { "keep-convex"@ } else { "keep-concave"@ }
    } else {
        if convex { "castle-convex"@ } else { "castle-concave"@ }
    }
}

pub open spec fn wall_kind(use_keep: bool, convex: bool, c: int) -> VisualKind {
    if use_keep {
        if convex { VisualKind::KeepConvex(c as usize) } else { VisualKind::KeepConcave(c as usize) }
    } else {
        if convex { VisualKind::CastleConvex(c as usize) } else { VisualKind::CastleConcave(c as usize) }
    }
}

/// Corner `c` of the cell at `p`: a wall where the corner matches and none
/// of its three hex corners is claimed yet.
pub open spec fn corner_visit(
    m: WorldMap,
    p: Position,
    base: Seq<char>,
    keep_pass: bool,
    convex: bool,
    st: WallState,
    c: int,
) -> WallState {
    let claims = corner_claims(p, c);
    if !corner_matches(m, p, keep_pass, convex, c) {
        st
    } else if st.0.contains(claims[0]) || st.0.contains(claims[1]) || st.0.contains(claims[2]) {
        st
    } else {
        let family = spec_castle_wall_family(wall_base(m, p, base, convex, c));
        let use_keep = keep_pass || spec_is_keep(base) || keep_side(m, p, c) || keep_side(
            m,
            p,
            (c + 1) % 6,
        );
        (
            st.0 + claims,
            st.1.push(
                tile(
                    p,
                    wall_image(keep_pass, family, use_keep, convex),
                    wall_kind(use_keep, convex, c),
                    20,
                ),
            ),
        )
    }
}

/// Corners `0..k` of the cell at `p`.
pub open spec fn corners_visit(
    m: WorldMap,
    p: Position,
    base: Seq<char>,
    keep_pass: bool,
    convex: bool,
    st: WallState,
    k: nat,
) -> WallState
    decreases k,
{
    if k == 0 {
        st
    } else {
        corner_visit(
            m,
            p,
            base,
            keep_pass,
            convex,
            corners_visit(m, p, base, keep_pass, convex, st, (k - 1) as nat),
            k - 1,
        )
    }
}

/// The walls of one cell in one pass: only cells of the ring in the outer
/// passes, only cells outside it in the inner ones.
pub open spec fn wall_cell(m: WorldMap, keep_pass: bool, convex: bool, st: WallState, p: Position) -> WallState {
    let base = spec_visual_codes(code_or(m, p, "Gg"@)).0;
    if wall_member(keep_pass, base) != convex {
        st
    } else {
        corners_visit(m, p, base, keep_pass, convex, st, 6)
    }
}

/// The walls of one pass over the whole map.
pub open spec fn wall_pass(m: WorldMap, keep_pass: bool, convex: bool, st: WallState) -> WallState {
    grid_fold(
        |s: WallState, p: Position| wall_cell(m, keep_pass, convex, s, p),
        st,
        m.width as nat,
        m.height as nat,
    )
}

/// The castle walls of a map: the keeps first take the shared corners, then
/// the castles; outer corners before inner ones in each.
pub open spec fn castle_walls(m: WorldMap) -> WallState {
    let s1 = wall_pass(m, true, true, (seq![], seq![]));
    let s2 = wall_pass(m, true, false, s1);
    let s3 = wall_pass(m, false, true, s2);
    wall_pass(m, false, false, s3)
}

pub open spec fn corners_view(v: Seq<(i64, i64, usize)>) -> Seq<(int, int, int)> {
    v.map_values(|c: (i64, i64, usize)| (c.0 as int, c.1 as int, c.2 as int))
}

fn corner_claimed(flags: &Vec<(i64, i64, usize)>, claim: (i64, i64, usize)) -> (r: bool)
    ensures
        r == corners_view(flags@).contains((claim.0 as int, claim.1 as int, claim.2 as int)),
{
    let mut i: usize = 0;
    while i < flags.len()
        invariant
            i <= flags.len(),
            forall|j: int|
                0 <= j < i ==> corners_view(flags@)[j] != (claim.0 as int, claim.1 as int, claim.2 as int),
        decreases flags.len() - i,
    {
        if flags[i].0 == claim.0 && flags[i].1 == claim.1 && flags[i].2 == claim.2 {
            assert(corners_view(flags@)[i as int] == (claim.0 as int, claim.1 as int, claim.2 as int));
            return true;
        }
        i = i + 1;
    }
    false
}

fn wall_member_exec(keep_pass: bool, base: &str) -> (r: bool)
    ensures
        r == wall_member(keep_pass, base@),
{
    if keep_pass {
        is_raised_keep(base)
    } else {
        is_castle(base)
    }
}

fn wall_image_exec(keep_pass: bool, family: &str, use_keep: bool, convex: bool) -> (r: &'static str)
    ensures
        r@ == wall_image(keep_pass, family@, use_keep, convex),
{
    let f = chars_of(family);
    if keep_pass && eq_str(&f, "ruin") {
        if convex { "ruinkeep1-convex" } else { "ruinkeep1-concave" }
    } else if keep_pass {
        if convex { "keep-convex" } else { "keep-concave" }
    } else if eq_str(&f, "encampment") {
        if convex { "encampment-convex" } else { "encampment-concave" }
    } else if eq_str(&f, "ruin") {
        if convex { "ruin-convex" } else { "ruin-concave" }
    } else if eq_str(&f, "sunken-ruin") {
        if convex { "sunken-ruin-convex" } else { "sunken-ruin-concave" }
    } else if use_keep {
        if convex { "keep-convex" } else { "keep-concave" }
    } else {
        if convex { "castle-convex" } else { "castle-concave" }
    }
}

fn wall_kind_exec(use_keep: bool, convex: bool, c: usize) -> (r: VisualKind)
    ensures
        r == wall_kind(use_keep, convex, c as int),
{
    if use_keep {
        if convex { VisualKind::KeepConvex(c) } else { VisualKind::KeepConcave(c) }
    } else {
        if convex { VisualKind::CastleConvex(c) } else { VisualKind::CastleConcave(c) }
    }
}

/// The bases of the six neighbours, where they are on the map.
fn neighbour_bases<'a>(map: &'a WorldMap, around: &[Position; 6]) -> (r: Vec<Option<&'a str>>)
    ensures
        r.len() == 6,
        forall|d: int|
            0 <= d < 6 ==> match #[trigger] r@[d] {
                Some(b) => neighbour_base_at(*map, around@[d]) == Some(b@),
                None => neighbour_base_at(*map, around@[d]) is None,
            },
{
    let mut r: Vec<Option<&'a str>> = Vec::new();
    let mut d: usize = 0;
    while d < 6
        invariant
            d <= 6,
            r.len() == d,
            forall|j: int|
                0 <= j < d ==> match #[trigger] r@[j] {
                    Some(b) => neighbour_base_at(*map, around@[j]) == Some(b@),
                    None => neighbour_base_at(*map, around@[j]) is None,
                },
        decreases 6 - d,
    {
        r.push(neighbour_base_exec(map, around, d));
        d = d + 1;
    }
    r
}

/// Draws the wall at corner `c` of the cell at `p`, where it belongs.
fn push_corner(
    map: &WorldMap,
    position: Position,
    base: &str,
    keep_pass: bool,
    convex: bool,
    around: &[Position; 6],
    bases: &Vec<Option<&str>>,
    c: usize,
    flags: &mut Vec<(i64, i64, usize)>,
    out: &mut Vec<VisualTile>,
)
    requires
        c < 6,
        around@ == spec_terrain_neighbors(position),
        bases.len() == 6,
        forall|d: int|
            0 <= d < 6 ==> match #[trigger] bases@[d] {
                Some(b) => neighbour_base(*map, position, d) == Some(b@),
                None => neighbour_base(*map, position, d) is None,
            },
    ensures
        (corners_view(final(flags)@), tiles_view(final(out)@)) == corner_visit(
            *map,
            position,
            base@,
            keep_pass,
            convex,
            (corners_view(old(flags)@), tiles_view(old(out)@)),
            c as int,
        ),
{
    let next = (c + 1) % 6;
    let here = match bases[c] {
        Some(b) => wall_member_exec(keep_pass, b),
        None => false,
    };
    let there = match bases[next] {
        Some(b) => wall_member_exec(keep_pass, b),
        None => false,
    };
    assert(here == wall_connected(*map, position, keep_pass, c as int));
    assert(there == wall_connected(*map, position, keep_pass, next as int));
    let matches = if convex {
        !here && !there
    } else {
        here && there
    };
    if !matches {
        return;
    }
    let claims = [
        (position.x, position.y, c),
        (around[c].x, around[c].y, (c + 2) % 6),
        (around[next].x, around[next].y, (c + 4) % 6),
    ];
    let ghost spec_claims = corner_claims(position, c as int);
    assert((claims[0].0 as int, claims[0].1 as int, claims[0].2 as int) == spec_claims[0]);
    assert((claims[1].0 as int, claims[1].1 as int, claims[1].2 as int) == spec_claims[1]);
    assert((claims[2].0 as int, claims[2].1 as int, claims[2].2 as int) == spec_claims[2]);
    if corner_claimed(flags, claims[0]) || corner_claimed(flags, claims[1]) || corner_claimed(
        flags,
        claims[2],
    ) {
        return;
    }
    let ghost before = flags@;
    flags.push(claims[0]);
    flags.push(claims[1]);
    flags.push(claims[2]);
    assert(corners_view(flags@) =~= corners_view(before) + spec_claims);
    let wall = if convex {
        base
    } else {
        match bases[c] {
            Some(b) => b,
            None => match bases[next] {
                Some(b) => b,
                None => "C",
            },
        }
    };
    assert(wall@ == wall_base(*map, position, base@, convex, c as int));
    let family = castle_wall_family(wall);
    let keep_here = match bases[c] {
        Some(b) => is_keep(b),
        None => false,
    };
    let keep_there = match bases[next] {
        Some(b) => is_keep(b),
        None => false,
    };
    let use_keep = keep_pass || is_keep(base) || keep_here || keep_there;
    assert(use_keep == (keep_pass || spec_is_keep(base@) || keep_side(*map, position, c as int)
        || keep_side(*map, position, next as int)));
    push_tile(out, VisualTile {
        position,
        image: wall_image_exec(keep_pass, family, use_keep, convex),
        kind: wall_kind_exec(use_keep, convex, c),
        layer: 20,
    });
}

/// The walls of one cell in one pass.
fn push_wall_cell(
    map: &WorldMap,
    keep_pass: bool,
    convex: bool,
    position: Position,
    flags: &mut Vec<(i64, i64, usize)>,
    out: &mut Vec<VisualTile>,
)
    requires
        near_map(position),
    ensures
        (corners_view(final(flags)@), tiles_view(final(out)@)) == wall_cell(
            *map,
            keep_pass,
            convex,
            (corners_view(old(flags)@), tiles_view(old(out)@)),
            position,
        ),
{
    let code = match map.raw(position) {
        Ok(c) => c,
        Err(_) => "Gg",
    };
    let base = visual_codes(code).0;
    assert(base@ == spec_visual_codes(code_or(*map, position, "Gg"@)).0);
    if wall_member_exec(keep_pass, base) != convex {
        return;
    }
    let around = neighbors(position);
    let bases = neighbour_bases(map, &around);
    assert forall|d: int| 0 <= d < 6 implies match #[trigger] bases@[d] {
        Some(b) => neighbour_base(*map, position, d) == Some(b@),
        None => neighbour_base(*map, position, d) is None,
    } by {
        assert(neighbour_base(*map, position, d) == neighbour_base_at(*map, around@[d]));
    }
    let ghost st0 = (corners_view(flags@), tiles_view(out@));
    let mut c: usize = 0;
    while c < 6
        invariant
            c <= 6,
            around@ == spec_terrain_neighbors(position),
            bases.len() == 6,
            forall|d: int|
                0 <= d < 6 ==> match #[trigger] bases@[d] {
                    Some(b) => neighbour_base(*map, position, d) == Some(b@),
                    None => neighbour_base(*map, position, d) is None,
                },
            (corners_view(flags@), tiles_view(out@)) == corners_visit(
                *map,
                position,
                base@,
                keep_pass,
                convex,
                st0,
                c as nat,
            ),
        decreases 6 - c,
    {
        push_corner(map, position, base, keep_pass, convex, &around, &bases, c, flags, out);
        c = c + 1;
    }
}

/// One wall pass over the whole map.
fn push_wall_pass(
    map: &WorldMap,
    keep_pass: bool,
    convex: bool,
    flags: &mut Vec<(i64, i64, usize)>,
    out: &mut Vec<VisualTile>,
)
    requires
        visuals_fit(*map),
    ensures
        (corners_view(final(flags)@), tiles_view(final(out)@)) == wall_pass(
            *map,
            keep_pass,
            convex,
            (corners_view(old(flags)@), tiles_view(old(out)@)),
        ),
{
    let ghost f = |s: WallState, p: Position| wall_cell(*map, keep_pass, convex, s, p);
    let ghost st0 = (corners_view(flags@), tiles_view(out@));
    let width = map.width as i64;
    let height = map.height as i64;
    let mut y: i64 = 1;
    while y <= height
        invariant
            1 <= y <= height + 1,
            visuals_fit(*map),
            width == map.width,
            height == map.height,
            f == (|s: WallState, p: Position| wall_cell(*map, keep_pass, convex, s, p)),
            (corners_view(flags@), tiles_view(out@)) == grid_fold(
                f,
                st0,
                map.width as nat,
                (y - 1) as nat,
            ),
        decreases height + 1 - y,
    {
        let ghost row_start = (corners_view(flags@), tiles_view(out@));
        let mut x: i64 = 1;
        while x <= width
            invariant
                1 <= x <= width + 1,
                1 <= y <= height,
                visuals_fit(*map),
                width == map.width,
                height == map.height,
                f == (|s: WallState, p: Position| wall_cell(*map, keep_pass, convex, s, p)),
                (corners_view(flags@), tiles_view(out@)) == row_fold(
                    f,
                    row_start,
                    y as int,
                    (x - 1) as nat,
                ),
            decreases width + 1 - x,
        {
            push_wall_cell(map, keep_pass, convex, Position { x, y }, flags, out);
            x = x + 1;
        }
        y = y + 1;
    }
}

/// Draws the castle walls of the map.
pub fn add_castle_walls(map: &WorldMap, out: &mut Vec<VisualTile>)
    requires
        visuals_fit(*map),
    ensures
        tiles_view(final(out)@) == tiles_view(old(out)@) + castle_walls(*map).1,
{
    let ghost start = tiles_view(out@);
    let mut flags: Vec<(i64, i64, usize)> = Vec::new();
    let mut walls: Vec<VisualTile> = Vec::new();
    assert(corners_view(flags@) =~= Seq::<(int, int, int)>::empty());
    assert(tiles_view(walls@) =~= Seq::<TileSpec>::empty());
    push_wall_pass(map, true, true, &mut flags, &mut walls);
    push_wall_pass(map, true, false, &mut flags, &mut walls);
    push_wall_pass(map, false, true, &mut flags, &mut walls);
    push_wall_pass(map, false, false, &mut flags, &mut walls);
    let ghost made = tiles_view(walls@);
    let mut i: usize = 0;
    while i < walls.len()
        invariant
            i <= walls.len(),
            made == tiles_view(walls@),
            tiles_view(out@) == start + made.take(i as int),
        decreases walls.len() - i,
    {
        push_tile(out, walls[i]);
        assert(made.take(i + 1) =~= made.take(i as int).push(made[i as int]));
        i = i + 1;
    }
    assert(made.take(i as int) =~= made);
}

// ---------------------------------------------------------------------------
// What the terrain rules place
// ---------------------------------------------------------------------------
/// The tile for an image that a terrain rule places, where the renderer
/// knows its name: water and grass bases, stone bridges and their ends,
/// and the edges of deep water. Wooden bridges are laid out separately, and
/// any other name is dropped.
pub open spec fn rule_tile(p: PlacedSpec) -> Seq<TileSpec> {
    let path = p.path;
    if path == "grass-green"@ || path == "water"@ || path == "ocean"@ || path == "dirt"@ {
        seq![tile(p.anchor, path, VisualKind::Base, p.layer)]
    } else if path == "stone-bridge-n-s"@ || path == "stone-bridge-ne-sw"@ || path
        == "stone-bridge-se-nw"@ {
        seq![tile(p.anchor, path, VisualKind::Overlay, p.layer)]
    } else if starts_with(path, "wood-bridge"@) {
        seq![]
    } else if starts_with(path, "stone-bridge-end-"@) {
        match spec_direction(path, "stone-bridge-end-"@) {
            Some(d) => seq![
                tile(p.anchor, "stone-bridge-end"@, VisualKind::BridgeEnd(d as usize), p.layer),
            ],
            None => seq![],
        }
    } else if starts_with(path, "transition-ocean-"@) {
        match spec_direction(path, "transition-ocean-"@) {
            Some(d) => seq![
                tile(p.anchor, "transition-ocean"@, VisualKind::Transition(d as usize), p.layer),
            ],
            None => seq![],
        }
    } else {
        seq![]
    }
}

/// The tiles of the placed images, in their order.
pub open spec fn rule_tiles(s: Seq<PlacedSpec>) -> Seq<TileSpec>
    decreases s.len(),
{
    if s.len() == 0 {
        seq![]
    } else {
        rule_tiles(s.drop_last()) + rule_tile(s.last())
    }
}

/// The tiles that the terrain rules place on the map.
pub open spec fn spec_rule_visuals(m: WorldMap, rules: Seq<TerrainRule>) -> Seq<TileSpec> {
    rule_tiles(spec_compose(m, rules, 0))
}

fn push_rule_tile(out: &mut Vec<VisualTile>, p: &PlacedImage)
    ensures
        tiles_view(final(out)@) == tiles_view(old(out)@) + rule_tile(placed_view(*p)),
{
    let ghost start = tiles_view(out@);
    let path = p.path.as_str();
    let v = chars_of(path);
    let name: &'static str;
    let kind: VisualKind;
    if eq_str(&v, "grass-green") {
        name = "grass-green";
        kind = VisualKind::Base;
    } else if eq_str(&v, "water") {
        name = "water";
        kind = VisualKind::Base;
    } else if eq_str(&v, "ocean") {
        name = "ocean";
        kind = VisualKind::Base;
    } else if eq_str(&v, "dirt") {
        name = "dirt";
        kind = VisualKind::Base;
    } else if eq_str(&v, "stone-bridge-n-s") {
        name = "stone-bridge-n-s";
        kind = VisualKind::Overlay;
    } else if eq_str(&v, "stone-bridge-ne-sw") {
        name = "stone-bridge-ne-sw";
        kind = VisualKind::Overlay;
    } else if eq_str(&v, "stone-bridge-se-nw") {
        name = "stone-bridge-se-nw";
        kind = VisualKind::Overlay;
    } else if starts_with_str(&v, "wood-bridge") {
        assert(tiles_view(out@) =~= start + rule_tile(placed_view(*p)));
        return;
    } else if starts_with_str(&v, "stone-bridge-end-") {
        match direction(path, "stone-bridge-end-") {
            Some(d) => {
                name = "stone-bridge-end";
                kind = VisualKind::BridgeEnd(d);
            },
            None => {
                assert(tiles_view(out@) =~= start + rule_tile(placed_view(*p)));
                return;
            },
        }
    } else if starts_with_str(&v, "transition-ocean-") {
        match direction(path, "transition-ocean-") {
            Some(d) => {
                name = "transition-ocean";
                kind = VisualKind::Transition(d);
            },
            None => {
                assert(tiles_view(out@) =~= start + rule_tile(placed_view(*p)));
                return;
            },
        }
    } else {
        assert(tiles_view(out@) =~= start + rule_tile(placed_view(*p)));
        return;
    }
    push_tile(out, VisualTile { position: p.anchor, image: name, kind, layer: p.layer });
}

/// The tiles that the terrain rules place on the map (with the fixed seed
/// 0), converted to the images the renderer knows.
pub fn rule_visuals(map: &WorldMap, rules: &[TerrainRule]) -> (r: Vec<VisualTile>)
    requires
        visuals_fit(*map),
    ensures
        tiles_view(r@) == spec_rule_visuals(*map, rules@),
{
    let placed = compose(map, rules, 0);
    let ghost pv = placed@.map_values(|p: PlacedImage| placed_view(p));
    let mut out: Vec<VisualTile> = Vec::new();
    let mut i: usize = 0;
    while i < placed.len()
        invariant
            i <= placed.len(),
            pv == placed@.map_values(|p: PlacedImage| placed_view(p)),
            tiles_view(out@) == rule_tiles(pv.take(i as int)),
        decreases placed.len() - i,
    {
        push_rule_tile(&mut out, &placed[i]);
        assert(pv.take(i + 1).drop_last() =~= pv.take(i as int));
        i = i + 1;
    }
    assert(pv.take(i as int) =~= pv);
    out
}

// ---------------------------------------------------------------------------
// Drawing order
// ---------------------------------------------------------------------------
/// The bottom row of a numbered part of a mountain range, where the name is
/// one.
pub open spec fn range_bottom(image: Seq<char>) -> Option<int> {
    match image_number(image) {
        Some(n) => match range_base_rows(image) {
            Some(rows) => if 1 <= n <= rows.len() {
                Some(rows[n - 1])
            } else {
                None
            },
            None => None,
        },
        None => None,
    }
}

/// The drawing depth of a tile within its layer: single mountains and
/// ranges by the bottom of their image, castle walls by their castle hex
/// (keep walls after castle walls), everything else first.
pub open spec fn draw_depth(t: TileSpec) -> (int, int) {
    let y = spec_hex_screen_y(t.position);
    if starts_with(t.image, "mountains-single-"@) {
        (0, y - 18)
    } else if t.kind is MountainRange {
        match (spec_range_anchor(t.image), range_bottom(t.image)) {
            (Some(a), Some(b)) => (0, y - a.1 + b),
            _ => (0, i64::MIN as int),
        }
    } else {
        match t.kind {
            VisualKind::CastleConvex(c) => (0, y - spec_wall_anchor(c as int).1),
            VisualKind::CastleConcave(c) => (0, y - spec_wall_anchor(c as int).1),
            VisualKind::KeepConvex(c) => (1, y - spec_wall_anchor(c as int).1),
            VisualKind::KeepConcave(c) => (1, y - spec_wall_anchor(c as int).1),
            _ => (0, i64::MIN as int),
        }
    }
}

/// The drawing order of tiles: layer, then depth.
pub open spec fn draw_key(t: TileSpec) -> (i128, i128, i128, i128) {
    (t.layer as i128, draw_depth(t).0 as i128, draw_depth(t).1 as i128, 0)
}

/// Where a tile's depth is defined as `visual_depth` computes it, the
/// drawing order uses that depth.
pub proof fn lemma_draw_depth_agrees(t: VisualTile)
    requires
        depth_defined(t),
    ensures
        draw_depth(tile_view(t)) == spec_visual_depth(t),
{
}

fn range_bottom_exec(image: &str) -> (r: Option<i64>)
    ensures
        match r {
            Some(y) => range_bottom(image@) == Some(y as int),
            None => range_bottom(image@) is None,
        },
{
    let v = chars_of(image);
    let mut k: usize = v.len();
    while k > 0 && v[k - 1] != '-'
        invariant
            k <= v.len(),
            rfind(v@, '-', v.len() as int) == rfind(v@, '-', k as int),
        decreases k,
    {
        k = k - 1;
    }
    if k == 0 {
        return None;
    }
    let tail = slice_chars(&v, k, v.len());
    let n = match parse_unsigned_chars(&tail, usize::MAX as u64) {
        Some(n) => n as usize,
        None => {
            return None;
        },
    };
    let rows: Vec<i64> = if starts_with_str(&v, "mountain-long-se-") {
        vec![107, 107, 73, 108, 144]
    } else if starts_with_str(&v, "mountain-long-ne-") {
        vec![144, 108, 73, 107, 107]
    } else if starts_with_str(&v, "mountain-range-se-") {
        vec![107, 107, 144]
    } else if starts_with_str(&v, "mountain-range-ne-") {
        vec![144, 107, 107]
    } else if starts_with_str(&v, "mountain-cluster-") {
        vec![107, 107, 107]
    } else {
        return None;
    };
    assert(range_base_rows(image@) == Some(rows@.map_values(|r: i64| r as int)));
    if n < 1 || n > rows.len() {
        return None;
    }
    Some(rows[n - 1])
}

fn draw_key_exec(tile: &VisualTile) -> (r: (i128, i128, i128, i128))
    ensures
        r == draw_key(tile_view(*tile)),
{
    let raised: i128 = if tile.position.x % 2 == 0 {
        1
    } else {
        0
    };
    let y: i128 = (tile.position.y as i128 - 1) * 72 - raised * 36;
    assert(y == spec_hex_screen_y(tile.position));
    let layer = tile.layer as i128;
    let image = chars_of(tile.image);
    if starts_with_str(&image, "mountains-single-") {
        return (layer, 0, y - 18, 0);
    }
    if let VisualKind::MountainRange = tile.kind {
        let anchor = range_anchor(tile.image);
        let bottom = range_bottom_exec(tile.image);
        return match (anchor, bottom) {
            (Some(a), Some(b)) => (layer, 0, y - a.1 as i128 + b as i128, 0),
            _ => (layer, 0, i64::MIN as i128, 0),
        };
    }
    let (corner, keep_pass): (usize, i128) = match tile.kind {
        VisualKind::CastleConvex(c) => (c, 0),
        VisualKind::CastleConcave(c) => (c, 0),
        VisualKind::KeepConvex(c) => (c, 1),
        VisualKind::KeepConcave(c) => (c, 1),
        _ => {
            return (layer, 0, i64::MIN as i128, 0);
        },
    };
    let anchor = wall_anchor(corner);
    (layer, keep_pass, y - anchor.1 as i128, 0)
}

/// Everything the map draws, before ordering: the first pass, the bridges
/// and the mountain ranges (single mountains inside a range dropped), the
/// castle walls and what the rules place.
pub open spec fn unordered_visuals(m: WorldMap, rules: Seq<TerrainRule>) -> Seq<TileSpec> {
    let w = m.width as nat;
    let h = m.height as nat;
    let ranges = mountain_ranges(m);
    let drawn = (grid_tiles(|p: Position| cell_visuals(m, p), w, h) + grid_tiles(
        |p: Position| bridge_visuals(m, p),
        w,
        h,
    ) + ranges.1).filter(
        |t: TileSpec|
            !starts_with(t.image, "mountains-single-"@) || !ranges.0.contains(hex_key(t.position)),
    );
    drawn + castle_walls(m).1 + spec_rule_visuals(m, rules)
}

/// The visuals of a map in drawing order: by layer, then by depth, tiles of
/// equal order keeping the order they were made in.
pub open spec fn spec_build_visuals(m: WorldMap, rules: Seq<TerrainRule>) -> Seq<TileSpec> {
    sorted_by_key(
        unordered_visuals(m, rules).map_values(|t: TileSpec| (draw_key(t), t)),
    ).map_values(|kt: ((i128, i128, i128, i128), TileSpec)| kt.1)
}

/// Drops the single-mountain bases of the hexes that a range claimed.
fn drop_claimed_singles(tiles: Vec<VisualTile>, claimed: &Vec<(i64, i64)>) -> (r: Vec<VisualTile>)
    ensures
        tiles_view(r@) == tiles_view(tiles@).filter(
            |t: TileSpec|
                !starts_with(t.image, "mountains-single-"@) || !claimed_view(claimed@).contains(
                    hex_key(t.position),
                ),
        ),
{
    let ghost keep = |t: TileSpec|
        !starts_with(t.image, "mountains-single-"@) || !claimed_view(claimed@).contains(
            hex_key(t.position),
        );
    let ghost tv = tiles_view(tiles@);
    let mut out: Vec<VisualTile> = Vec::new();
    let mut i: usize = 0;
    while i < tiles.len()
        invariant
            i <= tiles.len(),
            tv == tiles_view(tiles@),
            keep == (|t: TileSpec|
                !starts_with(t.image, "mountains-single-"@) || !claimed_view(claimed@).contains(
                    hex_key(t.position),
                )),
            tiles_view(out@) == tv.take(i as int).filter(keep),
        decreases tiles.len() - i,
    {
        let t = tiles[i];
        let image = chars_of(t.image);
        let single = starts_with_str(&image, "mountains-single-");
        let taken = single && is_claimed(claimed, t.position);
        proof {
            assert(tv.take(i + 1).drop_last() =~= tv.take(i as int));
            assert(tv.take(i + 1).last() == tile_view(t));
            reveal(Seq::filter);
        }
        if !taken {
            push_tile(&mut out, t);
        }
        i = i + 1;
    }
    assert(tv.take(i as int) =~= tv);
    out
}

fn append_tiles(out: &mut Vec<VisualTile>, more: Vec<VisualTile>)
    ensures
        tiles_view(final(out)@) == tiles_view(old(out)@) + tiles_view(more@),
{
    let ghost start = tiles_view(out@);
    let ghost mv = tiles_view(more@);
    let mut i: usize = 0;
    while i < more.len()
        invariant
            i <= more.len(),
            mv == tiles_view(more@),
            tiles_view(out@) == start + mv.take(i as int),
        decreases more.len() - i,
    {
        push_tile(out, more[i]);
        assert(mv.take(i + 1) =~= mv.take(i as int).push(mv[i as int]));
        i = i + 1;
    }
    assert(mv.take(i as int) =~= mv);
}

/// Every visual of a map in drawing order. The first pass draws the ground,
/// the overlay and the transitions of each cell; the wooden bridges are laid
/// out with their bends and ends; mountain ranges replace the single
/// mountains of the hexes they claim; the castle walls and the images of the
/// terrain rules (applied with seed 0) follow. The whole list is then
/// ordered by layer and depth, keeping the order of equal tiles.
pub fn build_visuals(map: &WorldMap, rules: &[TerrainRule]) -> (r: Vec<VisualTile>)
    requires
        visuals_fit(*map),
    ensures
        tiles_view(r@) == spec_build_visuals(*map, rules@),
{
    let mut result = first_pass(map);
    let bridges = wood_bridge_visuals(map);
    append_tiles(&mut result, bridges);
    let claimed = add_mountain_ranges(map, &mut result);
    let mut result = drop_claimed_singles(result, &claimed);
    add_castle_walls(map, &mut result);
    let placed = rule_visuals(map, rules);
    append_tiles(&mut result, placed);
    let ghost all = tiles_view(result@);
    assert(all =~= unordered_visuals(*map, rules@));
    let mut keyed: Vec<((i128, i128, i128, i128), VisualTile)> = Vec::new();
    let mut i: usize = 0;
    while i < result.len()
        invariant
            i <= result.len(),
            all == tiles_view(result@),
            keyed@.map_values(
                |kt: ((i128, i128, i128, i128), VisualTile)| (kt.0, tile_view(kt.1)),
            ) == all.take(i as int).map_values(|t: TileSpec| (draw_key(t), t)),
        decreases result.len() - i,
    {
        let t = result[i];
        let key = draw_key_exec(&t);
        let ghost prev = keyed@;
        keyed.push((key, t));
        assert(all[i as int] == tile_view(t));
        assert(keyed@.map_values(
            |kt: ((i128, i128, i128, i128), VisualTile)| (kt.0, tile_view(kt.1)),
        ) =~= prev.map_values(
            |kt: ((i128, i128, i128, i128), VisualTile)| (kt.0, tile_view(kt.1)),
        ).push((key, tile_view(t))));
        assert(all.take(i + 1).map_values(|t: TileSpec| (draw_key(t), t)) =~= all.take(
            i as int,
        ).map_values(|t: TileSpec| (draw_key(t), t)).push((draw_key(all[i as int]), all[i as int])));
        assert(keyed@.map_values(
            |kt: ((i128, i128, i128, i128), VisualTile)| (kt.0, tile_view(kt.1)),
        ) =~= all.take(i + 1).map_values(|t: TileSpec| (draw_key(t), t)));
        i = i + 1;
    }
    assert(all.take(i as int) =~= all);
    let ghost kv = keyed@;
    let sorted = sort_by_key(keyed);
    let r = items_of(sorted);
    proof {
        let g = |t: VisualTile| tile_view(t);
        let h = |kt: ((i128, i128, i128, i128), VisualTile)| (kt.0, g(kt.1));
        lemma_sorted_map_items(kv, g);
        assert(kv.map_values(h) =~= all.map_values(|t: TileSpec| (draw_key(t), t)));
        assert(tiles_view(r@) =~= sorted_by_key(kv).map_values(h).map_values(
            |kt: ((i128, i128, i128, i128), TileSpec)| kt.1,
        ));
    }
    r
}

/// The visuals of a map come in drawing order: by layer, then by depth;
/// and nothing made before ordering is lost.
pub proof fn lemma_visuals_in_drawing_order(m: WorldMap, rules: Seq<TerrainRule>)
    ensures
        spec_build_visuals(m, rules).len() == unordered_visuals(m, rules).len(),
        forall|i: int, j: int|
            0 <= i < j < spec_build_visuals(m, rules).len() ==> key_le(
                draw_key(#[trigger] spec_build_visuals(m, rules)[i]),
                draw_key(#[trigger] spec_build_visuals(m, rules)[j]),
            ),
{
    let all = unordered_visuals(m, rules);
    let keyed = all.map_values(|t: TileSpec| (draw_key(t), t));
    let key = |t: TileSpec| draw_key(t);
    lemma_sorted_items_in_order(keyed, key);
    let sorted = sorted_by_key(keyed);
    let r = spec_build_visuals(m, rules);
    assert(r =~= sorted.map_values(|kt: ((i128, i128, i128, i128), TileSpec)| kt.1));
    assert forall|i: int, j: int| 0 <= i < j < r.len() implies key_le(
        draw_key(#[trigger] r[i]),
        draw_key(#[trigger] r[j]),
    ) by {
        assert(r[i] == sorted[i].1);
        assert(r[j] == sorted[j].1);
    }
}

/// A property that every step keeps holds after a row of steps.
proof fn lemma_row_fold_keeps<S>(
    f: spec_fn(S, Position) -> S,
    inv: spec_fn(S) -> bool,
    st: S,
    y: int,
    n: nat,
)
    requires
        inv(st),
        forall|s: S, p: Position| inv(s) ==> inv(#[trigger] f(s, p)),
    ensures
        inv(row_fold(f, st, y, n)),
    decreases n,
{
    if n > 0 {
        lemma_row_fold_keeps(f, inv, st, y, (n - 1) as nat);
        let prev = row_fold(f, st, y, (n - 1) as nat);
        assert(inv(f(prev, Position { x: n as i64, y: y as i64 })));
    }
}

/// A property that every step keeps holds after a pass over the map.
proof fn lemma_grid_fold_keeps<S>(
    f: spec_fn(S, Position) -> S,
    inv: spec_fn(S) -> bool,
    st: S,
    width: nat,
    n: nat,
)
    requires
        inv(st),
        forall|s: S, p: Position| inv(s) ==> inv(#[trigger] f(s, p)),
    ensures
        inv(grid_fold(f, st, width, n)),
    decreases n,
{
    if n > 0 {
        lemma_grid_fold_keeps(f, inv, st, width, (n - 1) as nat);
        lemma_row_fold_keeps(f, inv, grid_fold(f, st, width, (n - 1) as nat), n as int, width);
    }
}

/// The claimed corners hold no corner twice, and there are three for each
/// wall.
pub open spec fn walls_sound(st: WallState) -> bool {
    st.0.no_duplicates() && st.0.len() == 3 * st.1.len()
}

proof fn lemma_corner_keeps(
    m: WorldMap,
    p: Position,
    base: Seq<char>,
    keep_pass: bool,
    convex: bool,
    st: WallState,
    c: int,
)
    requires
        0 <= c < 6,
        walls_sound(st),
    ensures
        walls_sound(corner_visit(m, p, base, keep_pass, convex, st, c)),
{
    let claims = corner_claims(p, c);
    let r = corner_visit(m, p, base, keep_pass, convex, st, c);
    if r != st {
        let all = st.0 + claims;
        assert(claims[0].2 == c && claims[1].2 == (c + 2) % 6 && claims[2].2 == (c + 4) % 6);
        assert forall|i: int, j: int| 0 <= i < all.len() && 0 <= j < all.len() && i != j implies all[i]
            != all[j] by {
            if i >= st.0.len() && j >= st.0.len() {
                assert(claims[i - st.0.len()] != claims[j - st.0.len()]);
            } else if i >= st.0.len() {
                assert(st.0.contains(all[j]));
            } else if j >= st.0.len() {
                assert(st.0.contains(all[i]));
            }
        }
    }
}

proof fn lemma_corners_keep(
    m: WorldMap,
    p: Position,
    base: Seq<char>,
    keep_pass: bool,
    convex: bool,
    st: WallState,
    k: nat,
)
    requires
        k <= 6,
        walls_sound(st),
    ensures
        walls_sound(corners_visit(m, p, base, keep_pass, convex, st, k)),
    decreases k,
{
    if k > 0 {
        lemma_corners_keep(m, p, base, keep_pass, convex, st, (k - 1) as nat);
        lemma_corner_keeps(
            m,
            p,
            base,
            keep_pass,
            convex,
            corners_visit(m, p, base, keep_pass, convex, st, (k - 1) as nat),
            k - 1,
        );
    }
}

proof fn lemma_wall_pass_keeps(m: WorldMap, keep_pass: bool, convex: bool, st: WallState)
    requires
        walls_sound(st),
    ensures
        walls_sound(wall_pass(m, keep_pass, convex, st)),
{
    let f = |s: WallState, p: Position| wall_cell(m, keep_pass, convex, s, p);
    let inv = |s: WallState| walls_sound(s);
    assert forall|s: WallState, p: Position| inv(s) implies inv(#[trigger] f(s, p)) by {
        let base = spec_visual_codes(code_or(m, p, "Gg"@)).0;
        if wall_member(keep_pass, base) == convex {
            lemma_corners_keep(m, p, base, keep_pass, convex, s, 6);
        }
    }
    lemma_grid_fold_keeps(f, inv, st, m.width as nat, m.height as nat);
}

/// Every castle wall claims the three hex corners that meet where it
/// stands, and no corner is claimed twice: no corner of the map is drawn
/// with two walls.
pub proof fn lemma_wall_corners_claimed_once(m: WorldMap)
    ensures
        castle_walls(m).0.no_duplicates(),
        castle_walls(m).0.len() == 3 * castle_walls(m).1.len(),
{
    let s0: WallState = (seq![], seq![]);
    lemma_wall_pass_keeps(m, true, true, s0);
    let s1 = wall_pass(m, true, true, s0);
    lemma_wall_pass_keeps(m, true, false, s1);
    let s2 = wall_pass(m, true, false, s1);
    lemma_wall_pass_keeps(m, false, true, s2);
    let s3 = wall_pass(m, false, true, s2);
    lemma_wall_pass_keeps(m, false, false, s3);
}

/// The position of a claimed hex.
pub open spec fn key_position(k: (int, int)) -> Position {
    Position { x: k.0 as i64, y: k.1 as i64 }
}

/// Every claimed hex holds a mountain, and every range tile stands on a
/// claimed mountain hex.
pub open spec fn ranges_sound(m: WorldMap, st: MountainState) -> bool {
    &&& forall|i: int| 0 <= i < st.0.len() ==> mountain_at(m, key_position(#[trigger] st.0[i]))
    &&& forall|j: int|
        0 <= j < st.1.len() ==> st.0.contains(hex_key((#[trigger] st.1[j]).position))
            && mountain_at(m, st.1[j].position)
}

proof fn lemma_claim_keeps(m: WorldMap, st: MountainState, positions: Seq<Position>, images: Seq<Seq<char>>)
    requires
        ranges_sound(m, st),
        positions.len() > 0,
    ensures
        ranges_sound(m, claim(m, st, positions, images)),
{
    let r = claim(m, st, positions, images);
    if r != st {
        let keys = positions.map_values(|p: Position| hex_key(p));
        assert forall|i: int| 0 <= i < r.0.len() implies mountain_at(m, key_position(#[trigger] r.0[i])) by {
            if i >= st.0.len() {
                let k = i - st.0.len();
                assert(r.0[i] == hex_key(positions[k]));
                assert(key_position(hex_key(positions[k])) == positions[k]);
                assert(mountain_at(m, positions[k]));
            }
        }
        assert(mountain_at(m, positions[0]));
        assert(r.0[st.0.len() as int] == hex_key(positions[0]));
        assert forall|j: int| 0 <= j < r.1.len() implies r.0.contains(hex_key((#[trigger] r.1[j]).position))
            && mountain_at(m, r.1[j].position) by {
            if j < st.1.len() {
                let w = choose|w: int| 0 <= w < st.0.len() && st.0[w] == hex_key(st.1[j].position);
                assert(r.0[w] == st.0[w]);
            } else {
                assert(r.1[j].position == positions[0]);
            }
        }
    }
}

proof fn lemma_range_visit_keeps(m: WorldMap, st: MountainState, start: Position)
    requires
        ranges_sound(m, st),
    ensures
        ranges_sound(m, range_visit(m, st, start)),
{
    let r = range_visit(m, st, start);
    if r != st {
        let dir = if range_fits(m, st.0, start, 2) { 2int } else { 1int };
        let second = spec_terrain_neighbors(start)[dir];
        let third = spec_terrain_neighbors(second)[dir];
        assert(mountain_at(m, start) && mountain_at(m, second) && mountain_at(m, third));
        assert(key_position(hex_key(start)) == start);
        assert(key_position(hex_key(second)) == second);
        assert(key_position(hex_key(third)) == third);
        assert forall|i: int| 0 <= i < r.0.len() implies mountain_at(m, key_position(#[trigger] r.0[i])) by {
            if i >= st.0.len() {
                assert(r.0[i] == hex_key(start) || r.0[i] == hex_key(second) || r.0[i] == hex_key(third));
            }
        }
        assert(r.0[st.0.len() as int] == hex_key(start));
        assert forall|j: int| 0 <= j < r.1.len() implies r.0.contains(hex_key((#[trigger] r.1[j]).position))
            && mountain_at(m, r.1[j].position) by {
            if j < st.1.len() {
                let w = choose|w: int| 0 <= w < st.0.len() && st.0[w] == hex_key(st.1[j].position);
                assert(r.0[w] == st.0[w]);
            } else {
                assert(r.1[j].position == start);
            }
        }
    }
}

/// A mountain range claims only mountain hexes, and every part of a range
/// is drawn on a hex it claimed: the single mountains that give way to
/// ranges are exactly those under them.
pub proof fn lemma_ranges_stand_on_mountains(m: WorldMap)
    ensures
        ranges_sound(m, mountain_ranges(m)),
{
    let w = m.width as nat;
    let h = m.height as nat;
    let inv = |s: MountainState| ranges_sound(m, s);
    let s0: MountainState = (seq![], seq![]);
    let f1 = |st: MountainState, p: Position| claim(m, st, long_positions(p, 2, 1), long_se_images());
    let f2 = |st: MountainState, p: Position| claim(m, st, long_positions(p, 1, 2), long_ne_images());
    let f3 = |st: MountainState, p: Position| claim(m, st, cluster_positions(p), cluster_images(p));
    let f4 = |st: MountainState, p: Position| range_visit(m, st, p);
    assert forall|s: MountainState, p: Position| inv(s) implies inv(#[trigger] f1(s, p)) by {
        lemma_claim_keeps(m, s, long_positions(p, 2, 1), long_se_images());
    }
    assert forall|s: MountainState, p: Position| inv(s) implies inv(#[trigger] f2(s, p)) by {
        lemma_claim_keeps(m, s, long_positions(p, 1, 2), long_ne_images());
    }
    assert forall|s: MountainState, p: Position| inv(s) implies inv(#[trigger] f3(s, p)) by {
        lemma_claim_keeps(m, s, cluster_positions(p), cluster_images(p));
    }
    assert forall|s: MountainState, p: Position| inv(s) implies inv(#[trigger] f4(s, p)) by {
        lemma_range_visit_keeps(m, s, p);
    }
    lemma_grid_fold_keeps(f1, inv, s0, w, h);
    let s1 = grid_fold(f1, s0, w, h);
    lemma_grid_fold_keeps(f2, inv, s1, w, h);
    let s2 = grid_fold(f2, s1, w, h);
    lemma_grid_fold_keeps(f3, inv, s2, w, h);
    let s3 = grid_fold(f3, s2, w, h);
    lemma_grid_fold_keeps(f4, inv, s3, w, h);
}
} // verus!
