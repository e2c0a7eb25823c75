use wesnoth_engine::combat::{after_hit, impact_in_range, strike_sequence, Fight, Weapon};
use wesnoth_engine::data_format::parse;
use wesnoth_engine::value::Value;
use wesnoth_engine::world::WorldMap;
use wesnoth_engine::hex::Position;
use wesnoth_engine::map::{load_map, load_resources, parse_raw_map};
use wesnoth_engine::sorting::sort_by_key;
use wesnoth_engine::sprites::{
    castle_corner, direction_name, green_run_suffix, lowest_direction, mountain_range_path,
    simple_sprite, sprite_path, transition_stem, wall_stem,
};
use wesnoth_engine::terrain::{visual_depth, VisualKind, VisualTile};
use wesnoth_engine::terrain_rules::{
    compose, load_rules, load_rules_checked, Constraint, RuleImage, TerrainMatch, TerrainRule,
};
use wesnoth_engine::visuals::{build_visuals, forest_needs_small, rule_visuals};

fn map(width: usize, height: usize, codes: &[&str]) -> WorldMap {
    WorldMap {
        width,
        height,
        cells: codes.iter().map(|code| Value::String(code.to_string())).collect(),
    }
}

fn tile(image: &'static str, kind: VisualKind) -> VisualTile {
    VisualTile {
        position: Position { x: 1, y: 1 },
        image,
        kind,
        layer: 0,
    }
}

#[test]
fn sprite_paths_follow_kind_and_direction() {
    assert_eq!(
        sprite_path(&tile("water", VisualKind::Edge(2))).as_deref(),
        Some("water/coast-tropical-A01-se.png")
    );
    assert_eq!(sprite_path(&tile("water", VisualKind::Edge(6))), None);
    assert_eq!(
        sprite_path(&tile("shore", VisualKind::Transition(5))).as_deref(),
        Some("hills/dry-to-water-nw.png")
    );
    assert_eq!(sprite_path(&tile("unknown", VisualKind::Transition(0))), None);
    assert_eq!(
        sprite_path(&tile("x", VisualKind::TransitionRun(7))).as_deref(),
        Some("grass/green-n-ne-se.png")
    );
    // A run without a sprite of its own falls back to its lowest side.
    assert_eq!(
        sprite_path(&tile("x", VisualKind::TransitionRun(10))).as_deref(),
        Some("grass/green-ne.png")
    );
    assert_eq!(
        sprite_path(&tile("keep-convex", VisualKind::KeepConvex(5))).as_deref(),
        Some("castle/keep-convex-tl.png")
    );
    assert_eq!(
        sprite_path(&tile("stone-bridge-end", VisualKind::BridgeEnd(0))).as_deref(),
        Some("bridge/stonebridge-n.png")
    );
    assert_eq!(
        sprite_path(&tile("wood-bridge-end", VisualKind::BridgeEnd(3))).as_deref(),
        Some("bridge/wood-end-s.png")
    );
    assert_eq!(
        sprite_path(&tile("mountain-long-ne-4", VisualKind::MountainRange)).as_deref(),
        Some("mountains/basic_range4_4.png")
    );
    assert_eq!(
        sprite_path(&tile("forest-mixed-3", VisualKind::Overlay)).as_deref(),
        Some("forest/mixed-summer.png")
    );
    assert_eq!(sprite_path(&tile("nothing", VisualKind::Base)), None);
}

#[test]
fn sprite_tables() {
    assert_eq!(simple_sprite("great-tree"), Some("forest/great-tree.png"));
    assert_eq!(simple_sprite("flowers-farm"), Some("embellishments/flowers-mixed.png"));
    assert_eq!(simple_sprite("great-tree "), None);
    assert_eq!(mountain_range_path("mountain-cluster-b-2"), Some("mountains/basic6_2.png"));
    assert_eq!(mountain_range_path("mountain-cluster-c-2"), None);
    assert_eq!(wall_stem("encampment-concave"), Some("castle/encampment/regular-concave"));
    assert_eq!(transition_stem("transition-ocean"), Some("water/ocean-A01"));
    assert_eq!(green_run_suffix(63), Some("s-sw-nw-n-ne-se"));
    assert_eq!(green_run_suffix(5), None);
    assert_eq!(lowest_direction(0), 5);
    assert_eq!(lowest_direction(40), 3);
    assert_eq!(direction_name(4), Some("sw"));
    assert_eq!(direction_name(9), None);
    assert_eq!(castle_corner(0), Some("tr"));
    assert_eq!(castle_corner(11), Some("tl"));
}

#[test]
fn map_cells_are_read_by_row_and_column() {
    let nodes = parse("[map]\nwidth=3\nheight=2\ndata=<<\nGg, Ww ,Mm\nDs,Hh,Re\n>>\n[/map]").unwrap();
    let map = load_map(&nodes[0]).unwrap();
    assert_eq!((map.width, map.height), (3, 2));
    let terrain = |code: &str| {
        Value::Record(vec![("terrain".to_string(), Value::String(code.to_string()))])
    };
    assert_eq!(
        map.cells,
        ["Gg", "Ww", "Mm", "Ds", "Hh", "Re"].map(terrain).to_vec()
    );
    assert_eq!(map.raw(Position { x: 2, y: 1 }), Ok("Ww"));
    assert_eq!(map.raw(Position { x: 1, y: 2 }), Ok("Ds"));
    assert_eq!(map.get(Position { x: 3, y: 1 }), Ok("hills"));
    assert_eq!(
        map.raw(Position { x: 4, y: 1 }),
        Err("position (4, 1) is outside the map".to_string())
    );
    assert_eq!(
        map.raw(Position { x: -1, y: 0 }),
        Err("position (-1, 0) is outside the map".to_string())
    );
}

#[test]
fn map_loading_reports_each_error() {
    let load = |source: &str| load_map(&parse(source).unwrap()[0]);
    assert_eq!(
        load("[map]\nheight=1\ndata=Gg\n[/map]").unwrap_err(),
        "[map] has no required attribute width"
    );
    assert_eq!(
        load("[map]\nwidth=x\nheight=1\ndata=Gg\n[/map]").unwrap_err(),
        "[map].width must be an integer"
    );
    assert_eq!(
        load("[map]\nwidth=1\nheight=0\ndata=Gg\n[/map]").unwrap_err(),
        "[map].height must be a positive integer"
    );
    assert_eq!(
        load("[map]\nwidth=1\nheight=1\n[/map]").unwrap_err(),
        "[map] has no required attribute data"
    );
    assert_eq!(
        load("[map]\nwidth=2\nheight=1\ndata=Gg\n[/map]").unwrap_err(),
        "map data does not match 2x1"
    );
    assert_eq!(
        load("[map]\nwidth=1\nheight=1\ndata=<<\nGg\nGg\n>>\n[/map]").unwrap_err(),
        "map data does not match 1x1"
    );
}

#[test]
fn short_cell_lists_and_empty_maps_are_errors() {
    let short = map(2, 2, &["Gg", "Gg", "Gg"]);
    assert_eq!(short.raw(Position { x: 1, y: 2 }), Ok("Gg"));
    assert_eq!(
        short.raw(Position { x: 2, y: 2 }),
        Err("map dimensions do not match its cells".to_string())
    );
    let empty = map(0, 3, &[]);
    assert_eq!(
        empty.raw(Position { x: 1, y: 1 }),
        Err("hex bounds must be positive".to_string())
    );
    assert!(empty.bounds().is_err());
    assert_eq!(map(3, 3, &[]).neighbors(Position { x: 3, y: 3 }).len(), 2);
}

#[test]
fn overflowing_rule_offsets_are_refused_before_turning() {
    let source = "[terrain_rule]\nid=far\nrotations=6\n\
                  [constraint]\nq=2147483647\nr=1\nterrain=*\n[/constraint]\n\
                  [image]\nname=x\n[/image]\n[/terrain_rule]";
    assert!(load_rules_checked(source).is_none());
    let near = "[terrain_rule]\nid=near\n[constraint]\nq=1\nr=0\nterrain=*\n[/constraint]\n\
                [image]\nname=x\n[/image]\n[/terrain_rule]";
    assert_eq!(load_rules_checked(near).unwrap().unwrap().len(), 1);
    assert_eq!(
        load_rules_checked("[other]\n[/other]"),
        Some(Err("unexpected terrain node [other]".to_string()))
    );
}

fn any_rule(id: &str, path: &str, layer: i16, probability: u8) -> TerrainRule {
    TerrainRule {
        id: id.into(),
        probability,
        constraints: vec![Constraint {
            offset: (0, 0),
            terrain: TerrainMatch::Any,
            forbid_flags: vec![],
            set_flags: vec![],
        }],
        images: vec![RuleImage {
            path: path.into(),
            layer,
            base: (0, 0),
            center: None,
        }],
    }
}

#[test]
fn compose_places_every_anchor_in_drawing_order() {
    let grid = map(2, 2, &["Gg", "Gg", "Gg", "Gg"]);
    let placed = compose(&grid, &[any_rule("a", "a", 0, 100)], 7);
    let anchors = placed.iter().map(|p| (p.anchor.x, p.anchor.y)).collect::<Vec<_>>();
    assert_eq!(anchors, vec![(1, 1), (2, 1), (1, 2), (2, 2)]);
    assert!(compose(&grid, &[any_rule("a", "a", 0, 0)], 7).is_empty());
    let keyed = vec![((1, 0, 0, 0), "b"), ((0, 0, 0, 0), "a"), ((1, 0, 0, 0), "c")];
    let sorted = sort_by_key(keyed)
        .into_iter()
        .map(|(_, item)| item)
        .collect::<Vec<_>>();
    assert_eq!(sorted, vec!["a", "b", "c"]);
}

#[test]
fn rule_images_become_known_visuals_only() {
    let grid = map(1, 1, &["Wo"]);
    let rules = vec![
        any_rule("a", "transition-ocean-ne", -300, 100),
        any_rule("b", "stone-bridge-end-sw", -5, 100),
        any_rule("c", "wood-bridge-n-s", -10, 100),
        any_rule("d", "ocean", -1000, 100),
        any_rule("e", "unknown", 0, 100),
    ];
    let visuals = rule_visuals(&grid, &rules);
    let kinds = visuals.iter().map(|t| (t.image, t.kind, t.layer)).collect::<Vec<_>>();
    assert_eq!(
        kinds,
        vec![
            ("ocean", VisualKind::Base, -1000),
            ("transition-ocean", VisualKind::Transition(1), -300),
            ("stone-bridge-end", VisualKind::BridgeEnd(4), -5),
        ]
    );
    let all = build_visuals(&grid, &rules);
    assert_eq!(all.len(), 3);
    assert!(all.windows(2).all(|pair| pair[0].layer <= pair[1].layer));
}

#[test]
fn visuals_come_in_layer_then_depth_order() {
    let grid = map(
        3,
        3,
        &["Mm", "Mm", "Gg^Fp", "Ch", "Kh", "Ww^Bw|", "Ds", "Ww", "Rp"],
    );
    let visuals = build_visuals(&grid, &[]);
    assert!(!visuals.is_empty());
    assert!(visuals.windows(2).all(|pair| {
        pair[0].layer < pair[1].layer
            || (pair[0].layer == pair[1].layer && visual_depth(&pair[0]) <= visual_depth(&pair[1]))
    }));
}

#[test]
fn forests_shrink_only_next_to_hard_edges() {
    let grid = map(3, 1, &["Gg", "Gg^Fp", "Gg^Vh"]);
    assert!(forest_needs_small(&grid, Position { x: 2, y: 1 }, "Fp"));
    assert!(!forest_needs_small(&grid, Position { x: 1, y: 1 }, "Fp"));
    assert!(!forest_needs_small(&grid, Position { x: 2, y: 1 }, "Vh"));
}

#[test]
fn load_rules_matches_its_checked_form() {
    let near = "[terrain_rule]\nid=near\nrotations=6\n[constraint]\nq=1\nr=0\nterrain=*\n[/constraint]\n\
                [image]\nname=x-@R0\n[/image]\n[/terrain_rule]";
    let plain = load_rules(near).unwrap();
    let checked = load_rules_checked(near).unwrap().unwrap();
    assert_eq!(plain, checked);
    assert_eq!(plain.len(), 6);
}

#[test]
fn terrain_codes_come_from_strings_or_terrain_fields() {
    let grid = WorldMap {
        width: 3,
        height: 1,
        cells: vec![
            Value::String("Gg".to_string()),
            Value::Record(vec![
                ("owner".to_string(), Value::Integer(1)),
                ("terrain".to_string(), Value::String("Ww".to_string())),
            ]),
            Value::Record(vec![("terrain".to_string(), Value::Integer(7))]),
        ],
    };
    assert_eq!(grid.raw(Position { x: 1, y: 1 }), Ok("Gg"));
    assert_eq!(grid.raw(Position { x: 2, y: 1 }), Ok("Ww"));
    assert_eq!(
        grid.raw(Position { x: 3, y: 1 }),
        Err("map cell has no string terrain field".to_string())
    );
    assert_eq!(
        wesnoth_engine::map::terrain_code(&Value::Null),
        Err("map cell has no string terrain field")
            .map_err(str::to_string)
    );
}

#[test]
fn raw_maps_keep_rows_and_reject_ragged_ones() {
    let map = parse_raw_map("Gg, Ww\n\n  \nMm ,Hh\r\n").unwrap();
    assert_eq!((map.width, map.height), (2, 2));
    assert_eq!(
        map.cells,
        ["Gg", "Ww", "Mm", "Hh"].map(|c| Value::String(c.to_string())).to_vec()
    );
    assert_eq!(
        parse_raw_map("Gg,Ww\nMm\n").unwrap_err(),
        "raw map has inconsistent row widths"
    );
    assert_eq!(
        parse_raw_map(" \n").unwrap_err(),
        "raw map has inconsistent row widths"
    );
}

#[test]
fn strikes_alternate_and_explicit_orders_are_checked() {
    assert_eq!(strike_sequence([3, 1], false, None), Ok(vec![0, 1, 0, 0]));
    assert_eq!(strike_sequence([2, 2], true, None), Ok(vec![1, 0, 1, 0]));
    assert_eq!(strike_sequence([0, 0], true, None), Ok(vec![]));
    assert_eq!(strike_sequence([3, 1], false, Some(vec![2, 1, 1])), Ok(vec![1, 0, 0]));
    assert_eq!(
        strike_sequence([3, 1], false, Some(vec![1, 3])),
        Err("combat sequence side must be 1 or 2".to_string())
    );
}

#[test]
fn a_hit_drains_slows_and_can_end_the_fight() {
    let fight = Fight {
        hp: [9, 7],
        slow: [true, false],
        stopped: false,
        hit: [false, false],
    };
    let drain = Weapon {
        damage: 6,
        slowed_damage: 3,
        slow: true,
        heal_percent: 50,
        heal_constant: 0,
        minimum_source_hp: 0,
        petrify: false,
    };
    assert!(impact_in_range(9, 7, 3, 50, 0));
    let after = after_hit(fight, &drain, 0, 10);
    assert_eq!(after.hp, [10, 4]);
    assert_eq!(after.slow, [true, true]);
    assert_eq!(after.hit, [false, true]);
    assert!(!after.stopped);
    let killing = Weapon {
        damage: 20,
        ..drain
    };
    let unslowed = Fight {
        slow: [false, false],
        ..fight
    };
    let after = after_hit(unslowed, &killing, 0, 10);
    assert_eq!(after.hp, [10, 0]);
    assert!(after.stopped);
    assert!(!impact_in_range(i64::MAX, 7, 6, 50, 1));
}

fn object_files(path: &str) -> Result<String, String> {
    match path {
        "objects/grass.wml" => Ok("[map_object]\nid=grassland\ncolor=#336633\n[/map_object]".into()),
        "objects/water.wml" => Ok(
            "[map_object]\nid=water\nrenderer=render/water.lua\ncodes=Ww, Wo\n[/map_object]".into(),
        ),
        "objects/again.wml" => Ok("[map_object]\nid=water\n[/map_object]".into()),
        "objects/nocodes.wml" => Ok("[map_object]\nid=hills\nrenderer=render/water.lua\n[/map_object]".into()),
        "objects/lost.wml" => Ok("[map_object]\nid=hills\nrenderer=render/lost.lua\ncodes=Hh\n[/map_object]".into()),
        "objects/badcolor.wml" => Ok("[map_object]\nid=hills\ncolor=#12345g\n[/map_object]".into()),
        "objects/none.wml" => Ok("[other]\n[/other]".into()),
        "objects/two.wml" => Ok("[map_object]\nid=a\n[/map_object]\n[map_object]\nid=b\n[/map_object]".into()),
        "render/water.lua" => Ok("return {}".into()),
        other => Err(format!("no file {other}")),
    }
}

#[test]
fn map_resources_register_objects_and_scripts() {

    let grid = map(2, 1, &["Gg", "Ww"]);
    let (tiles, scripts) =
        load_resources(&grid, "objects/grass.wml, objects/water.wml", &object_files).unwrap();
    assert_eq!(tiles.get("Gg").map(|tile| tile.color), Some([0x33, 0x66, 0x33]));
    assert_eq!(tiles.get("Ww").map(|tile| tile.color), Some([96, 96, 96]));
    assert_eq!(scripts.len(), 1);
    assert_eq!(scripts[0].family, "water");
    assert_eq!(scripts[0].codes, vec!["Ww", "Wo"]);
    assert_eq!(scripts[0].source, "return {}");

    let err = |paths: &str, grid: &WorldMap| load_resources(grid, paths, &object_files).err().unwrap();
    assert_eq!(
        err("objects/water.wml,objects/again.wml", &grid),
        "duplicate map object id: water"
    );
    assert_eq!(err("objects/missing.wml", &grid), "no file objects/missing.wml");
    assert_eq!(
        err("objects/grass.wml,objects/water.wml", &map(1, 1, &["Hh"])),
        "map uses unknown map object: Hh"
    );
    assert_eq!(
        err("objects/nocodes.wml", &grid),
        "[map_object] has no required attribute codes"
    );
    assert_eq!(
        err("objects/lost.wml", &grid),
        "cannot read terrain renderer render/lost.lua: no file render/lost.lua"
    );
    assert_eq!(err("objects/badcolor.wml", &grid), "invalid map object color: 12345g");
    assert_eq!(err("objects/none.wml", &grid), "missing [map_object]");
    assert_eq!(err("objects/two.wml", &grid), "expected one [map_object]");
}
