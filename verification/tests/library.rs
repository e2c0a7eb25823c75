use wesnoth_engine::combat::impact;
use wesnoth_engine::data_format::parse;
use wesnoth_engine::engine::{self, EngineError};
use wesnoth_engine::game::{lua_path_to_module, load_dialogs, one_root, parse_i64, read_wml, split_paths};
use wesnoth_engine::hex::{adjacent, distance, neighbors as hex_neighbors, Bounds, Position};
use wesnoth_engine::map::{dimension, parse_color, MapTile, MapTiles};
use wesnoth_engine::pathfinding::{search, SearchRequest};
use wesnoth_engine::protocol::{id, unique};
use wesnoth_engine::resources::{
    module_file, normalize_path, validate_manifest, AssetDescriptor, Manifest, Package,
};
use wesnoth_engine::runtime::RuntimeError;
use wesnoth_engine::store::{self, parse_map_id, validate_address, Address};
use wesnoth_engine::terrain::{
    bridge_axis, bridge_image, castle_wall_family, direction, gameplay_type, hex_screen_y,
    is_castle, is_keep, is_raised_keep, is_water, mountain_range_base_y, mountain_single_image,
    neighbors as terrain_neighbors, overlay_image, overlay_layer, range_anchor, rule_managed_base,
    transition_image, transition_priority, visual_codes, visual_depth, wall_anchor,
    wood_bridge_image, VisualKind, VisualTile,
};
use wesnoth_engine::terrain_rules::{
    csv, integer, load_rules, offset, pair, roll, rotated, wildcard, TerrainMatch,
};
use wesnoth_engine::terrain_scene::{asset_id, matching_code, ImageModifiers, SpriteFrames};

fn p(x: i64, y: i64) -> Position {
    Position { x, y }
}

#[test]
fn hex_neighbors_are_one_step_away_and_distance_is_symmetric() {
    for position in [p(2, 2), p(3, 2), p(-4, 7)] {
        for n in hex_neighbors(position) {
            assert_eq!(distance(position, n), 1);
            assert_eq!(distance(n, position), 1);
        }
        assert_eq!(distance(position, position), 0);
    }
    assert_eq!(distance(p(1, 1), p(4, 3)), distance(p(4, 3), p(1, 1)));
    assert!(!adjacent(p(1, 1), p(1, 3)));
    assert!(Bounds::new(0, 3).is_err());
    assert!(Bounds::new(3, 0).is_err());
}

#[test]
fn terrain_neighbors_run_clockwise_from_north_on_both_parities() {
    assert_eq!(
        terrain_neighbors(p(2, 2)),
        [p(2, 1), p(3, 1), p(3, 2), p(2, 3), p(1, 2), p(1, 1)]
    );
    assert_eq!(
        terrain_neighbors(p(3, 2)),
        [p(3, 1), p(4, 2), p(4, 3), p(3, 3), p(2, 3), p(2, 2)]
    );
    for position in [p(2, 2), p(3, 2)] {
        let mut drawn: Vec<_> = terrain_neighbors(position).to_vec();
        let mut hex: Vec<_> = hex_neighbors(position).to_vec();
        drawn.sort();
        hex.sort();
        assert_eq!(drawn, hex);
    }
}

#[test]
fn codes_split_into_base_and_overlay() {
    assert_eq!(visual_codes("Ww^Bw|"), ("Ww", "Bw|"));
    assert_eq!(visual_codes("1 Ke"), ("Ke", ""));
    assert_eq!(visual_codes("Gg"), ("Gg", ""));
    assert_eq!(visual_codes("  "), ("  ", ""));
    assert_eq!(visual_codes("a b^c^d  "), ("b", "c^d"));
}

#[test]
fn gameplay_types_follow_overlay_then_base() {
    assert_eq!(gameplay_type("Gs^Fms"), "forest");
    assert_eq!(gameplay_type("Ww^Bw/"), "grassland");
    assert_eq!(gameplay_type("Wo^Bw\\"), "grassland");
    assert_eq!(gameplay_type("Ww^Bsb|"), "grassland");
    assert_eq!(gameplay_type("1 Ke"), "keep");
    assert_eq!(gameplay_type("Gg^Vh"), "village");
    assert_eq!(gameplay_type("Ch"), "castle");
    assert_eq!(gameplay_type("Ss"), "water");
    assert_eq!(gameplay_type("Mm"), "hills");
    assert_eq!(gameplay_type("village"), "village");
    assert_eq!(gameplay_type("Rd"), "grassland");
}

#[test]
fn terrain_families_and_transitions() {
    assert!(is_water("Wwf") && is_water("Ss") && !is_water("Gg"));
    assert!(is_castle("Ce") && is_castle("Khr") && is_castle("keep") && !is_castle("Gg"));
    assert!(is_keep("Ke") && !is_keep("Ce"));
    assert!(is_raised_keep("Khr") && !is_raised_keep("Ke"));
    assert!(rule_managed_base("Wwg") && !rule_managed_base("Ds"));
    assert_eq!(transition_priority("Hh"), 40);
    assert_eq!(transition_priority("Xu"), -1);
    assert_eq!(transition_image("Ds"), Some("transition-beach"));
    assert_eq!(transition_image("Mm"), None);
    assert_eq!(castle_wall_family("Chw"), "sunken-ruin");
    assert_eq!(castle_wall_family("Ke"), "encampment");
    assert_eq!(castle_wall_family("Ch"), "castle");
}

#[test]
fn bridges_pick_their_axis_and_images() {
    assert_eq!(bridge_axis("Bw|"), (0, 3));
    assert_eq!(bridge_axis("Bw/"), (1, 4));
    assert_eq!(bridge_axis("Bw\\"), (2, 5));
    assert_eq!(bridge_image("Bsb/"), "stone-bridge-ne-sw");
    assert_eq!(bridge_image("Bw|"), "wood-bridge-n-s");
    assert_eq!(
        wood_bridge_image("Bw|", [true, false, true, false, false, false]),
        "wood-bridge-n-se"
    );
    assert_eq!(
        wood_bridge_image("Bw/", [true, false, false, true, false, false]),
        "wood-bridge-ne-sw"
    );
    assert_eq!(overlay_layer("Bw|"), -10);
    assert_eq!(overlay_layer("Fp"), 10);
    assert_eq!(overlay_layer("Vh"), 0);
}

#[test]
fn overlays_vary_by_position_and_shrink_near_edges() {
    assert_eq!(overlay_image("Fp", p(1, 1), true), Some("forest-pine-small"));
    // 17 + 31 = 48, a multiple of three.
    assert_eq!(overlay_image("Fp", p(1, 1), false), Some("forest-pine-1"));
    // 34 + 31 = 65, which leaves two.
    assert_eq!(overlay_image("Fms", p(2, 1), false), Some("forest-mixed-3"));
    // -17 + 31 = 14, which leaves two.
    assert_eq!(mountain_single_image(p(-1, 1)), "mountains-single-3");
    assert_eq!(overlay_image("Bsb|", p(1, 1), false), Some("stone-bridge-n-s"));
    assert_eq!(overlay_image("", p(1, 1), false), None);
    assert_eq!(overlay_image("Qx", p(1, 1), false), None);
}

#[test]
fn directions_and_depths() {
    assert_eq!(direction("stone-bridge-end-ne", "stone-bridge-end-"), Some(1));
    assert_eq!(direction("transition-ocean-nw", "transition-ocean-"), Some(5));
    assert_eq!(direction("xxn", "x"), Some(0));
    assert_eq!(direction("stone-bridge-end-up", "stone-bridge-end-"), None);
    assert_eq!(hex_screen_y(p(1, 1)), 0);
    assert_eq!(hex_screen_y(p(2, 3)), 108);
    assert_eq!(wall_anchor(2), (36, 36));
    assert_eq!(wall_anchor(11), (90, 144));
    assert_eq!(range_anchor("mountain-long-ne-2"), Some((90, 216)));
    assert_eq!(mountain_range_base_y("mountain-long-se-3"), Some(73));
    assert_eq!(mountain_range_base_y("mountain-range-ne-1"), Some(144));
    assert_eq!(mountain_range_base_y("mountain"), None);
    let wall = VisualTile {
        position: p(2, 2),
        image: "keep-convex",
        kind: VisualKind::KeepConvex(0),
        layer: 20,
    };
    assert_eq!(visual_depth(&wall), (1, 72 - 36 - 108));
    let range = VisualTile {
        position: p(1, 2),
        image: "mountain-range-se-3",
        kind: VisualKind::MountainRange,
        layer: 8,
    };
    assert_eq!(visual_depth(&range), (0, 72 - 144 + 144));
    let base = VisualTile { position: p(1, 1), image: "dirt", kind: VisualKind::Base, layer: 0 };
    assert_eq!(visual_depth(&base), (0, i64::MIN));
}

#[test]
fn wildcards_match_parts_in_order() {
    assert!(wildcard("*", "anything"));
    assert!(wildcard("G*", "Gg"));
    assert!(!wildcard("G*", "Wo"));
    assert!(wildcard("*g", "Gg"));
    assert!(wildcard("W*^B*", "Ww^Bw|"));
    assert!(wildcard("Gg", "Gg"));
    assert!(!wildcard("Gg", "Ggg"));
    // The parts are found at their first occurrence, so this pattern misses.
    assert!(!wildcard("a*b", "abab"));
    assert!(TerrainMatch::Any.accepts(Some("Xu")));
    let castles = TerrainMatch::Codes { included: vec!["C*".into()], exclude: vec!["Ce".into()] };
    assert!(castles.accepts(Some("Ch")));
    assert!(!castles.accepts(Some("Ce")));
    assert!(!castles.accepts(None));
}

#[test]
fn offsets_roll_and_rotated_names() {
    assert_eq!(offset(p(1, 1), (1, 0)), p(2, 2));
    assert_eq!(offset(p(1, 1), (1, -1)), p(2, 1));
    assert_eq!(offset(p(2, 2), (0, 1)), p(2, 3));
    assert_eq!(offset(p(2, 2), (1, -1)), p(3, 1));
    assert!(roll(7, 3, p(1, 1), 100));
    assert!(!roll(7, 3, p(1, 1), 0));
    let names: Vec<String> = ["n", "ne", "se", "s", "sw", "nw"].iter().map(|s| s.to_string()).collect();
    assert_eq!(rotated("edge-@R0-@R1", 2, &names), "edge-se-s");
    assert_eq!(rotated("plain", 4, &names), "plain");
    assert_eq!(csv(" a, ,b ,"), ["a", "b"]);
    assert_eq!(pair(" 3 , -4"), Ok((3, -4)));
    assert_eq!(pair("1"), Err("expected x,y, got 1".to_string()));
    assert_eq!(pair("a,1"), Err("invalid pair a,1".to_string()));
    let nodes = parse("[image]\nlayer=x\n[/image]").unwrap();
    assert_eq!(integer(&nodes[0], "layer", 0), Err("invalid integer layer in [image]".to_string()));
    assert_eq!(integer(&nodes[0], "q", 5), Ok(5));
}

#[test]
fn rule_loading_reports_each_error() {
    let err = |source: &str| load_rules(source).unwrap_err();
    assert_eq!(err("[other]\n[/other]"), "unexpected terrain node [other]");
    assert_eq!(
        err("[terrain_rule]\n[/terrain_rule]"),
        "[terrain_rule] has no required attribute id"
    );
    assert_eq!(
        err("[terrain_rule]\nid=x\nprobability=101\n[/terrain_rule]"),
        "probability exceeds 100 in x"
    );
    assert_eq!(
        err("[terrain_rule]\nid=x\nprobability=lots\n[/terrain_rule]"),
        "invalid probability in x"
    );
    assert_eq!(
        err("[terrain_rule]\nid=x\nrotations=7\n[/terrain_rule]"),
        "rotations must select turns 0..=5 in x"
    );
    assert_eq!(
        err("[terrain_rule]\nid=x\nrotation_turns=1,z\n[/terrain_rule]"),
        "invalid rotation_turns in x"
    );
    assert_eq!(
        err("[terrain_rule]\nid=x\nrotation_names=a,b\n[/terrain_rule]"),
        "rotation_names must contain six values in x"
    );
    assert_eq!(err("[terrain_rule]\nid=x\n[/terrain_rule]"), "terrain rule x is empty");
    assert!(load_rules("[terrain_rule]").is_err());
    let rules = load_rules(
        "[terrain_rule]\nid=b\nrotation_turns=0,3\n\
         [constraint]\nterrain=W*\nforbid_flags=@R0\n[/constraint]\n\
         [image]\nname=bridge-@R0\n[/image]\n[/terrain_rule]",
    )
    .unwrap();
    assert_eq!(rules.len(), 2);
    assert_eq!(rules[1].id, "b:3");
    assert_eq!(rules[1].probability, 100);
    assert_eq!(rules[1].constraints[0].forbid_flags, ["s"]);
    assert_eq!(rules[1].images[0].path, "bridge-s");
    assert_eq!(rules[1].images[0].base, (0, 0));
    assert_eq!(rules[1].images[0].center, None);
}

#[test]
fn map_addresses_read_back_their_positions() {
    for position in [p(3, -4), p(0, 0), p(i64::MIN, i64::MAX)] {
        let address = Address::map(position);
        assert_eq!(address.collection, "map");
        assert_eq!(parse_map_id(&address.id), Ok(position));
    }
    assert_eq!(Address::map(p(3, -4)).id, "3,-4");
    assert_eq!(parse_map_id("3;4"), Err("invalid map address: 3;4".to_string()));
    assert!(parse_map_id("3,x").is_err());
    assert_eq!(Address::entity("u1").collection, "entities");
    assert_eq!(Address::data("turn").collection, "data");
    assert_eq!(
        Address::new("", "x"),
        Err("store address parts must not be empty".to_string())
    );
    assert!(Address::new("map", "1,1").is_ok());
    let empty = Address { collection: "map".into(), id: String::new() };
    assert!(validate_address(&empty).is_err());
}

#[test]
fn random_numbers_stay_in_range_and_reject_bad_ranges() {
    let mut random = store::DeterministicRandom::new(42);
    for _ in 0..50 {
        let value = random.integer(-3, 3).unwrap();
        assert!((-3..=3).contains(&value));
    }
    assert_eq!(random.integer(5, 4), Err("invalid random range 5..4".to_string()));
    assert_eq!(
        random.integer(i64::MIN, i64::MAX),
        Err(format!("random range is too wide: {}..{}", i64::MIN, i64::MAX))
    );
    let mut legacy = engine::DeterministicRandom::new(42);
    let mut checked = store::DeterministicRandom::new(42);
    for _ in 0..10 {
        assert_eq!(legacy.integer(1, 6), checked.integer(1, 6));
    }
    assert!(legacy.integer(2, 1).is_err());
}

#[test]
fn impact_keeps_the_source_within_its_bounds() {
    assert_eq!(impact(5, 10, 8, 4, 100, 0, 1), (8, 6));
    assert_eq!(impact(5, 10, 20, -3, 50, -9, 1), (1, 10));
    assert_eq!(impact(5, 10, 20, 3, -50, 0, 0), (4, 7));
    let error = EngineError::new("conflict", "stale revision");
    assert_eq!(error.code, "conflict");
    assert_eq!(error.message, "stale revision");
}

#[test]
fn map_tiles_and_colours() {
    let mut tiles = MapTiles::new();
    assert!(tiles.insert("hills".into(), MapTile { color: [1, 2, 3] }).is_none());
    assert!(tiles.insert("water".into(), MapTile { color: [0, 0, 9] }).is_none());
    assert_eq!(tiles.insert("water".into(), MapTile { color: [0, 0, 8] }), Some(MapTile { color: [0, 0, 9] }));
    assert_eq!(tiles.get("Mm"), Some(&MapTile { color: [1, 2, 3] }));
    assert_eq!(tiles.get("Ww^Ewl"), Some(&MapTile { color: [0, 0, 8] }));
    assert_eq!(tiles.get("Gg"), None);
    assert_eq!(parse_color("#ff0080"), Ok([255, 0, 128]));
    assert_eq!(parse_color("0A0b0C"), Ok([10, 11, 12]));
    assert_eq!(parse_color("+f0000"), Ok([15, 0, 0]));
    assert_eq!(parse_color("#fff"), Err("invalid map object color: fff".to_string()));
    assert_eq!(parse_color("zz0000"), Err("invalid map object color: zz0000".to_string()));
    let nodes = parse("[map]\nwidth=12\nheight=x\n[/map]").unwrap();
    assert_eq!(dimension(&nodes[0], "width"), Ok(12));
    assert_eq!(dimension(&nodes[0], "height"), Err("[map].height must be an integer".to_string()));
    assert_eq!(
        dimension(&nodes[0], "depth"),
        Err("[map] has no required attribute depth".to_string())
    );
}

#[test]
fn sprite_frames_cycle_and_codes_match() {
    let still = SpriteFrames::still("tile");
    assert_eq!(still.asset_at(0), "tile");
    assert_eq!(still.asset_at(123_456), "tile");
    let frames = SpriteFrames { assets: vec!["a".into(), "b".into(), "c".into()], frame_ms: 100, phase_ms: 50 };
    assert_eq!(frames.asset_at(0), "a");
    assert_eq!(frames.asset_at(50), "b");
    assert_eq!(frames.asset_at(260), "a");
    let codes: Vec<String> = vec!["Gg".into(), "Fp".into()];
    assert_eq!(matching_code(&codes, "Gg", "Fp"), Some("Gg"));
    assert_eq!(matching_code(&codes, "Ww", "Fp"), Some("Fp"));
    assert_eq!(matching_code(&codes, "", ""), None);
    assert_eq!(asset_id("grass", "green-1"), "grass:green-1");
    let modifiers = ImageModifiers::default();
    assert_eq!(modifiers.opacity, 255);
    assert!(modifiers.crop.is_none() && modifiers.masks.is_empty());
}

fn manifest() -> Manifest {
    Manifest {
        package_id: "test".into(),
        package_version: "1".into(),
        entry: "game.init".into(),
        resource_roots: vec!["game".into(), "rules".into(), "scenarios".into()],
        protocol_version: 1,
        modules: vec!["game.init".into(), "rules.example".into()],
        assets: vec![(
            "ui.banner".into(),
            AssetDescriptor { path: "game/banner.png".into(), media_type: "image/png".into() },
        )],
    }
}

fn files(path: &str) -> Result<String, String> {
    match path {
        "game/init.lua" => Ok("return {}".into()),
        "rules/example.lua" => Ok("return { rules = true }".into()),
        "scenarios/test.wml" => Ok("[unknown]\n[/unknown]".into()),
        "scenarios/bad.wml" => Ok("[unknown]".into()),
        other => Err(other.to_owned()),
    }
}

#[test]
fn package_paths_are_normalized_and_confined() {
    assert_eq!(normalize_path("a\\b/./c//d"), Ok("a/b/c/d".to_string()));
    assert_eq!(normalize_path("./x"), Ok("x".to_string()));
    assert_eq!(normalize_path("../x"), Err("invalid package path: ../x".to_string()));
    assert_eq!(normalize_path("a\\..\\b"), Err("invalid package path: a/../b".to_string()));
    assert!(normalize_path("/x").is_err());
    assert!(normalize_path("").is_err());
    assert_eq!(normalize_path("./."), Err("invalid package path: ./.".to_string()));
    assert_eq!(module_file("rules.example"), Ok("rules/example.lua".to_string()));
    assert_eq!(module_file("a..b"), Err("invalid module name: a..b".to_string()));
    assert!(module_file("a.b-c").is_err());
    assert!(module_file("").is_err());
    assert_eq!(lua_path_to_module(&module_file("rules.example").unwrap()), Ok("rules.example".to_string()));
}

#[test]
fn manifests_are_checked_in_order() {
    assert_eq!(validate_manifest(&manifest()), Ok(()));
    let mut m = manifest();
    m.protocol_version = 0;
    assert_eq!(validate_manifest(&m), Err("package manifest has empty required fields".to_string()));
    let mut m = manifest();
    m.entry = "game.main".into();
    assert_eq!(validate_manifest(&m), Err("package entry is not declared in modules".to_string()));
    let mut m = manifest();
    m.resource_roots.push("a/b".into());
    assert_eq!(validate_manifest(&m), Err("resource root must be one path segment: a/b".to_string()));
    let mut m = manifest();
    m.modules.push("bad name".into());
    assert_eq!(validate_manifest(&m), Err("invalid module name: bad name".to_string()));
    let mut m = manifest();
    m.assets[0].1.path = "other/banner.png".into();
    assert_eq!(
        validate_manifest(&m),
        Err("asset path is outside declared roots: other/banner.png".to_string())
    );
    let mut m = manifest();
    m.assets[0].1.media_type = " ".into();
    assert_eq!(validate_manifest(&m), Err("asset id and media_type must not be empty".to_string()));
    assert_eq!(manifest().identity().package_id, "test");
}

#[test]
fn package_rejects_escape_and_unknown_modules() {
    let package = Package::from_manifest(manifest()).unwrap();
    assert!(package.read_text("../package.json", &files).is_err());
    assert_eq!(
        package.read_text("Cargo.toml", &files),
        Err("resource path is outside declared roots: Cargo.toml".to_string())
    );
    assert_eq!(package.read_text("rules\\example.lua", &files), Ok("return { rules = true }".to_string()));
    assert!(package.module("rules.missing", &files).is_err());
    assert_eq!(package.module("game.init", &files), Ok("return {}".to_string()));
    assert_eq!(package.asset("ui.banner").unwrap().path, "game/banner.png");
    assert_eq!(package.asset("ui.missing"), Err("unknown package asset: ui.missing".to_string()));
    assert_eq!(package.read_data("scenarios/test.wml", &files).unwrap()[0].name, "unknown");
    assert!(package.read_data("scenarios/bad.wml", &files).unwrap_err().starts_with("scenarios/bad.wml: "));
    let sources = package.module_sources(&files).unwrap();
    assert_eq!(sources.len(), 2);
    assert_eq!(sources[1], ("rules.example".to_string(), "return { rules = true }".to_string()));
    assert_eq!(package.manifest().entry, "game.init");
    let mut broken = manifest();
    broken.modules.push("rules.missing".into());
    let broken = Package::from_manifest(broken).unwrap();
    assert_eq!(broken.module_sources(&files), Err("rules/missing.lua".to_string()));
}

#[test]
fn game_data_helpers() {
    assert_eq!(lua_path_to_module("rules/combat/melee.lua"), Ok("rules.combat.melee".to_string()));
    assert_eq!(
        lua_path_to_module("rules/combat.txt"),
        Err("rule module must end with .lua: rules/combat.txt".to_string())
    );
    let nodes = parse("[scenario]\nturns=12\nname=x\n[/scenario]\n[map]\n[/map]\n[map]\n[/map]").unwrap();
    assert_eq!(one_root(&nodes, "scenario").unwrap().name, "scenario");
    assert_eq!(one_root(&nodes, "map").unwrap_err(), "expected one [map]");
    assert_eq!(one_root(&nodes, "side").unwrap_err(), "missing [side]");
    assert_eq!(parse_i64(&nodes[0], "turns"), Ok(12));
    assert_eq!(parse_i64(&nodes[0], "name"), Err("[scenario].name must be an integer".to_string()));
    assert_eq!(split_paths("a.wml, b.wml,,"), ["a.wml", "b.wml"]);
    assert_eq!(read_wml("scenarios/test.wml", &files).unwrap()[0].name, "unknown");
    assert_eq!(read_wml("missing.wml", &files).unwrap_err(), "missing.wml");
}

#[test]
fn dialogs_need_lines_and_distinct_ids() {
    let nodes = parse(
        "[dialog]\nid=intro\n[line]\nspeaker=Kalenz\ntext=Hello\n[/line]\n[/dialog]\n\
         [other]\n[/other]\n\
         [dialog]\nid=outro\n[line]\nspeaker=A\ntext=B\n[/line]\n[line]\nspeaker=C\ntext=D\n[/line]\n[/dialog]",
    )
    .unwrap();
    let dialogs = load_dialogs(&nodes).unwrap();
    assert_eq!(dialogs.len(), 2);
    assert_eq!(dialogs[0].0, "intro");
    assert_eq!(dialogs[0].1[0].speaker, "Kalenz");
    assert_eq!(dialogs[1].1.len(), 2);
    let repeated = parse(
        "[dialog]\nid=a\n[line]\nspeaker=A\ntext=B\n[/line]\n[/dialog]\n\
         [dialog]\nid=a\n[line]\nspeaker=A\ntext=B\n[/line]\n[/dialog]",
    )
    .unwrap();
    assert_eq!(load_dialogs(&repeated).unwrap_err(), "duplicate dialog id: a");
    let silent = parse("[dialog]\nid=quiet\n[/dialog]").unwrap();
    assert_eq!(load_dialogs(&silent).unwrap_err(), "dialog quiet has no lines");
    let mute = parse("[dialog]\nid=m\n[line]\nspeaker=A\n[/line]\n[/dialog]").unwrap();
    assert_eq!(load_dialogs(&mute).unwrap_err(), "[line] has no required attribute text");
}

#[test]
fn runtime_and_protocol_errors() {
    assert!(matches!(
        RuntimeError::script("runtime error: Lua instruction limit exceeded (tick 3)"),
        RuntimeError::BudgetExceeded
    ));
    match RuntimeError::script("boom") {
        RuntimeError::Script(message) => assert_eq!(message, "boom"),
        RuntimeError::BudgetExceeded => panic!("not a budget error"),
    }
    assert_eq!(RuntimeError::BudgetExceeded.code(), "budget_exceeded");
    assert_eq!(RuntimeError::Script("x".into()).code(), "script_error");
    assert!(id("abc", "command id").is_ok());
    let blank = id("  ", "command id").unwrap_err();
    assert_eq!(blank.code, "invalid_input");
    assert_eq!(blank.message, "command id must not be empty");
    assert!(unique(&["a", "b", "c"], "unit").is_ok());
    assert_eq!(unique(&["a", "b", "a"], "unit").unwrap_err().message, "duplicate unit id: a");
    assert_eq!(unique(&["a", " ", "a"], "unit").unwrap_err().message, "unit must not be empty");
}

#[test]
fn search_respects_blocks_stops_and_budget() {
    let bounds = Bounds::new(3, 1).unwrap();
    let request = |blocked: Vec<Position>, stops: Vec<Position>, budget| SearchRequest {
        bounds,
        origin: p(1, 1),
        budget,
        costs: vec![(p(1, 1), 0), (p(2, 1), 1), (p(3, 1), 1), (p(3, 1), 2)],
        blocked,
        stop_cells: stops,
    };
    let open = search(&request(vec![], vec![], 10)).unwrap();
    assert_eq!(open.costs, vec![(p(1, 1), 0), (p(2, 1), 1), (p(3, 1), 3)]);
    assert_eq!(open.predecessors, vec![(p(2, 1), p(1, 1)), (p(3, 1), p(2, 1))]);
    let walled = search(&request(vec![p(2, 1)], vec![], 10)).unwrap();
    assert_eq!(walled.costs, vec![(p(1, 1), 0)]);
    let stopped = search(&request(vec![], vec![p(2, 1)], 10)).unwrap();
    assert_eq!(stopped.costs.len(), 2);
    let capped = search(&request(vec![], vec![], 2)).unwrap();
    assert_eq!(capped.costs, vec![(p(1, 1), 0), (p(2, 1), 1), (p(3, 1), 2)]);
    assert!(search(&request(vec![], vec![], -1)).is_err());
    assert!(search(&request(vec![p(9, 9)], vec![], 3)).is_err());
    let mut missing = request(vec![], vec![], 3);
    missing.costs.truncate(2);
    assert_eq!(search(&missing).unwrap_err(), "missing or negative cost at (3, 1)");
}

#[test]
fn node_access_reports_missing_parts() {
    let nodes = parse("[a]\nk=v\n[b]\n[/b]\n[b]\nx=1\n[/b]\n[/a]").unwrap();
    let a = &nodes[0];
    assert_eq!(a.attribute("k"), Ok("v"));
    assert_eq!(a.attribute("z"), Err("[a] has no required attribute z".to_string()));
    assert_eq!(a.children_named("b").len(), 2);
    assert!(a.child("b").unwrap().attributes.is_empty());
    assert!(a.child("c").is_err());
}
