use wesnoth_engine::adventure::Adventure;
use wesnoth_engine::combat::impact;
use wesnoth_engine::data_format::parse;
use wesnoth_engine::engine;
use wesnoth_engine::hex::{adjacent, distance, Bounds, Position};
use wesnoth_engine::pathfinding::{search, SearchRequest};
use wesnoth_engine::store;
use wesnoth_engine::terrain::{base_image, mask_castle_wall, overlay_image};
use wesnoth_engine::engine::GameMap;
use wesnoth_engine::value::Value;
use wesnoth_engine::world::WorldMap;
use wesnoth_engine::map::load_map;
use wesnoth_engine::sprites::sprite_path;
use wesnoth_engine::terrain::{gameplay_type, range_anchor, visual_depth, VisualKind, VisualTile};
use wesnoth_engine::terrain_rules::{
    compose, load_rules, rotate, Constraint, RuleImage, TerrainMatch, TerrainRule,
};
use wesnoth_engine::visuals::build_visuals;

#[test]
fn parses_complete_resource_graph() {
    let adventure = Adventure::parse(
        "[adventure]\nid=demo\nname=Demo\ndescription=Test\n\
         [rules]\ngame=rules.demo\ncombat=rules.combat\n[/rules]\n\
         [units]\nsource=units/demo.wml\n[/units]\n\
         [scenario]\nprocess=scenarios/one.wml\nmap=maps/one.wml\n\
         dialogs=dialogs/one.wml\n[/scenario]\n[/adventure]",
    )
    .unwrap();
    assert_eq!(adventure.id, "demo");
    assert_eq!(adventure.rules.game, "rules.demo");
    assert_eq!(adventure.unit_catalogs, ["units/demo.wml"]);
    assert_eq!(adventure.scenarios[0].map, "maps/one.wml");
}

#[test]
fn capped_damage_and_drain_use_actual_damage() {
    assert_eq!(impact(3, 7, 10, 20, 50, 0, 0), (6, 0));
    assert_eq!(impact(9, 7, 10, 6, 50, 0, 0), (10, 1));
    assert_eq!(impact(3, 7, 10, 20, 0, 0, 0), (3, 0));
}

#[test]
fn engine_random_is_repeatable() {
    let mut a = engine::DeterministicRandom::new(1);
    let mut b = engine::DeterministicRandom::new(1);
    let left: Vec<_> = (0..5).map(|_| a.integer(1, 100).unwrap()).collect();
    let right: Vec<_> = (0..5).map(|_| b.integer(1, 100).unwrap()).collect();
    assert_eq!(left, right);
}

#[test]
fn parses_nested_and_multiline_values() {
    let nodes = parse("[map]\nwidth=2\ndata=<<\na,b\nc,d\n>>\n[/map]").unwrap();
    assert_eq!(nodes[0].attribute("width").unwrap(), "2");
    assert_eq!(nodes[0].attribute("data").unwrap(), "a,b\nc,d");
}

#[test]
fn rejects_mismatched_tags() {
    assert!(parse("[a]\n[/b]").unwrap_err().contains("expected closing"));
}

#[test]
fn rejects_malformed_structure() {
    for source in [
        "[]\n[/]",
        "[a]\n=x\n[/a]",
        "key=value",
        "[a]\nvalue=<<\nmissing end\n[/a]",
        "[a]\nkey=one\nkey=two\n[/a]",
        "[a]",
    ] {
        assert!(parse(source).is_err(), "must reject {source:?}");
    }
}

#[test]
fn geometry_is_consistent_at_edges_and_both_column_parities() {
    let bounds = Bounds::new(5, 3).unwrap();
    for position in [Position { x: 2, y: 2 }, Position { x: 3, y: 2 }] {
        let neighbors = bounds.neighbors(position).unwrap();
        assert_eq!(neighbors.len(), 6);
        assert!(neighbors.iter().all(|neighbor| adjacent(position, *neighbor)));
    }
    assert_eq!(bounds.neighbors(Position { x: 1, y: 1 }).unwrap().len(), 3);
    assert_eq!(distance(Position { x: 1, y: 1 }, Position { x: 3, y: 1 }), 2);
    assert!(bounds.neighbors(Position { x: 0, y: 1 }).is_err());
}

#[test]
fn caller_supplied_costs_and_stops_control_the_search() {
    let bounds = Bounds::new(3, 1).unwrap();
    let request = |middle| SearchRequest {
        bounds,
        origin: Position { x: 1, y: 1 },
        budget: 4,
        costs: vec![
            (Position { x: 1, y: 1 }, 0),
            (Position { x: 2, y: 1 }, middle),
            (Position { x: 3, y: 1 }, 1),
        ],
        blocked: Vec::new(),
        stop_cells: Vec::new(),
    };
    assert_eq!(search(&request(9)).unwrap().costs.len(), 2);
    assert_eq!(search(&request(1)).unwrap().costs.len(), 3);
}

#[test]
fn store_random_is_repeatable() {
    let mut a = store::DeterministicRandom::new(1);
    let mut b = store::DeterministicRandom::new(1);
    let left: Vec<_> = (0..5).map(|_| a.integer(1, 100).unwrap()).collect();
    let right: Vec<_> = (0..5).map(|_| b.integer(1, 100).unwrap()).collect();
    assert_eq!(left, right);
}

#[test]
fn castle_wall_mask_keeps_only_the_three_rule_hexes() {
    let mut pixels = vec![255; 126 * 180 * 4];
    let mut mask = vec![0; 72 * 72 * 4];
    mask[(36 * 72 + 36) * 4 + 3] = 127;

    mask_castle_wall(&mut pixels, 126, 180, &mask, 0);

    assert_eq!(pixels[(108 * 126 + 36) * 4 + 3], 127);
    assert_eq!(pixels[(36 * 126 + 36) * 4 + 3], 127);
    assert_eq!(pixels[(72 * 126 + 90) * 4 + 3], 127);
    assert_eq!(pixels[(179 * 126 + 125) * 4 + 3], 0);
}

#[test]
fn every_two_brothers_terrain_family_has_a_visual() {
    for base in [
        "Hd", "Sm", "Wwr", "Wwrg", "Cme", "Cud", "Kud", "Cvr", "Kvr", "Rd", "Rr", "Iwo", "Uu",
        "Ql", "Xu", "Xoa", "Xos",
    ] {
        assert_ne!(base_image(base), "grass-green", "missing base visual for {base}");
    }
    for overlay in [
        "Fdw", "Fmw", "Fet", "Vhr", "Vhs", "Ve", "Vwm", "Edt", "Dr", "Ewl", "Ewsh", "Wkf", "Ecf",
        "Eb", "Ebn", "Efs",
    ] {
        assert!(
            overlay_image(overlay, Position { x: 1, y: 1 }, false).is_some(),
            "missing overlay visual for {overlay}"
        );
    }
}

#[test]
fn rotates_axial_patterns_through_all_six_directions() {
    let original = (1, 0);
    assert_eq!(rotate(original, 1), (0, 1));
    assert_eq!(rotate(original, 3), (-1, 0));
    assert_eq!(rotate(original, 6), original);
}

#[test]
fn wildcard_constraints_see_the_off_map_border() {
    assert!(TerrainMatch::Codes {
        included: vec!["*".into()],
        exclude: vec!["C*".into()],
    }
    .accepts(None));
}

#[test]
fn compact_wml_rules_expand_rotations_and_metadata() {
    let rules = load_rules(
        "[terrain_rule]\nid=shore\nrotations=6\nprobability=75\n\
         [constraint]\nq=1\nr=0\nterrain=G*\nexclude=Gd\nset_flags=shore-@R0\n[/constraint]\n\
         [image]\nname=grass/green-@R0.png\nlayer=-400\nbase=54,72\ncenter=90,144\n[/image]\n\
         [/terrain_rule]",
    )
    .unwrap();
    assert_eq!(rules.len(), 6);
    assert_eq!(rules[1].constraints[0].offset, (0, 1));
    assert_eq!(rules[1].constraints[0].set_flags, ["shore-ne"]);
    assert_eq!(rules[1].images[0].path, "grass/green-ne.png");
    assert_eq!(rules[1].images[0].center, Some((90, 144)));
}

fn cells(codes: &[&str]) -> Vec<Value> {
    codes.iter().map(|code| Value::String(code.to_string())).collect()
}

#[test]
fn detects_hex_neighbors() {
    let map = GameMap {
        width: 5,
        height: 3,
        cells: vec!["g".to_string(); 15],
    };
    assert!(map.are_adjacent(Position { x: 2, y: 2 }, Position { x: 3, y: 2 }));
    assert!(map.are_adjacent(Position { x: 2, y: 2 }, Position { x: 1, y: 1 }));
    assert!(!map.are_adjacent(Position { x: 2, y: 2 }, Position { x: 1, y: 3 }));
    assert!(!map.are_adjacent(Position { x: 1, y: 1 }, Position { x: 3, y: 1 }));
    for position in [Position { x: 2, y: 2 }, Position { x: 3, y: 2 }] {
        let neighbors = map.neighbors(position);
        assert_eq!(neighbors.len(), 6);
        assert!(neighbors
            .iter()
            .all(|neighbor| map.are_adjacent(position, *neighbor)));
    }
    assert_eq!(map.neighbors(Position { x: 1, y: 1 }).len(), 3);
}

#[test]
fn rejects_invalid_map_dimensions() {
    for dimensions in ["width=0\nheight=1", "width=1\nheight=-1"] {
        let source = format!("[map]\n{dimensions}\ndata=<<\ngrassland\n>>\n[/map]");
        let nodes = parse(&source).unwrap();
        assert!(load_map(&nodes[0]).is_err());
    }
}

#[test]
fn resolves_directional_bridge_sprite() {
    let tile = VisualTile {
        position: Position { x: 1, y: 1 },
        image: "wood-bridge-dock",
        kind: VisualKind::BridgeEnd(4),
        layer: -9,
    };
    assert_eq!(sprite_path(&tile).as_deref(), Some("bridge/wood-dock-sw.png"));
}

fn image(path: &str, layer: i16) -> RuleImage {
    RuleImage {
        path: path.into(),
        layer,
        base: (0, 0),
        center: None,
    }
}

#[test]
fn multi_hex_rules_match_and_flags_prevent_later_images() {
    let map = WorldMap {
        width: 2,
        height: 1,
        cells: cells(&["Ce", "Gg"]),
    };
    let constraint = |offset: (i32, i32), set: &[&str], forbid: &[&str]| Constraint {
        offset,
        terrain: TerrainMatch::Codes {
            included: vec![if offset == (0, 0) { "C*" } else { "G*" }.into()],
            exclude: vec![],
        },
        set_flags: set.iter().map(|value| (*value).into()).collect(),
        forbid_flags: forbid.iter().map(|value| (*value).into()).collect(),
    };
    let first = TerrainRule {
        id: "wall".into(),
        probability: 100,
        constraints: vec![
            constraint((0, 0), &["wall-ne"], &[]),
            constraint((1, -1), &[], &[]),
        ],
        images: vec![image("wall.png", 0)],
    };
    let blocked = TerrainRule {
        id: "later".into(),
        probability: 100,
        constraints: vec![constraint((0, 0), &[], &["wall-ne"])],
        images: vec![image("wrong.png", 1)],
    };
    assert_eq!(
        compose(&map, &[first, blocked], 1)
            .iter()
            .map(|i| i.path.as_str())
            .collect::<Vec<_>>(),
        vec!["wall.png"]
    );
}

#[test]
fn image_order_uses_layer_before_map_position() {
    let map = WorldMap {
        width: 1,
        height: 1,
        cells: cells(&["Gg"]),
    };
    let rule = |id: &str, layer: i16| TerrainRule {
        id: id.into(),
        probability: 100,
        constraints: vec![Constraint {
            offset: (0, 0),
            terrain: TerrainMatch::Any,
            forbid_flags: vec![],
            set_flags: vec![],
        }],
        images: vec![image(id, layer)],
    };
    let images = compose(&map, &[rule("top", 10), rule("bottom", -10)], 1);
    assert_eq!(
        images
            .iter()
            .map(|image| image.path.as_str())
            .collect::<Vec<_>>(),
        vec!["bottom", "top"]
    );
}

fn is_wall(kind: VisualKind) -> bool {
    matches!(
        kind,
        VisualKind::CastleConvex(_)
            | VisualKind::CastleConcave(_)
            | VisualKind::KeepConvex(_)
            | VisualKind::KeepConcave(_)
    )
}

#[test]
fn wesnoth_codes_keep_gameplay_and_visual_layers_separate() {
    assert_eq!(gameplay_type("Gs^Fms"), "forest");
    assert_eq!(gameplay_type("Ww^Bw/"), "grassland");
    assert_eq!(gameplay_type("Wo^Bw\\"), "grassland");
    assert_eq!(gameplay_type("Ww^Bsb|"), "grassland");
    assert_eq!(gameplay_type("1 Ke"), "keep");
    let map = WorldMap {
        width: 2,
        height: 1,
        cells: cells(&["Gg^Vh", "Ww"]),
    };
    let visuals = build_visuals(&map, &[]);
    assert!(visuals.iter().any(|tile| tile.image == "village-human"));
    assert!(visuals.iter().any(|tile| {
        tile.position == Position { x: 2, y: 1 }
            && tile.image == "shore"
            && tile.kind == VisualKind::Transition(4)
    }));
    assert!(!visuals.iter().any(|tile| {
        tile.position == Position { x: 2, y: 1 } && tile.image == "transition-grass-green"
    }));
}

#[test]
fn castle_walls_only_cover_the_exposed_sides() {
    let map = WorldMap {
        width: 2,
        height: 1,
        cells: cells(&["Ce", "Ke"]),
    };
    let visuals = build_visuals(&map, &[]);
    assert_eq!(
        visuals
            .iter()
            .filter(|tile| matches!(tile.kind, VisualKind::Base))
            .count(),
        2
    );
    let walls = visuals
        .iter()
        .filter(|tile| matches!(tile.kind, VisualKind::CastleConvex(_) | VisualKind::KeepConvex(_)))
        .count();
    assert_eq!(walls, 8);
    assert!(visuals.iter().all(|tile| {
        !is_wall(tile.kind) || matches!(map.get(tile.position), Ok("castle" | "keep"))
    }));

    let ruins = WorldMap {
        width: 3,
        height: 1,
        cells: cells(&["Chr", "Khr", "Chw"]),
    };
    let visuals = build_visuals(&ruins, &[]);
    for image in [
        "stone-path",
        "keep-cobbles",
        "sunken-cobbles",
        "ruin-convex",
        "sunken-ruin-convex",
    ] {
        assert!(visuals.iter().any(|tile| tile.image == image));
    }
    assert!(build_visuals(&map, &[])
        .iter()
        .any(|tile| tile.image == "encampment-tent"));
}

#[test]
fn keep_inside_castle_gets_its_own_wall_ring() {
    let map = WorldMap {
        width: 3,
        height: 3,
        cells: cells(&["Chr", "Chr", "Chr", "Chr", "Khr", "Chr", "Chr", "Chr", "Chr"]),
    };
    let visuals = build_visuals(&map, &[]);
    assert_eq!(
        visuals
            .iter()
            .filter(|tile| {
                tile.position == Position { x: 2, y: 2 }
                    && tile.image == "ruinkeep1-convex"
                    && matches!(tile.kind, VisualKind::KeepConvex(_))
            })
            .count(),
        6
    );

    let edge_map = WorldMap {
        width: 2,
        height: 1,
        cells: cells(&["Khr", "Chr"]),
    };
    let edge_visuals = build_visuals(&edge_map, &[]);
    assert_eq!(
        edge_visuals
            .iter()
            .filter(|tile| {
                tile.position == Position { x: 1, y: 1 } && tile.image == "ruinkeep1-convex"
            })
            .count(),
        6
    );
    assert!(!edge_visuals.iter().any(|tile| {
        tile.position == Position { x: 1, y: 1 }
            && matches!(tile.kind, VisualKind::CastleConvex(_) | VisualKind::CastleConcave(_))
    }));
}

#[test]
fn castle_walls_are_drawn_from_top_to_bottom() {
    let map = WorldMap {
        width: 3,
        height: 3,
        cells: cells(&["Ch", "Ch", "Ch", "Ch", "Kh", "Ch", "Ch", "Ch", "Ch"]),
    };
    let walls = build_visuals(&map, &[])
        .into_iter()
        .filter(|tile| is_wall(tile.kind))
        .collect::<Vec<_>>();

    assert!(walls.windows(2).all(|pair| {
        let left = visual_depth(&pair[0]);
        let right = visual_depth(&pair[1]);
        left <= right
    }));
    assert!(walls.windows(2).all(|pair| {
        !matches!(pair[0].kind, VisualKind::KeepConvex(_) | VisualKind::KeepConcave(_))
            || matches!(pair[1].kind, VisualKind::KeepConvex(_) | VisualKind::KeepConcave(_))
    }));
}

#[test]
fn forests_shrink_at_hard_edges_and_bridges_get_axis_aligned_ends() {
    let map = WorldMap {
        width: 3,
        height: 1,
        cells: cells(&["Ww", "Gg^Fp", "Ww^Bw|"]),
    };
    let visuals = build_visuals(&map, &[]);
    assert!(visuals.iter().any(|tile| tile.image == "forest-pine-small"));
    let ends = visuals
        .iter()
        .filter_map(|tile| match tile.kind {
            VisualKind::BridgeEnd(direction) => Some(direction),
            _ => None,
        })
        .collect::<Vec<_>>();
    assert_eq!(ends, vec![3, 0]);
    assert!(visuals.iter().any(|tile| tile.image == "wood-bridge-n-s"));
}

#[test]
fn connected_bridge_tiles_do_not_get_ends_at_the_join() {
    let map = WorldMap {
        width: 1,
        height: 2,
        cells: cells(&["Ww^Bw|", "Ww^Bw|"]),
    };
    let ends = build_visuals(&map, &[])
        .into_iter()
        .filter(|tile| matches!(tile.kind, VisualKind::BridgeEnd(_)))
        .count();
    assert_eq!(ends, 2);
}

#[test]
fn adjacent_bridges_on_different_axes_form_one_bent_bridge() {
    let map = WorldMap {
        width: 2,
        height: 1,
        cells: cells(&["Ww^Bw/", "Ww^Bw|"]),
    };
    let visuals = build_visuals(&map, &[]);
    assert!(visuals.iter().any(|tile| {
        tile.position == Position { x: 1, y: 1 } && tile.image == "wood-bridge-ne-sw"
    }));
    assert!(visuals.iter().any(|tile| {
        tile.position == Position { x: 2, y: 1 } && tile.image == "wood-bridge-sw-n"
    }));
    assert_eq!(
        visuals
            .iter()
            .filter(|tile| matches!(tile.kind, VisualKind::BridgeEnd(_)))
            .count(),
        2
    );
    assert!(visuals.iter().any(|tile| {
        tile.position == Position { x: 2, y: 0 } && tile.kind == VisualKind::BridgeEnd(3)
    }));
}

#[test]
fn three_hex_bridge_from_first_scenario_is_continuous() {
    let map = WorldMap {
        width: 3,
        height: 2,
        cells: cells(&["Wo^Bw|", "Ww", "Ww", "Ww", "Wo^Bw\\", "Ww^Bw\\"]),
    };
    let visuals = build_visuals(&map, &[]);
    for (position, image) in [
        (Position { x: 1, y: 1 }, "wood-bridge-n-se"),
        (Position { x: 2, y: 2 }, "wood-bridge-se-nw"),
        (Position { x: 3, y: 2 }, "wood-bridge-se-nw"),
    ] {
        assert!(visuals
            .iter()
            .any(|tile| tile.position == position && tile.image == image));
    }
}

#[test]
fn wooden_bridge_uses_docks_in_water_and_ramps_on_land() {
    let map = WorldMap {
        width: 1,
        height: 3,
        cells: cells(&["Gg", "Ww^Bw|", "Ww"]),
    };
    let ends = build_visuals(&map, &[])
        .into_iter()
        .filter(|tile| matches!(tile.kind, VisualKind::BridgeEnd(_)))
        .map(|tile| tile.image)
        .collect::<Vec<_>>();
    assert_eq!(ends, vec!["wood-bridge-end", "wood-bridge-dock"]);
}

#[test]
fn sand_uses_beach_on_every_edge_touching_shallow_water() {
    let map = WorldMap {
        width: 2,
        height: 2,
        cells: cells(&["Ds", "Ww", "Ww", "Ds"]),
    };
    let visuals = build_visuals(&map, &[]);
    let beach_edges = visuals
        .iter()
        .filter(|tile| tile.image == "transition-beach")
        .count();

    assert_eq!(beach_edges, 4);
    assert!(!visuals.iter().any(|tile| tile.image == "shore"));
}

#[test]
fn mountains_fall_back_to_one_correctly_anchored_base_each() {
    let map = WorldMap {
        width: 3,
        height: 2,
        cells: cells(&["Mm", "Mm", "Gg", "Gg", "Gg", "Mm"]),
    };
    let visuals = build_visuals(&map, &[]);
    assert_eq!(
        visuals
            .iter()
            .filter(|tile| tile.image.starts_with("mountains-single-"))
            .count(),
        3
    );
    assert!(!visuals
        .iter()
        .any(|tile| matches!(tile.kind, VisualKind::MountainRange)));
}

#[test]
fn mountain_range_layers_share_one_geometric_anchor() {
    let map = WorldMap {
        width: 3,
        height: 2,
        cells: cells(&["Mm", "Gg", "Gg", "Gg", "Mm", "Mm"]),
    };
    let ranges = build_visuals(&map, &[])
        .into_iter()
        .filter(|tile| matches!(tile.kind, VisualKind::MountainRange))
        .collect::<Vec<_>>();

    assert_eq!(ranges.len(), 3);
    assert!(ranges.iter().all(|tile| tile.position == ranges[0].position));
    assert!(ranges
        .iter()
        .all(|tile| range_anchor(tile.image) == Some((90, 144))));

    let mountain_depths = build_visuals(&map, &[])
        .iter()
        .filter(|tile| {
            tile.image.starts_with("mountains-single-")
                || matches!(tile.kind, VisualKind::MountainRange)
        })
        .map(visual_depth)
        .collect::<Vec<_>>();
    assert!(mountain_depths.windows(2).all(|pair| pair[0] <= pair[1]));
}

#[test]
fn stone_path_extends_into_neighboring_ground() {
    let map = WorldMap {
        width: 3,
        height: 1,
        cells: cells(&["Gg", "Rp", "Gg"]),
    };
    let visuals = build_visuals(&map, &[]);

    assert_eq!(
        visuals
            .iter()
            .filter(|tile| {
                tile.position != Position { x: 2, y: 1 } && tile.image == "transition-grass-green"
            })
            .count(),
        0
    );
    assert!(visuals.iter().any(|tile| {
        tile.position != Position { x: 2, y: 1 } && tile.image == "transition-stone-path"
    }));
}
