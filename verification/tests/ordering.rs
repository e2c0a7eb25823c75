use wesnoth_engine::adventure::Adventure;
use wesnoth_engine::resources::{normalize_path, Manifest, Package};
use wesnoth_engine::store::{state_operation, Address, Operation};
use wesnoth_engine::value::Value;
use wesnoth_engine::data_format::parse;
use wesnoth_engine::engine::DeterministicRandom;
use wesnoth_engine::game::load_dialogs;
use wesnoth_engine::hex::{Bounds, Position};
use wesnoth_engine::pathfinding::{search, SearchRequest};

#[test]
fn attributes_are_kept_by_increasing_key() {
    let nodes = parse("[unit]\nname=Kalenz\nhp=40\nid=k\n[/unit]").unwrap();
    let keys: Vec<&str> = nodes[0].attributes.iter().map(|(k, _)| k.as_str()).collect();
    assert_eq!(keys, ["hp", "id", "name"]);
    assert_eq!(nodes[0].attribute("name").unwrap(), "Kalenz");
}

#[test]
fn parse_errors_name_their_line() {
    assert_eq!(parse("[a]\n[/b]").unwrap_err(), "line 2: expected closing tag [/a], got [/b]");
    assert_eq!(parse("[/a]").unwrap_err(), "line 1: unexpected closing tag [[/a]]");
    assert_eq!(parse("[a b]").unwrap_err(), "line 1: invalid tag name: \"a b\"");
    assert_eq!(parse("[a]\nk y=1\n[/a]").unwrap_err(), "line 2: invalid attribute name: \"k y\"");
    assert_eq!(parse("[a]\nk=1\nk=2\n[/a]").unwrap_err(), "line 3: duplicate attribute k");
    assert_eq!(parse("[a]\nno value\n[/a]").unwrap_err(), "line 2: expected key=value, got no value");
    assert_eq!(parse("k=1").unwrap_err(), "line 1: attribute outside a tag");
    assert_eq!(parse("[a]\nk=<<\nopen").unwrap_err(), "line 2: unclosed << value");
    assert_eq!(parse("[a]\n[b]\n[/b]").unwrap_err(), "unclosed tag [a]");
}

#[test]
fn dialogs_come_by_increasing_id() {
    let nodes = parse(
        "[dialog]\nid=zeta\n[line]\nspeaker=A\ntext=last\n[/line]\n[/dialog]\n\
         [dialog]\nid=alpha\n[line]\nspeaker=B\ntext=first\n[/line]\n[/dialog]",
    )
    .unwrap();
    let dialogs = load_dialogs(&nodes).unwrap();
    assert_eq!(dialogs[0].0, "alpha");
    assert_eq!(dialogs[0].1[0].text, "first");
    assert_eq!(dialogs[1].0, "zeta");
}

#[test]
fn random_errors_are_named() {
    let mut a = DeterministicRandom::new(1);
    assert_eq!(a.integer(3, 2), Err("invalid random range 3..2".to_string()));
    let mut b = DeterministicRandom::new(1);
    assert_eq!(a.integer(1, 6), b.integer(1, 6));
}

#[test]
fn predecessors_are_listed_before_their_cells() {
    let bounds = Bounds { width: 3, height: 1 };
    let costs = vec![
        (Position { x: 1, y: 1 }, 0),
        (Position { x: 2, y: 1 }, 0),
        (Position { x: 3, y: 1 }, 0),
    ];
    let request = SearchRequest {
        bounds,
        origin: Position { x: 1, y: 1 },
        budget: 5,
        costs,
        blocked: Vec::new(),
        stop_cells: Vec::new(),
    };
    let result = search(&request).unwrap();
    for (cell, from) in &result.predecessors {
        let at = result.costs.iter().position(|(p, _)| p == cell).unwrap();
        let before = result.costs.iter().position(|(p, _)| p == from).unwrap();
        assert!(before < at);
    }
    assert_eq!(result.costs.len(), 3);
}

#[test]
fn normalizing_twice_changes_nothing() {
    for path in ["game\\./ui//banner.png", "a/b/./c", "rules\\x.lua"] {
        let once = normalize_path(path).unwrap();
        assert_eq!(normalize_path(&once), Ok(once.clone()));
    }
    assert_eq!(normalize_path("a\\.\\b").unwrap(), "a/b");
    assert!(normalize_path("../a").is_err());
}

#[test]
fn setting_state_picks_the_operation() {
    let address = Address::data("turn");
    assert_eq!(state_operation(address.clone(), None, false), None);
    assert_eq!(
        state_operation(address.clone(), None, true),
        Some(Operation::Remove { address: address.clone() })
    );
    assert_eq!(
        state_operation(address.clone(), Some(Value::Integer(2)), true),
        Some(Operation::Update { address: address.clone(), value: Value::Integer(2) })
    );
    assert_eq!(
        state_operation(address.clone(), Some(Value::Integer(2)), false),
        Some(Operation::Insert { address, value: Value::Integer(2) })
    );
}

#[test]
fn module_sources_come_by_name_and_stop_at_the_first_failure() {
    let files = |path: &str| -> Result<String, String> {
        match path {
            "rules/zeta.lua" => Ok("z".to_string()),
            "rules/alpha.lua" => Ok("a".to_string()),
            other => Err(other.to_string()),
        }
    };
    let manifest = Manifest {
        package_id: "p".into(),
        package_version: "1".into(),
        protocol_version: 1,
        entry: "rules.zeta".into(),
        resource_roots: vec!["rules".into()],
        modules: vec!["rules.zeta".into(), "rules.alpha".into()],
        assets: Vec::new(),
    };
    let package = Package::from_manifest(manifest).unwrap();
    let sources = package.module_sources(&files).unwrap();
    assert_eq!(sources[0].0, "rules.alpha");
    assert_eq!(sources[1].0, "rules.zeta");
}

#[test]
fn missing_costs_are_reported_before_cells_off_the_map() {
    let request = SearchRequest {
        bounds: Bounds { width: 2, height: 1 },
        origin: Position { x: 1, y: 1 },
        budget: 3,
        costs: vec![(Position { x: 1, y: 1 }, 1)],
        blocked: vec![Position { x: 9, y: 9 }],
        stop_cells: Vec::new(),
    };
    assert_eq!(search(&request).unwrap_err(), "missing or negative cost at (2, 1)");
    let off_map = SearchRequest {
        costs: vec![(Position { x: 1, y: 1 }, 1), (Position { x: 2, y: 1 }, 1)],
        ..request
    };
    assert_eq!(search(&off_map).unwrap_err(), "search constraint is outside bounds");
}

#[test]
fn adventure_errors_come_in_order() {
    assert_eq!(
        Adventure::parse("[adventure]\nid=a\n[/adventure]").unwrap_err(),
        "[adventure] has no required child [rules]"
    );
    assert_eq!(
        Adventure::parse("[adventure]\n[rules]\n[/rules]\n[units]\n[/units]\n[/adventure]").unwrap_err(),
        "[units] has no required attribute source"
    );
    assert_eq!(
        Adventure::parse("[adventure]\n[rules]\n[/rules]\n[units]\nsource=u\n[/units]\n[scenario]\nprocess=p\n[/scenario]\n[/adventure]")
            .unwrap_err(),
        "[scenario] has no required attribute map"
    );
    assert_eq!(
        Adventure::parse("[a]\n[/b]").unwrap_err(),
        "line 2: expected closing tag [/a], got [/b]"
    );
}
