use wesnoth_engine::hex::Position;
use wesnoth_engine::protocol::{
    open_envelope, scene_block, ui_block, validate, validate_assets, Command, CommandResult,
    CommandStatus, Effect, Error, Message, Number, UiKind, ViewBlock, ViewSnapshot, ViewUpdate,
    PROTOCOL_VERSION,
};
use wesnoth_engine::value::Value;

fn text(s: &str) -> Value {
    Value::String(s.to_string())
}

/// A record with its fields in name order, as a sorted map holds them.
fn record(fields: Vec<(&str, Value)>) -> Value {
    let mut fields: Vec<(String, Value)> =
        fields.into_iter().map(|(k, v)| (k.to_string(), v)).collect();
    fields.sort_by(|a, b| a.0.cmp(&b.0));
    Value::Record(fields)
}

fn number_value(n: Number) -> f64 {
    match n {
        Number::Integer(i) => i as f64,
        Number::Float(bits) => f64::from_bits(bits),
    }
}

fn snapshot(blocks: Vec<ViewBlock>) -> Message {
    Message::ViewSnapshot(ViewSnapshot { world_revision: 0, view_revision: 1, blocks })
}

fn block(id: &str, content: Value) -> ViewBlock {
    ViewBlock { id: id.to_string(), content }
}

fn update(replace: Vec<ViewBlock>, remove: Vec<&str>, effects: Vec<Effect>) -> Message {
    Message::ViewUpdate(ViewUpdate {
        world_revision: 4,
        base_view_revision: 2,
        view_revision: 3,
        replace_blocks: replace,
        remove_ids: remove.into_iter().map(str::to_string).collect(),
        effects,
    })
}

#[test]
fn opaque_actions_round_trip_and_invalid_updates_are_rejected() {
    let message = Message::Command(Command {
        command_id: "c1".into(),
        expected_world_revision: 4,
        action: "another_game.custom_action".into(),
        payload: record(vec![("anything", Value::Bool(true))]),
    });
    assert_eq!(open_envelope(PROTOCOL_VERSION, message.clone()).unwrap(), message);

    let error = Message::Error(Error {
        code: "another_game.failure".into(),
        message: "failed".into(),
        details: Some(Value::String("opaque".into())),
    });
    assert_eq!(open_envelope(PROTOCOL_VERSION, error.clone()).unwrap(), error);

    let update = update(vec![block("map", Value::Null)], vec!["map"], Vec::new());
    assert!(validate(&update).is_err());

    let assets = vec!["ui.banner".to_owned()];
    let with_asset = |asset: &str| snapshot(vec![block("ui", record(vec![("asset", text(asset))]))]);
    assert!(validate_assets(&with_asset("ui.banner"), &assets).is_ok());
    assert_eq!(
        validate_assets(&with_asset("ui.missing"), &assets).unwrap_err().code,
        "resource_error"
    );

    let root = record(vec![
        ("id", text("hud")),
        ("kind", text("column")),
        (
            "children",
            Value::List(vec![
                record(vec![
                    ("id", text("end_turn")),
                    ("kind", text("button")),
                    ("text", text("End turn")),
                    ("enabled", Value::Bool(true)),
                    ("action", record(vec![("action", text("end_turn")), ("payload", Value::Null)])),
                ]),
                record(vec![
                    ("id", text("banner")),
                    ("kind", text("image")),
                    ("asset", text("ui.banner")),
                    ("grow", Value::Integer(3)),
                ]),
            ]),
        ),
    ]);
    let ui = record(vec![("schema", text("ui")), ("root", root)]);
    assert_eq!(ui_block(&ui).unwrap().children[0].kind, UiKind::Button);
    let parsed = ui_block(&ui).unwrap();
    let image = &parsed.children[1];
    assert_eq!(image.asset.as_deref(), Some("ui.banner"));
    assert_eq!(number_value(image.grow), 3.0);

    let scene_item = record(vec![
        ("id", text("tile:1")),
        ("asset", text("terrain.grass")),
        ("anchor", record(vec![("x", Value::Integer(1)), ("y", Value::Integer(2))])),
        ("layer", text("ground")),
    ]);
    let scene = |items| record(vec![("schema", text("scene")), ("items", Value::List(items))]);
    let parsed = scene_block(&scene(vec![scene_item.clone()])).unwrap();
    assert_eq!(parsed[0].frames, ["terrain.grass"]);
    assert_eq!(parsed[0].anchor, Position { x: 1, y: 2 });
    assert!(scene_block(&scene(vec![scene_item.clone(), scene_item])).is_err());
}

#[test]
fn envelope_of_another_version_is_refused() {
    let message = Message::Command(Command {
        command_id: "c1".into(),
        expected_world_revision: 0,
        action: "move".into(),
        payload: Value::Null,
    });
    let error = open_envelope(2, message).unwrap_err();
    assert_eq!(error.code, "incompatible_version");
    assert_eq!(error.message, "unsupported protocol version: 2 (expected 1)");
}

#[test]
fn envelope_with_invalid_message_is_refused() {
    let message = Message::Command(Command {
        command_id: "  ".into(),
        expected_world_revision: 0,
        action: "move".into(),
        payload: Value::Null,
    });
    let error = open_envelope(PROTOCOL_VERSION, message).unwrap_err();
    assert_eq!(error.code, "invalid_input");
    assert_eq!(error.message, "command_id must not be empty");
}

#[test]
fn non_finite_numbers_are_rejected() {
    let message = Message::Command(Command {
        command_id: "c1".into(),
        expected_world_revision: 0,
        action: "move".into(),
        payload: Value::List(vec![Value::Number(f64::NAN.to_bits())]),
    });
    let error = validate(&message).unwrap_err();
    assert_eq!(error.message, "number must be finite");
    let fine = Message::Command(Command {
        command_id: "c1".into(),
        expected_world_revision: 0,
        action: "move".into(),
        payload: Value::List(vec![Value::Number(1.5f64.to_bits())]),
    });
    assert!(validate(&fine).is_ok());
}

#[test]
fn command_status_and_error_must_agree() {
    let committed_with_error = Message::CommandResult(CommandResult {
        command_id: "c1".into(),
        status: CommandStatus::Committed,
        world_revision: 1,
        error: Some(Error::new("conflict", "stale")),
    });
    assert_eq!(
        validate(&committed_with_error).unwrap_err().message,
        "command status and error disagree"
    );
    let rejected = Message::CommandResult(CommandResult {
        command_id: "c1".into(),
        status: CommandStatus::Rejected,
        world_revision: 1,
        error: Some(Error::new("conflict", "stale")),
    });
    assert!(validate(&rejected).is_ok());
    let rejected_blank = Message::CommandResult(CommandResult {
        command_id: "c1".into(),
        status: CommandStatus::Rejected,
        world_revision: 1,
        error: Some(Error::new("conflict", " ")),
    });
    assert_eq!(validate(&rejected_blank).unwrap_err().message, "error message must not be empty");
}

#[test]
fn view_updates_must_advance_and_keep_ids_apart() {
    let stale = Message::ViewUpdate(ViewUpdate {
        world_revision: 1,
        base_view_revision: 3,
        view_revision: 3,
        replace_blocks: Vec::new(),
        remove_ids: Vec::new(),
        effects: Vec::new(),
    });
    assert_eq!(validate(&stale).unwrap_err().message, "view revision must advance");

    let both = update(vec![block("map", Value::Null)], vec!["map"], Vec::new());
    assert_eq!(
        validate(&both).unwrap_err().message,
        "a block cannot be replaced and removed together"
    );

    let twice = update(Vec::new(), vec!["map", "map"], Vec::new());
    assert_eq!(validate(&twice).unwrap_err().message, "duplicate removed block id: map");

    let effects = vec![
        Effect { id: "flash".into(), content: Value::Null },
        Effect { id: "flash".into(), content: Value::Null },
    ];
    let repeated = update(Vec::new(), Vec::new(), effects);
    assert_eq!(validate(&repeated).unwrap_err().message, "duplicate effect id: flash");

    let fine = update(vec![block("map", Value::Null)], vec!["hud"], Vec::new());
    assert!(validate(&fine).is_ok());
}

#[test]
fn snapshot_blocks_need_distinct_ids() {
    let blocks = vec![block("map", Value::Null), block("map", Value::Null)];
    assert_eq!(validate(&snapshot(blocks)).unwrap_err().message, "duplicate block id: map");
    let blank = vec![block(" ", Value::Null)];
    assert_eq!(validate(&snapshot(blank)).unwrap_err().message, "block must not be empty");
}

#[test]
fn asset_references_are_checked_in_lists_and_nested_records() {
    let assets = vec!["a".to_owned(), "b".to_owned()];
    let frames = snapshot(vec![block(
        "fx",
        record(vec![("frames", Value::List(vec![text("a"), text("c")]))]),
    )]);
    let error = validate_assets(&frames, &assets).unwrap_err();
    assert_eq!(error.code, "resource_error");
    assert_eq!(error.message, "unknown asset reference: c");

    let nested = snapshot(vec![block(
        "fx",
        Value::List(vec![record(vec![("inner", record(vec![("asset", Value::Integer(3))]))])]),
    )]);
    let error = validate_assets(&nested, &assets).unwrap_err();
    assert_eq!(error.code, "invalid_input");
    assert_eq!(error.message, "asset reference must be a string");

    let effects = update(
        Vec::new(),
        Vec::new(),
        vec![Effect { id: "e".into(), content: record(vec![("masks", Value::List(vec![text("b")]))]) }],
    );
    assert!(validate_assets(&effects, &assets).is_ok());
    let bad_effect = update(
        Vec::new(),
        Vec::new(),
        vec![Effect { id: "e".into(), content: record(vec![("asset", text("z"))]) }],
    );
    assert_eq!(validate_assets(&bad_effect, &assets).unwrap_err().message, "unknown asset reference: z");
}

#[test]
fn ui_nodes_default_and_reject_bad_kinds() {
    let node = record(vec![("id", text("label")), ("kind", text("text"))]);
    let parsed = ui_block(&record(vec![("schema", text("ui")), ("root", node)])).unwrap();
    assert_eq!(parsed.kind, UiKind::Text);
    assert!(parsed.enabled);
    assert_eq!(number_value(parsed.grow), 1.0);
    assert!(parsed.children.is_empty());

    let bad = record(vec![("id", text("x")), ("kind", text("slider"))]);
    assert!(ui_block(&record(vec![("schema", text("ui")), ("root", bad)])).is_err());
}

#[test]
fn scene_items_take_frames_and_defaults() {
    let item = record(vec![
        ("id", text("unit:1")),
        ("asset", text("units.a")),
        ("frames", Value::List(vec![text("units.a"), text("units.b")])),
        ("anchor", record(vec![("x", Value::Integer(0)), ("y", Value::Integer(-1))])),
        ("layer", text("units")),
    ]);
    let scene = record(vec![("schema", text("scene")), ("items", Value::List(vec![item]))]);
    let parsed = scene_block(&scene).unwrap();
    assert_eq!(parsed[0].frames, ["units.a", "units.b"]);
    assert_eq!(parsed[0].anchor, Position { x: 0, y: -1 });
    assert_eq!(parsed[0].opacity, 255);
    assert_eq!(parsed[0].order, 0);

    let wrong_first = record(vec![
        ("id", text("unit:1")),
        ("asset", text("units.a")),
        ("frames", Value::List(vec![text("units.b")])),
        ("anchor", record(vec![("x", Value::Integer(0)), ("y", Value::Integer(0))])),
        ("layer", text("units")),
    ]);
    let scene = record(vec![("schema", text("scene")), ("items", Value::List(vec![wrong_first]))]);
    assert_eq!(
        scene_block(&scene).unwrap_err().message,
        "scene item frames must start with its primary asset"
    );
}
