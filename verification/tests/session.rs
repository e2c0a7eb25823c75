use wesnoth_engine::persistence::open_save;
use wesnoth_engine::protocol::{
    Command, CommandStatus, Error, Interaction, InteractionKind,
};
use wesnoth_engine::resources::PackageIdentity;
use wesnoth_engine::session::{
    attach_view, command_value, executed, interaction_command, interaction_failure,
    interaction_outcome, presentation_of, Dispatch, DispatchStart, InteractionDelivery,
    InteractionStart, Session,
};
use wesnoth_engine::store::{Commit, Store};
use wesnoth_engine::value::Value;
use wesnoth_engine::world::{World, WorldMap};

fn text(s: &str) -> Value {
    Value::String(s.to_string())
}

fn record(fields: Vec<(&str, Value)>) -> Value {
    let mut fields: Vec<(String, Value)> =
        fields.into_iter().map(|(k, v)| (k.to_string(), v)).collect();
    fields.sort_by(|a, b| a.0.cmp(&b.0));
    Value::Record(fields)
}

fn identity(version: &str) -> PackageIdentity {
    PackageIdentity {
        package_id: "test".into(),
        package_version: version.into(),
        protocol_version: 1,
    }
}

fn session() -> Session {
    Session::new("test".into(), identity("1"), Vec::new()).unwrap()
}

fn command(id: &str, revision: u64, payload: Value) -> Command {
    Command {
        command_id: id.into(),
        expected_world_revision: revision,
        action: "custom".into(),
        payload,
    }
}

/// What a `present` script answers: one block named `id`.
fn one_block(id: &str, content: Value) -> Value {
    record(vec![
        ("replace_blocks", Value::List(vec![record(vec![("id", text(id)), ("content", content)])])),
        ("remove_ids", Value::List(Vec::new())),
        ("effects", Value::List(Vec::new())),
    ])
}

/// Runs a command whose rules answer `events` and reach `revision`, and
/// whose view shows `shown`; keeps the answer.
fn run(
    s: &mut Session,
    viewer: &str,
    c: Command,
    world: u64,
    events: Value,
    shown: Result<Value, Error>,
) -> Dispatch {
    match s.dispatch_start(viewer, &c, world) {
        DispatchStart::Replay(i) => s.replay(i).clone(),
        DispatchStart::Refused(d) => d,
        DispatchStart::Stale(d) => {
            s.record_command(viewer.into(), c, d.clone());
            d
        }
        DispatchStart::Execute => {
            let commit = Commit { revision: world + 1, changed_addresses: Vec::new() };
            let mut d = executed(&c, world, Ok((events, commit)));
            let view = presentation_of(shown)
                .and_then(|p| s.apply_presentation(viewer, p, world + 1));
            d = attach_view(d, view);
            s.record_command(viewer.into(), c, d.clone());
            d
        }
    }
}

#[test]
fn retries_are_deduplicated_before_revision_checks() {
    let mut s = session();
    let request = command("c1", 0, Value::Null);
    let first = run(&mut s, "viewer", request.clone(), 0, Value::Integer(1), Ok(one_block("viewer", text("viewer"))));
    assert_eq!(first.result.status, CommandStatus::Committed);
    assert_eq!(first.events, Some(Value::Integer(1)));
    assert_eq!(first.view.as_ref().unwrap().view_revision, 1);

    // The world has moved to revision 1; the retry is still answered as before.
    match s.dispatch_start("viewer", &request, 1) {
        DispatchStart::Replay(i) => assert_eq!(s.replay(i), &first),
        _ => panic!("a retry must be replayed"),
    }
    match s.dispatch_start("intruder", &request, 1) {
        DispatchStart::Refused(d) => assert_eq!(d.result.error.unwrap().code, "conflict"),
        _ => panic!("another viewer must be refused"),
    }
    match s.dispatch_start("", &command("empty", 1, Value::Null), 1) {
        DispatchStart::Refused(d) => assert_eq!(d.result.error.unwrap().code, "invalid_input"),
        _ => panic!("an empty viewer must be refused"),
    }
    match s.dispatch_start("viewer", &command("c1", 0, Value::Bool(true)), 1) {
        DispatchStart::Refused(d) => {
            assert_eq!(d.result.status, CommandStatus::Rejected);
            assert_eq!(
                d.result.error.unwrap().message,
                "command id was already used with different content"
            );
        }
        _ => panic!("a changed command must be refused"),
    }
    let stale = run(&mut s, "viewer", command("c2", 0, Value::Null), 1, Value::Null, Ok(Value::Null));
    assert_eq!(stale.result.status, CommandStatus::Rejected);
    assert_eq!(stale.result.error.as_ref().unwrap().message, "stale world revision");
    match s.dispatch_start("viewer", &command("c2", 0, Value::Null), 1) {
        DispatchStart::Replay(i) => assert_eq!(s.replay(i), &stale),
        _ => panic!("a stale rejection is kept"),
    }
}

#[test]
fn snapshots_keep_revisions_per_viewer() {
    let mut s = session();
    let request = s.snapshot_request("alice").unwrap();
    assert_eq!(
        request,
        record(vec![
            ("command_id", text("snapshot")),
            ("events", Value::List(Vec::new())),
            ("view_context", record(Vec::new())),
            ("viewer", text("alice")),
        ])
    );
    let shown = |viewer: &str| presentation_of(Ok(one_block("viewer", text(viewer)))).unwrap();
    let first = s.apply_snapshot("alice", shown("alice"), 0).unwrap();
    let same = s.apply_snapshot("alice", shown("alice"), 0).unwrap();
    let other = s.apply_snapshot("bob", shown("bob"), 0).unwrap();
    assert_eq!(first.view_revision, 1);
    assert_eq!(same.view_revision, 1);
    assert_eq!(other.view_revision, 1);
    assert_eq!(first.blocks[0].content, text("alice"));
    assert!(s.snapshot_request("").is_err());
}

#[test]
fn presentation_failure_does_not_repeat_a_committed_command_and_snapshot_recovers() {
    let mut s = session();
    let request = command("c1", 0, Value::Null);
    let failure = Err(Error::new("script_error", "presentation failed"));
    let failed = run(&mut s, "viewer", request.clone(), 0, Value::Null, failure);
    assert_eq!(failed.result.status, CommandStatus::Committed);
    assert!(failed.view.is_none() && failed.presentation_error.is_some());
    match s.dispatch_start("viewer", &request, 1) {
        DispatchStart::Replay(i) => assert_eq!(s.replay(i), &failed),
        _ => panic!("the committed command must not run again"),
    }
    let p = presentation_of(Ok(one_block("count", Value::Integer(1)))).unwrap();
    let snapshot = s.apply_snapshot("viewer", p, 1).unwrap();
    assert_eq!(snapshot.world_revision, 1);
    assert_eq!(snapshot.blocks[0].content, Value::Integer(1));
}

#[test]
fn interactions_are_deduplicated_and_checked_against_the_view() {
    let mut s = session();
    let p = presentation_of(Ok(one_block("viewer", text("alice")))).unwrap();
    s.apply_snapshot("alice", p, 0).unwrap();
    let interaction = Interaction {
        interaction_id: "i1".into(),
        expected_view_revision: 1,
        kind: InteractionKind::Activate,
        target: text("viewer"),
        payload: Value::Null,
    };
    assert!(matches!(s.interaction_start("alice", &interaction), InteractionStart::Execute));
    let request = s.interact_request("alice", &interaction, 0).unwrap();
    assert_eq!(request.get("viewer"), Some(&text("alice")));
    assert_eq!(
        request.get("input").unwrap().get("kind"),
        Some(&text("activate"))
    );
    assert_eq!(request.get("world_revision"), Some(&Value::Integer(0)));

    let answer = record(vec![
        ("view_context", record(vec![("selected", text("viewer"))])),
        ("command", record(vec![("action", text("custom")), ("payload", record(Vec::new()))])),
    ]);
    let (context, action) = interaction_outcome(Ok(answer)).unwrap();
    s.set_context("alice", context);
    let action = action.unwrap();
    let c = interaction_command("i1", 0, action);
    assert_eq!(c.command_id, "interaction:i1");
    let d = run(&mut s, "alice", c, 0, Value::Integer(2), Ok(one_block("viewer", text("moved"))));
    assert_eq!(d.events, Some(Value::Integer(2)));
    let delivery = InteractionDelivery {
        interaction_id: "i1".into(),
        view: None,
        command: Some(d),
        error: None,
    };
    s.record_interaction("alice".into(), interaction.clone(), delivery.clone());
    match s.interaction_start("alice", &interaction) {
        InteractionStart::Replay(i) => assert_eq!(s.replay_interaction(i), &delivery),
        _ => panic!("a retry must be replayed"),
    }
    match s.interaction_start("bob", &interaction) {
        InteractionStart::Refused(d) => assert_eq!(d.error.unwrap().code, "conflict"),
        _ => panic!("another viewer must be refused"),
    }
    let later = Interaction { interaction_id: "i2".into(), ..interaction };
    match s.interaction_start("alice", &later) {
        InteractionStart::Stale(d) => assert_eq!(d.error.unwrap().message, "stale view revision"),
        _ => panic!("the view has moved on"),
    }
    // The context the script left is handed to the next script call.
    let next = s.present_request("alice", "c9", Value::Integer(5));
    assert_eq!(next.get("view_context"), Some(&record(vec![("selected", text("viewer"))])));
    assert_eq!(next.get("events"), Some(&Value::List(vec![Value::Integer(5)])));
    assert!(s.interact_request("alice", &later, u64::MAX).is_err());
    assert_eq!(interaction_failure("i3", Error::new("a", "b")).error.unwrap().code, "a");
}

#[test]
fn restore_starts_a_new_generation() {
    let mut s = session();
    let request = command("c1", 0, Value::Null);
    run(&mut s, "viewer", request.clone(), 0, Value::Null, Ok(one_block("a", Value::Null)));
    let before = s.id().to_owned();
    s.restored().unwrap();
    assert_ne!(s.id(), before);
    assert_eq!(s.id(), "test@1");
    assert!(matches!(s.dispatch_start("viewer", &request, 0), DispatchStart::Execute));
    s.restored().unwrap();
    assert_eq!(s.id(), "test@2");
}

#[test]
fn sessions_need_an_id_and_this_protocol() {
    assert_eq!(
        Session::new(String::new(), identity("1"), Vec::new()).err().unwrap(),
        "session id must not be empty"
    );
    let mut other = identity("1");
    other.protocol_version = 2;
    assert_eq!(
        Session::new("x".into(), other, Vec::new()).err().unwrap(),
        "incompatible package protocol: 2 (expected 1)"
    );
}

#[test]
fn script_answers_of_the_wrong_shape_are_script_errors() {
    let missing = record(vec![
        ("replace_blocks", Value::List(vec![record(vec![("id", text("a"))])])),
        ("remove_ids", Value::List(Vec::new())),
        ("effects", Value::List(Vec::new())),
    ]);
    let error = presentation_of(Ok(missing)).unwrap_err();
    assert_eq!(error.code, "script_error");
    assert_eq!(error.message, "view block has no content");
    assert_eq!(
        presentation_of(Ok(Value::Null)).unwrap_err().message,
        "presentation must be a record"
    );
    let no_context = record(vec![("command", Value::Null)]);
    assert_eq!(
        interaction_outcome(Ok(no_context)).unwrap_err().message,
        "interaction result has no view_context"
    );
    let value = command_value(&command("c", 0, Value::Integer(3)));
    assert_eq!(value, record(vec![("action", text("custom")), ("payload", Value::Integer(3))]));
}

#[test]
fn unknown_assets_keep_the_view_unchanged() {
    let mut s = Session::new("a".into(), identity("1"), vec!["known".to_string()]).unwrap();
    let bad = presentation_of(Ok(one_block("b", record(vec![("asset", text("missing"))])))).unwrap();
    let error = s.apply_presentation("v", bad, 0).unwrap_err();
    assert_eq!(error.code, "resource_error");
    let good = presentation_of(Ok(one_block("b", record(vec![("asset", text("known"))])))).unwrap();
    let update = s.apply_presentation("v", good, 0).unwrap().unwrap();
    assert_eq!(update.base_view_revision, 0);
    assert_eq!(update.view_revision, 1);
}

fn world() -> World {
    World {
        map: WorldMap { width: 1, height: 1, cells: vec![record(Vec::new())] },
        entities: Vec::new(),
        data: Vec::new(),
    }
}

#[test]
fn round_trip_preserves_world_rng_revision_and_rejects_other_package() {
    let mut store = Store::new(world(), 7).unwrap();
    let mut tx = store.begin(0).unwrap();
    tx.random(1, 10).unwrap();
    store.commit(tx).unwrap();
    let expected = store.snapshot();
    assert_eq!(open_save(1, &identity("1"), expected.clone(), &identity("1")).unwrap(), expected);
    assert_eq!(
        open_save(1, &identity("2"), expected.clone(), &identity("1")).unwrap_err().code,
        "incompatible_version"
    );
    let error = open_save(2, &identity("1"), expected, &identity("1")).unwrap_err();
    assert_eq!(error.message, "unsupported save version: 2 (expected 1)");
}
