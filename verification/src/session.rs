//! The protocol side of a running game.
//!
//! A session checks commands and interactions against the protocol and the
//! revisions their senders saw, answers a repeated delivery with the answer
//! it gave the first time, and keeps for each viewer the blocks of its view
//! and the context of its interface. It owns no rules: the game's scripts
//! change the world and draw the views. Each operation is split at the
//! script calls: a step decides what to do, the caller runs the script, and
//! the next step takes its answer.
use vstd::prelude::*;
use crate::protocol::{
    spec_validate, validate, Action, Command, CommandResult, CommandStatus, Effect, Error,
    Interaction, InteractionKind, Message, Presentation, ViewBlock, ViewSnapshot, ViewUpdate,
};
use crate::protocol::{id_set, PROTOCOL_VERSION};
use crate::persistence::identity_view;
use crate::resources::PackageIdentity;
use crate::store::Commit;
use crate::text::{chars_of, decimal, format_u64, push_all, push_str, str_eq, string_of};
use crate::value::{
    copy_fields, copy_value, data_of, field_get, field_of, field_put, fields_of, names_increase, same_value, text_lt, Data, Fields, Value,
};
use crate::world::{get_keyed, keyed, put_field, put_keyed, remove_field};

verus! {

/// The answer to one command.
#[derive(Clone, Debug, PartialEq)]
pub struct Dispatch {
    /// Whether the command was committed or rejected.
    pub result: CommandResult,
    /// What the game's script answered.
    pub events: Option<Value>,
    /// What was committed, and the revision it reached.
    pub changes: Option<Commit>,
    /// The change of the sender's view.
    pub view: Option<ViewUpdate>,
    /// Why the view could not be drawn after a committed command.
    pub presentation_error: Option<Error>,
}

/// The answer to one interaction.
#[derive(Clone, Debug, PartialEq)]
pub struct InteractionDelivery {
    pub interaction_id: String,
    pub view: Option<ViewUpdate>,
    pub command: Option<Dispatch>,
    pub error: Option<Error>,
}

// ---------------------------------------------------------------------------
// Script answers
// ---------------------------------------------------------------------------
/// A view block or an effect, as plain values.
pub type Item = (Seq<char>, Data);

/// A presentation as plain values: blocks to replace, ids to remove, effects.
pub struct PresentationView {
    pub replace: Seq<Item>,
    pub remove: Seq<Seq<char>>,
    pub effects: Seq<Item>,
}

pub open spec fn blocks_view(bs: Seq<ViewBlock>) -> Seq<Item> {
    bs.map_values(|b: ViewBlock| (b.id@, data_of(b.content)))
}

pub open spec fn effects_view(es: Seq<Effect>) -> Seq<Item> {
    es.map_values(|e: Effect| (e.id@, data_of(e.content)))
}

pub open spec fn ids_view(ids: Seq<String>) -> Seq<Seq<char>> {
    ids.map_values(|s: String| s@)
}

pub open spec fn presentation_view(p: Presentation) -> PresentationView {
    PresentationView {
        replace: blocks_view(p.replace_blocks@),
        remove: ids_view(p.remove_ids@),
        effects: effects_view(p.effects@),
    }
}

pub open spec fn id_message() -> Seq<char> {
    string_message("id"@)
}

/// One block or effect: a record with a nonempty `id` and a `content`.
pub open spec fn spec_item(d: Data, missing: Seq<char>) -> Result<Item, Seq<char>> {
    match d {
        Data::Record(f) => match field_get(f, "id"@) {
            Some(Data::Text(id)) => if id.len() == 0 {
                Err(id_message())
            } else {
                match field_get(f, "content"@) {
                    Some(c) => Ok((id, c)),
                    None => Err(missing),
                }
            },
            _ => Err(id_message()),
        },
        _ => Err("presentation item must be a record"@),
    }
}

/// Items in order; the first bad one decides the error.
pub open spec fn spec_items(ds: Seq<Data>, missing: Seq<char>) -> Result<Seq<Item>, Seq<char>>
    decreases ds.len(),
{
    if ds.len() == 0 {
        Ok(Seq::empty())
    } else {
        match spec_items(ds.drop_last(), missing) {
            Err(m) => Err(m),
            Ok(v) => match spec_item(ds.last(), missing) {
                Err(m) => Err(m),
                Ok(x) => Ok(v.push(x)),
            },
        }
    }
}

pub open spec fn spec_item_list(c: Option<Data>, missing: Seq<char>) -> Result<Seq<Item>, Seq<char>> {
    match c {
        Some(Data::List(ds)) => spec_items(ds, missing),
        _ => Err("presentation field must be a list"@),
    }
}

/// Removed ids in order: each a string.
pub open spec fn spec_ids(ds: Seq<Data>) -> Result<Seq<Seq<char>>, Seq<char>>
    decreases ds.len(),
{
    if ds.len() == 0 {
        Ok(Seq::empty())
    } else {
        match spec_ids(ds.drop_last()) {
            Err(m) => Err(m),
            Ok(v) => match ds.last() {
                Data::Text(s) => Ok(v.push(s)),
                _ => Err("removed block id must be a string"@),
            },
        }
    }
}

pub open spec fn spec_id_list(c: Option<Data>) -> Result<Seq<Seq<char>>, Seq<char>> {
    match c {
        Some(Data::List(ds)) => spec_ids(ds),
        _ => Err("presentation remove_ids must be a list"@),
    }
}

/// What a `present` script answered: blocks to replace, ids to remove and
/// effects, checked in that order.
pub open spec fn spec_presentation(d: Data) -> Result<PresentationView, Seq<char>> {
    match d {
        Data::Record(f) => {
            let replace = spec_item_list(field_get(f, "replace_blocks"@), "view block has no content"@);
            let remove = spec_id_list(field_get(f, "remove_ids"@));
            let effects = spec_item_list(field_get(f, "effects"@), "effect has no content"@);
            if replace is Err {
                Err(replace->Err_0)
            } else if remove is Err {
                Err(remove->Err_0)
            } else if effects is Err {
                Err(effects->Err_0)
            } else {
                Ok(PresentationView { replace: replace->Ok_0, remove: remove->Ok_0, effects: effects->Ok_0 })
            }
        },
        _ => Err("presentation must be a record"@),
    }
}

proof fn lemma_items_error_stays(ds: Seq<Data>, missing: Seq<char>, k: int)
    requires
        0 <= k <= ds.len(),
        spec_items(ds.take(k), missing) is Err,
    ensures
        spec_items(ds, missing) == spec_items(ds.take(k), missing),
    decreases ds.len() - k,
{
    if k < ds.len() {
        assert(ds.take(k + 1).drop_last() =~= ds.take(k));
        lemma_items_error_stays(ds, missing, k + 1);
    } else {
        assert(ds.take(k) =~= ds);
    }
}

proof fn lemma_ids_error_stays(ds: Seq<Data>, k: int)
    requires
        0 <= k <= ds.len(),
        spec_ids(ds.take(k)) is Err,
    ensures
        spec_ids(ds) == spec_ids(ds.take(k)),
    decreases ds.len() - k,
{
    if k < ds.len() {
        assert(ds.take(k + 1).drop_last() =~= ds.take(k));
        lemma_ids_error_stays(ds, k + 1);
    } else {
        assert(ds.take(k) =~= ds);
    }
}

/// The message for a package written for another protocol version.
pub open spec fn protocol_message(version: u32) -> Seq<char> {
    "incompatible package protocol: "@ + decimal(version as nat) + " (expected "@ + decimal(
        PROTOCOL_VERSION as nat,
    ) + ")"@
}

pub open spec fn opt_data(c: Option<&Value>) -> Option<Data> {
    match c {
        Some(v) => Some(data_of(*v)),
        None => None,
    }
}

pub open spec fn string_message(field: Seq<char>) -> Seq<char> {
    "presentation "@ + field + " must be a nonempty string"@
}

/// A nonempty string field, by its name.
fn take_string(fields: &Vec<(String, Value)>, field: &str) -> (r: Result<String, String>)
    ensures
        match r {
            Ok(s) => field_get(fields_of(fields@), field@) == Some(Data::Text(s@)) && s@.len() > 0,
            Err(m) => !(field_get(fields_of(fields@), field@) matches Some(Data::Text(s)) && s.len() > 0)
                && m@ == string_message(field@),
        },
{
    match field_of(fields, field) {
        Some(Value::String(s)) => {
            if chars_of(s.as_str()).len() > 0 {
                return Ok(s.clone());
            }
        },
        _ => {},
    }
    let mut m = chars_of("presentation ");
    push_str(&mut m, field);
    push_str(&mut m, " must be a nonempty string");
    Err(string_of(&m))
}

/// One block or effect: its id and a copy of its content.
fn parse_item(c: &Value, missing: &str) -> (r: Result<(String, Value), String>)
    ensures
        match r {
            Ok(x) => spec_item(data_of(*c), missing@) == Ok::<Item, Seq<char>>((x.0@, data_of(x.1))),
            Err(m) => spec_item(data_of(*c), missing@) == Err::<Item, Seq<char>>(m@),
        },
{
    match c {
        Value::Record(fields) => {
            proof {
                crate::value::lemma_record_data(*fields);
            }
            let id = match take_string(fields, "id") {
                Ok(id) => id,
                Err(m) => {
                    return Err(m);
                },
            };
            match field_of(fields, "content") {
                Some(content) => Ok((id, copy_value(content))),
                None => Err(String::from_str(missing)),
            }
        },
        _ => Err(String::from_str("presentation item must be a record")),
    }
}

/// The items of a list field.
fn parse_items(c: Option<&Value>, missing: &str) -> (r: Result<Vec<(String, Value)>, String>)
    ensures
        match r {
            Ok(v) => spec_item_list(opt_data(c), missing@) == Ok::<Seq<Item>, Seq<char>>(fields_of(v@)),
            Err(m) => spec_item_list(opt_data(c), missing@) == Err::<Seq<Item>, Seq<char>>(m@),
        },
{
    match c {
        Some(Value::List(values)) => {
            let ghost ds = data_of(Value::List(*values))->List_0;
            assert(ds =~= values@.map_values(|v: Value| data_of(v)));
            let mut out: Vec<(String, Value)> = Vec::new();
            let mut i: usize = 0;
            assert(ds.take(0) =~= Seq::<Data>::empty());
            assert(fields_of(out@) =~= Seq::<Item>::empty());
            while i < values.len()
                invariant
                    i <= values.len(),
                    ds == values@.map_values(|v: Value| data_of(v)),
                    opt_data(c) == Some(Data::List(ds)),
                    spec_items(ds.take(i as int), missing@) == Ok::<Seq<Item>, Seq<char>>(fields_of(out@)),
                decreases values.len() - i,
            {
                let ghost before = out@;
                proof {
                    assert(ds.take(i as int + 1).drop_last() =~= ds.take(i as int));
                    assert(ds.take(i as int + 1).last() == data_of(values@[i as int]));
                }
                match parse_item(&values[i], missing) {
                    Ok(x) => {
                        out.push(x);
                        assert(fields_of(out@) =~= fields_of(before).push((out@.last().0@, data_of(out@.last().1))));
                    },
                    Err(m) => {
                        proof {
                            lemma_items_error_stays(ds, missing@, i as int + 1);
                        }
                        return Err(m);
                    },
                }
                i = i + 1;
            }
            assert(ds.take(i as int) =~= ds);
            Ok(out)
        },
        _ => Err(String::from_str("presentation field must be a list")),
    }
}

/// The removed ids.
fn parse_ids(c: Option<&Value>) -> (r: Result<Vec<String>, String>)
    ensures
        match r {
            Ok(v) => spec_id_list(opt_data(c)) == Ok::<Seq<Seq<char>>, Seq<char>>(ids_view(v@)),
            Err(m) => spec_id_list(opt_data(c)) == Err::<Seq<Seq<char>>, Seq<char>>(m@),
        },
{
    match c {
        Some(Value::List(values)) => {
            let ghost ds = data_of(Value::List(*values))->List_0;
            assert(ds =~= values@.map_values(|v: Value| data_of(v)));
            let mut out: Vec<String> = Vec::new();
            let mut i: usize = 0;
            assert(ds.take(0) =~= Seq::<Data>::empty());
            assert(ids_view(out@) =~= Seq::<Seq<char>>::empty());
            while i < values.len()
                invariant
                    i <= values.len(),
                    ds == values@.map_values(|v: Value| data_of(v)),
                    opt_data(c) == Some(Data::List(ds)),
                    spec_ids(ds.take(i as int)) == Ok::<Seq<Seq<char>>, Seq<char>>(ids_view(out@)),
                decreases values.len() - i,
            {
                let ghost before = out@;
                proof {
                    assert(ds.take(i as int + 1).drop_last() =~= ds.take(i as int));
                    assert(ds.take(i as int + 1).last() == data_of(values@[i as int]));
                }
                match &values[i] {
                    Value::String(s) => {
                        out.push(s.clone());
                        assert(ids_view(out@) =~= ids_view(before).push(s@));
                    },
                    _ => {
                        proof {
                            lemma_ids_error_stays(ds, i as int + 1);
                        }
                        return Err(String::from_str("removed block id must be a string"));
                    },
                }
                i = i + 1;
            }
            assert(ds.take(i as int) =~= ds);
            Ok(out)
        },
        _ => Err(String::from_str("presentation remove_ids must be a list")),
    }
}

/// Reads what a `present` script answered.
pub fn parse_presentation(value: Value) -> (r: Result<Presentation, String>)
    ensures
        match r {
            Ok(p) => spec_presentation(data_of(value)) == Ok::<PresentationView, Seq<char>>(presentation_view(p)),
            Err(m) => spec_presentation(data_of(value)) == Err::<PresentationView, Seq<char>>(m@),
        },
{
    let fields = match &value {
        Value::Record(fields) => fields,
        _ => {
            return Err(String::from_str("presentation must be a record"));
        },
    };
    proof {
        crate::value::lemma_record_data(*fields);
    }
    let replace = match parse_items(field_of(fields, "replace_blocks"), "view block has no content") {
        Ok(v) => v,
        Err(m) => {
            return Err(m);
        },
    };
    let remove_ids = match parse_ids(field_of(fields, "remove_ids")) {
        Ok(v) => v,
        Err(m) => {
            return Err(m);
        },
    };
    let effects = match parse_items(field_of(fields, "effects"), "effect has no content") {
        Ok(v) => v,
        Err(m) => {
            return Err(m);
        },
    };
    let replace_blocks = to_blocks(&replace);
    let effects = to_effects(&effects);
    Ok(Presentation { replace_blocks, remove_ids, effects })
}

fn to_blocks(items: &Vec<(String, Value)>) -> (r: Vec<ViewBlock>)
    ensures
        blocks_view(r@) == fields_of(items@),
{
    let mut out: Vec<ViewBlock> = Vec::new();
    let mut i: usize = 0;
    while i < items.len()
        invariant
            i <= items.len(),
            blocks_view(out@) == fields_of(items@).take(i as int),
        decreases items.len() - i,
    {
        let ghost before = out@;
        let id = items[i].0.clone();
        let content = copy_value(&items[i].1);
        out.push(ViewBlock { id, content });
        assert(blocks_view(out@) =~= blocks_view(before).push((items@[i as int].0@, data_of(items@[i as int].1))));
        assert(fields_of(items@).take(i as int + 1) =~= fields_of(items@).take(i as int).push(
            fields_of(items@)[i as int],
        ));
        i = i + 1;
    }
    assert(fields_of(items@).take(i as int) =~= fields_of(items@));
    out
}

fn to_effects(items: &Vec<(String, Value)>) -> (r: Vec<Effect>)
    ensures
        effects_view(r@) == fields_of(items@),
{
    let mut out: Vec<Effect> = Vec::new();
    let mut i: usize = 0;
    while i < items.len()
        invariant
            i <= items.len(),
            effects_view(out@) == fields_of(items@).take(i as int),
        decreases items.len() - i,
    {
        let ghost before = out@;
        let id = items[i].0.clone();
        let content = copy_value(&items[i].1);
        out.push(Effect { id, content });
        assert(effects_view(out@) =~= effects_view(before).push((items@[i as int].0@, data_of(items@[i as int].1))));
        assert(fields_of(items@).take(i as int + 1) =~= fields_of(items@).take(i as int).push(
            fields_of(items@)[i as int],
        ));
        i = i + 1;
    }
    assert(fields_of(items@).take(i as int) =~= fields_of(items@));
    out
}

/// An action as plain values.
pub open spec fn action_data(a: Option<Action>) -> Option<(Seq<char>, Data)> {
    match a {
        Some(x) => Some((x.action@, data_of(x.payload))),
        None => None,
    }
}

/// What an `interact` script answered: the viewer's new context, and the
/// command it asks for, if any.
pub open spec fn spec_interaction_result(d: Data) -> Result<(Data, Option<(Seq<char>, Data)>), Seq<char>> {
    match d {
        Data::Record(f) => match field_get(f, "view_context"@) {
            None => Err("interaction result has no view_context"@),
            Some(context) => match field_get(f, "command"@) {
                None => Ok((context, None)),
                Some(Data::Null) => Ok((context, None)),
                Some(Data::Record(c)) => match field_get(c, "action"@) {
                    Some(Data::Text(a)) => if a.len() > 0 {
                        let payload = match field_get(c, "payload"@) {
                            Some(p) => p,
                            None => Data::Null,
                        };
                        Ok((context, Some((a, payload))))
                    } else {
                        Err(string_message("action"@))
                    },
                    _ => Err(string_message("action"@)),
                },
                Some(_) => Err("interaction command must be a record"@),
            },
        },
        _ => Err("interaction result must be a record"@),
    }
}

/// Reads what an `interact` script answered.
pub fn parse_interaction_result(value: Value) -> (r: Result<(Value, Option<Action>), String>)
    ensures
        match r {
            Ok((context, action)) => spec_interaction_result(data_of(value)) == Ok::<
                (Data, Option<(Seq<char>, Data)>),
                Seq<char>,
            >((data_of(context), action_data(action))),
            Err(m) => spec_interaction_result(data_of(value)) == Err::<
                (Data, Option<(Seq<char>, Data)>),
                Seq<char>,
            >(m@),
        },
{
    let fields = match &value {
        Value::Record(fields) => fields,
        _ => {
            return Err(String::from_str("interaction result must be a record"));
        },
    };
    proof {
        crate::value::lemma_record_data(*fields);
    }
    let context = match field_of(fields, "view_context") {
        Some(c) => copy_value(c),
        None => {
            return Err(String::from_str("interaction result has no view_context"));
        },
    };
    let action = match field_of(fields, "command") {
        None => None,
        Some(Value::Null) => None,
        Some(Value::Record(command)) => {
            proof {
                crate::value::lemma_record_data(*command);
            }
            let name = match take_string(command, "action") {
                Ok(a) => a,
                Err(m) => {
                    return Err(m);
                },
            };
            let payload = match field_of(command, "payload") {
                Some(p) => copy_value(p),
                None => Value::Null,
            };
            Some(Action { action: name, payload })
        },
        Some(_) => {
            return Err(String::from_str("interaction command must be a record"));
        },
    };
    Ok((context, action))
}

/// The error for an answer that a script should not have given.
pub open spec fn is_script_error(e: Error, message: Seq<char>) -> bool {
    e.code@ == "script_error"@ && e.message@ == message && e.details is None
}

/// The presentation a `present` script answered; an answer of the wrong
/// shape is a script error.
pub fn presentation_of(answer: Result<Value, Error>) -> (r: Result<Presentation, Error>)
    ensures
        match answer {
            Err(e) => r == Err::<Presentation, Error>(e),
            Ok(v) => match spec_presentation(data_of(v)) {
                Ok(p) => r matches Ok(x) && presentation_view(x) == p,
                Err(m) => r matches Err(e) && is_script_error(e, m),
            },
        },
{
    match answer {
        Err(e) => Err(e),
        Ok(v) => match parse_presentation(v) {
            Ok(p) => Ok(p),
            Err(m) => Err(Error { code: String::from_str("script_error"), message: m, details: None }),
        },
    }
}

/// The context and command an `interact` script answered; an answer of the
/// wrong shape is a script error.
pub fn interaction_outcome(answer: Result<Value, Error>) -> (r: Result<(Value, Option<Action>), Error>)
    ensures
        match answer {
            Err(e) => r == Err::<(Value, Option<Action>), Error>(e),
            Ok(v) => match spec_interaction_result(data_of(v)) {
                Ok((context, action)) => r matches Ok(x) && data_of(x.0) == context && action_data(x.1)
                    == action,
                Err(m) => r matches Err(e) && is_script_error(e, m),
            },
        },
{
    match answer {
        Err(e) => Err(e),
        Ok(v) => match parse_interaction_result(v) {
            Ok(x) => Ok(x),
            Err(m) => Err(Error { code: String::from_str("script_error"), message: m, details: None }),
        },
    }
}

// ---------------------------------------------------------------------------
// Requests to the scripts
// ---------------------------------------------------------------------------
/// What the game's rules see of a command: its action and payload.
pub open spec fn command_data(c: Command) -> Data {
    Data::Record(seq![("action"@, Data::Text(c.action@)), ("payload"@, data_of(c.payload))])
}

/// The value handed to the game's rules for a command.
pub fn command_value(command: &Command) -> (r: Value)
    ensures
        data_of(r) == command_data(*command),
{
    let fields = vec![
        (String::from_str("action"), Value::String(command.action.clone())),
        (String::from_str("payload"), copy_value(&command.payload)),
    ];
    proof {
        crate::value::lemma_record_data(fields);
        assert(fields_of(fields@) =~= seq![("action"@, Data::Text(command.action@)), ("payload"@, data_of(command.payload))]);
    }
    Value::Record(fields)
}

/// The command an interaction asks for, named after the interaction.
pub fn interaction_command(interaction_id: &str, world_revision: u64, action: Action) -> (r: Command)
    ensures
        r.command_id@ == "interaction:"@ + interaction_id@,
        r.expected_world_revision == world_revision,
        r.action == action.action,
        r.payload == action.payload,
{
    let mut id = chars_of("interaction:");
    push_str(&mut id, interaction_id);
    Command {
        command_id: string_of(&id),
        expected_world_revision: world_revision,
        action: action.action,
        payload: action.payload,
    }
}

// ---------------------------------------------------------------------------
// The state of a session
// ---------------------------------------------------------------------------
/// What the session keeps of one viewer: the revision of its view, the
/// context its interface scripts left, and its blocks by id.
pub struct Viewer {
    pub revision: u64,
    pub context: Option<Value>,
    pub blocks: Vec<(String, Value)>,
}

/// A viewer as plain values.
pub struct ViewerView {
    pub revision: u64,
    pub context: Option<Data>,
    pub blocks: Fields,
}

pub open spec fn viewer_view(v: Viewer) -> ViewerView {
    ViewerView {
        revision: v.revision,
        context: match v.context {
            Some(c) => Some(data_of(c)),
            None => None,
        },
        blocks: fields_of(v.blocks@),
    }
}

/// A viewer not seen before.
pub open spec fn fresh_viewer() -> ViewerView {
    ViewerView { revision: 0, context: None, blocks: Seq::empty() }
}

pub open spec fn viewers_view(s: Seq<(Seq<char>, Viewer)>) -> Seq<(Seq<char>, ViewerView)> {
    s.map_values(|e: (Seq<char>, Viewer)| (e.0, viewer_view(e.1)))
}

/// A command answered before, with its sender and its answer.
pub struct CachedCommand {
    pub viewer: String,
    pub command: Command,
    pub dispatch: Dispatch,
}

/// An interaction answered before, with its sender and its answer.
pub struct CachedInteraction {
    pub viewer: String,
    pub interaction: Interaction,
    pub delivery: InteractionDelivery,
}

/// The protocol side of one running game.
pub struct Session {
    id: String,
    root_id: String,
    generation: u64,
    package: PackageIdentity,
    assets: Vec<String>,
    commands: Vec<(String, CachedCommand)>,
    viewers: Vec<(String, Viewer)>,
    interactions: Vec<(String, CachedInteraction)>,
}

/// A session as plain values. Commands, viewers and interactions are kept
/// by id, in increasing order of id.
pub struct SessionView {
    pub id: Seq<char>,
    pub root_id: Seq<char>,
    pub generation: u64,
    pub package: (Seq<char>, Seq<char>, u32),
    pub assets: Set<Seq<char>>,
    pub commands: Seq<(Seq<char>, CachedCommand)>,
    pub viewers: Seq<(Seq<char>, ViewerView)>,
    pub interactions: Seq<(Seq<char>, CachedInteraction)>,
}

impl View for Session {
    type V = SessionView;

    closed spec fn view(&self) -> SessionView {
        SessionView {
            id: self.id@,
            root_id: self.root_id@,
            generation: self.generation,
            package: identity_view(self.package),
            assets: id_set(self.assets@),
            commands: keyed(self.commands@),
            viewers: viewers_view(keyed(self.viewers@)),
            interactions: keyed(self.interactions@),
        }
    }
}

/// The state of a viewer: as kept, or fresh.
pub open spec fn viewer_state(s: SessionView, viewer: Seq<char>) -> ViewerView {
    match field_get(s.viewers, viewer) {
        Some(v) => v,
        None => fresh_viewer(),
    }
}

/// The session with the state of a viewer set.
pub open spec fn with_viewer(s: SessionView, viewer: Seq<char>, v: ViewerView) -> SessionView {
    SessionView { viewers: field_put(s.viewers, viewer, v), ..s }
}

proof fn lemma_viewers_get(s: Seq<(Seq<char>, Viewer)>, k: Seq<char>)
    ensures
        field_get(viewers_view(s), k) == match field_get(s, k) {
            Some(v) => Some(viewer_view(v)),
            None => None::<ViewerView>,
        },
    decreases s.len(),
{
    if s.len() > 0 {
        assert(viewers_view(s).drop_first() =~= viewers_view(s.drop_first()));
        lemma_viewers_get(s.drop_first(), k);
    }
}

proof fn lemma_viewers_put(s: Seq<(Seq<char>, Viewer)>, k: Seq<char>, v: Viewer)
    ensures
        viewers_view(field_put(s, k, v)) == field_put(viewers_view(s), k, viewer_view(v)),
    decreases s.len(),
{
    if s.len() == 0 {
        assert(viewers_view(field_put(s, k, v)) =~= seq![(k, viewer_view(v))]);
    } else if s[0].0 == k {
        assert(viewers_view(field_put(s, k, v)) =~= seq![(k, viewer_view(v))] + viewers_view(s).drop_first());
    } else if text_lt(k, s[0].0) {
        assert(viewers_view(field_put(s, k, v)) =~= seq![(k, viewer_view(v))] + viewers_view(s));
    } else {
        lemma_viewers_put(s.drop_first(), k, v);
        assert(viewers_view(s).drop_first() =~= viewers_view(s.drop_first()));
        assert(viewers_view(field_put(s, k, v)) =~= seq![viewers_view(s)[0]] + viewers_view(
            field_put(s.drop_first(), k, v),
        ));
    }
}

/// A viewer's blocks are kept by increasing id.
pub open spec fn blocks_ok(v: Viewer) -> bool {
    names_increase(fields_of(v.blocks@))
}

pub open spec fn all_blocks_ok(s: Seq<(Seq<char>, Viewer)>) -> bool {
    forall|i: int| 0 <= i < s.len() ==> blocks_ok(#[trigger] s[i].1)
}

proof fn lemma_put_blocks_ok(s: Seq<(Seq<char>, Viewer)>, k: Seq<char>, v: Viewer)
    requires
        all_blocks_ok(s),
        blocks_ok(v),
    ensures
        all_blocks_ok(field_put(s, k, v)),
    decreases s.len(),
{
    if s.len() == 0 {
    } else if s[0].0 == k {
        let r = field_put(s, k, v);
        assert forall|i: int| 0 <= i < r.len() implies blocks_ok(#[trigger] r[i].1) by {
            if i > 0 {
                assert(r[i] == s[i]);
            }
        }
    } else if text_lt(k, s[0].0) {
        let r = field_put(s, k, v);
        assert forall|i: int| 0 <= i < r.len() implies blocks_ok(#[trigger] r[i].1) by {
            if i > 0 {
                assert(r[i] == s[i - 1]);
            }
        }
    } else {
        let t = s.drop_first();
        assert forall|i: int| 0 <= i < t.len() implies blocks_ok(#[trigger] t[i].1) by {
            assert(t[i] == s[i + 1]);
        }
        lemma_put_blocks_ok(t, k, v);
        let r = field_put(s, k, v);
        let q = field_put(t, k, v);
        assert forall|i: int| 0 <= i < r.len() implies blocks_ok(#[trigger] r[i].1) by {
            if i > 0 {
                assert(r[i] == q[i - 1]);
            }
        }
    }
}

impl Session {
    /// Keys in increasing order, and each viewer's blocks by increasing id.
    pub closed spec fn inv(&self) -> bool {
        &&& names_increase(keyed(self.commands@))
        &&& names_increase(keyed(self.viewers@))
        &&& names_increase(keyed(self.interactions@))
        &&& all_blocks_ok(keyed(self.viewers@))
    }

    /// A session for a package whose scripts speak this protocol; it has
    /// answered nothing yet and knows no viewer.
    pub fn new(id: String, package: PackageIdentity, assets: Vec<String>) -> (r: Result<Session, String>)
        ensures
            id@.len() == 0 ==> (r matches Err(m) && m@ == "session id must not be empty"@),
            id@.len() > 0 && package.protocol_version != PROTOCOL_VERSION ==> (r matches Err(m) && m@
                == protocol_message(package.protocol_version)),
            id@.len() > 0 && package.protocol_version == PROTOCOL_VERSION ==> (r matches Ok(s) && s.inv() && s@
                == (SessionView {
                id: id@,
                root_id: id@,
                generation: 0,
                package: identity_view(package),
                assets: id_set(assets@),
                commands: Seq::empty(),
                viewers: Seq::empty(),
                interactions: Seq::empty(),
            })),
    {
        if chars_of(id.as_str()).len() == 0 {
            return Err(String::from_str("session id must not be empty"));
        }
        if package.protocol_version != PROTOCOL_VERSION {
            let mut m = chars_of("incompatible package protocol: ");
            push_all(&mut m, &format_u64(package.protocol_version as u64));
            push_str(&mut m, " (expected ");
            push_all(&mut m, &format_u64(PROTOCOL_VERSION as u64));
            push_str(&mut m, ")");
            return Err(string_of(&m));
        }
        let root_id = id.clone();
        let s = Session {
            id,
            root_id,
            generation: 0,
            package,
            assets,
            commands: Vec::new(),
            viewers: Vec::new(),
            interactions: Vec::new(),
        };
        assert(keyed(s.commands@) =~= Seq::<(Seq<char>, CachedCommand)>::empty());
        assert(keyed(s.viewers@) =~= Seq::<(Seq<char>, Viewer)>::empty());
        assert(viewers_view(keyed(s.viewers@)) =~= Seq::<(Seq<char>, ViewerView)>::empty());
        assert(keyed(s.interactions@) =~= Seq::<(Seq<char>, CachedInteraction)>::empty());
        Ok(s)
    }

    /// The id of this generation of the session.
    pub fn id(&self) -> (r: &str)
        ensures
            r@ == self@.id,
    {
        self.id.as_str()
    }

    /// The identity of the package the session runs.
    pub fn package(&self) -> (r: &PackageIdentity)
        ensures
            identity_view(*r) == self@.package,
    {
        &self.package
    }

    /// A copy of a viewer's state, or a fresh one.
    fn current_viewer(&self, viewer: &str) -> (r: Viewer)
        requires
            self.inv(),
        ensures
            viewer_view(r) == viewer_state(self@, viewer@),
            names_increase(fields_of(r.blocks@)),
    {
        proof {
            lemma_viewers_get(keyed(self.viewers@), viewer@);
        }
        match get_keyed(&self.viewers, viewer) {
            Some(i) => {
                let v = &self.viewers[i].1;
                let context = match &v.context {
                    Some(c) => Some(copy_value(c)),
                    None => None,
                };
                assert(keyed(self.viewers@)[i as int] == (self.viewers@[i as int].0@, self.viewers@[i as int].1));
                assert(blocks_ok(keyed(self.viewers@)[i as int].1));
                Viewer { revision: v.revision, context, blocks: copy_fields(&v.blocks) }
            },
            None => {
                let r = Viewer { revision: 0, context: None, blocks: Vec::new() };
                assert(fields_of(r.blocks@) =~= Seq::<(Seq<char>, Data)>::empty());
                r
            },
        }
    }

    /// Keeps the state of a viewer.
    fn store_viewer(&mut self, viewer: &str, state: Viewer)
        requires
            old(self).inv(),
            names_increase(fields_of(state.blocks@)),
        ensures
            final(self).inv(),
            final(self)@ == with_viewer(old(self)@, viewer@, viewer_view(state)),
    {
        let ghost before = keyed(self.viewers@);
        let ghost v = state;
        proof {
            lemma_viewers_put(before, viewer@, v);
        }
        proof {
            lemma_put_blocks_ok(before, viewer@, v);
        }
        put_keyed(&mut self.viewers, String::from_str(viewer), state);
    }
}

// ---------------------------------------------------------------------------
// Commands
// ---------------------------------------------------------------------------
/// A command as plain values.
pub open spec fn command_view(c: Command) -> (Seq<char>, u64, Seq<char>, Data) {
    (c.command_id@, c.expected_world_revision, c.action@, data_of(c.payload))
}

/// Whether two commands are the same request.
pub fn same_command(a: &Command, b: &Command) -> (r: bool)
    ensures
        r == (command_view(*a) == command_view(*b)),
{
    str_eq(a.command_id.as_str(), b.command_id.as_str()) && a.expected_world_revision
        == b.expected_world_revision && str_eq(a.action.as_str(), b.action.as_str()) && same_value(
        &a.payload,
        &b.payload,
    )
}

/// A rejection of the command with id `id` at `revision`, with nothing else.
pub open spec fn is_rejection(d: Dispatch, id: Seq<char>, revision: u64) -> bool {
    &&& d.result.command_id@ == id
    &&& d.result.status == CommandStatus::Rejected
    &&& d.result.world_revision == revision
    &&& d.result.error is Some
    &&& d.events is None
    &&& d.changes is None
    &&& d.view is None
    &&& d.presentation_error is None
}

pub open spec fn error_is(e: Option<Error>, code: Seq<char>, message: Seq<char>) -> bool {
    e matches Some(x) && x.code@ == code && x.message@ == message && x.details is None
}

fn rejected(command: &Command, revision: u64, code: &str, message: &str) -> (d: Dispatch)
    ensures
        is_rejection(d, command.command_id@, revision),
        error_is(d.result.error, code@, message@),
{
    rejected_with_error(command, revision, Error::new(code, message))
}

fn rejected_with_error(command: &Command, revision: u64, error: Error) -> (d: Dispatch)
    ensures
        is_rejection(d, command.command_id@, revision),
        d.result.error == Some(error),
{
    Dispatch {
        result: CommandResult {
            command_id: command.command_id.clone(),
            status: CommandStatus::Rejected,
            world_revision: revision,
            error: Some(error),
        },
        events: None,
        changes: None,
        view: None,
        presentation_error: None,
    }
}

/// The answer a session gave before to the same command from the same
/// viewer.
pub open spec fn cached_answer(s: SessionView, viewer: Seq<char>, command: Command) -> Option<Dispatch> {
    match field_get(s.commands, command.command_id@) {
        Some(c) => if c.viewer@ == viewer && command_view(c.command) == command_view(command) {
            Some(c.dispatch)
        } else {
            None
        },
        None => None,
    }
}

/// What to do with a command before any script runs.
pub enum DispatchStart {
    /// Answer again with the answer kept at this index.
    Replay(usize),
    /// Answer with this rejection, and keep nothing.
    Refused(Dispatch),
    /// Answer with this rejection, and keep it for retries.
    Stale(Dispatch),
    /// Run the command's rules at the expected revision.
    Execute,
}

/// The session after an answer to a command is kept.
pub open spec fn with_command(s: SessionView, viewer: String, command: Command, d: Dispatch) -> SessionView {
    SessionView {
        commands: field_put(s.commands, command.command_id@, CachedCommand { viewer, command, dispatch: d }),
        ..s
    }
}

/// An answer kept for a command is given again to the same command from the
/// same viewer.
pub proof fn lemma_kept_command_replays(s: SessionView, viewer: String, command: Command, d: Dispatch)
    ensures
        cached_answer(with_command(s, viewer, command, d), viewer@, command) == Some(d),
{
    crate::value::lemma_get_put(s.commands, command.command_id@, CachedCommand { viewer, command, dispatch: d }, command.command_id@);
}

impl Session {
    /// Decides what to do with a command from `viewer`, the world being at
    /// `world_revision`: a repeated delivery is answered as before, and
    /// checked before the protocol and the revision.
    pub fn dispatch_start(&self, viewer: &str, command: &Command, world_revision: u64) -> (r: DispatchStart)
        requires
            self.inv(),
        ensures
            viewer@.len() == 0 ==> (r matches DispatchStart::Refused(d) && is_rejection(d, command.command_id@, world_revision)
                && error_is(d.result.error, "invalid_input"@, "viewer id must not be empty"@)),
            viewer@.len() > 0 && cached_answer(self@, viewer@, *command) is Some ==> (r matches DispatchStart::Replay(i)
                && i < self@.commands.len() && self@.commands[i as int].0 == command.command_id@
                && Some(self@.commands[i as int].1.dispatch) == cached_answer(self@, viewer@, *command)),
            viewer@.len() > 0 && cached_answer(self@, viewer@, *command) is None && field_get(
                self@.commands,
                command.command_id@,
            ) is Some ==> (r matches DispatchStart::Refused(d) && is_rejection(d, command.command_id@, world_revision)
                && error_is(d.result.error, "conflict"@, "command id was already used with different content"@)),
            viewer@.len() > 0 && field_get(self@.commands, command.command_id@) is None ==> match spec_validate(
                Message::Command(*command),
            ) {
                Err(m) => r matches DispatchStart::Refused(d) && is_rejection(d, command.command_id@, world_revision)
                    && (d.result.error matches Some(e) && crate::protocol::is_invalid_input(e, m)),
                Ok(()) => if command.expected_world_revision != world_revision {
                    r matches DispatchStart::Stale(d) && is_rejection(d, command.command_id@, world_revision)
                        && error_is(d.result.error, "conflict"@, "stale world revision"@)
                } else {
                    r is Execute
                },
            },
    {
        if chars_of(viewer).len() == 0 {
            return DispatchStart::Refused(rejected(command, world_revision, "invalid_input", "viewer id must not be empty"));
        }
        match get_keyed(&self.commands, command.command_id.as_str()) {
            Some(i) => {
                let cached = &self.commands[i].1;
                assert(keyed(self.commands@)[i as int] == (self.commands@[i as int].0@, self.commands@[i as int].1));
                if str_eq(cached.viewer.as_str(), viewer) && same_command(&cached.command, command) {
                    return DispatchStart::Replay(i);
                }
                return DispatchStart::Refused(
                    rejected(command, world_revision, "conflict", "command id was already used with different content"),
                );
            },
            None => {},
        }
        let message = Message::Command(Command {
            command_id: command.command_id.clone(),
            expected_world_revision: command.expected_world_revision,
            action: command.action.clone(),
            payload: copy_value(&command.payload),
        });
        match validate(&message) {
            Ok(()) => {},
            Err(e) => {
                return DispatchStart::Refused(rejected_with_error(command, world_revision, e));
            },
        }
        if command.expected_world_revision != world_revision {
            return DispatchStart::Stale(rejected(command, world_revision, "conflict", "stale world revision"));
        }
        DispatchStart::Execute
    }

    /// The answer kept at index `i`.
    pub fn replay(&self, i: usize) -> (r: &Dispatch)
        requires
            i < self@.commands.len(),
        ensures
            *r == self@.commands[i as int].1.dispatch,
    {
        assert(keyed(self.commands@)[i as int] == (self.commands@[i as int].0@, self.commands@[i as int].1));
        &self.commands[i].1.dispatch
    }

    /// Keeps the answer to a command, so that a repeated delivery gets it
    /// again.
    pub fn record_command(&mut self, viewer: String, command: Command, dispatch: Dispatch)
        requires
            old(self).inv(),
        ensures
            final(self).inv(),
            final(self)@ == with_command(old(self)@, viewer, command, dispatch),
    {
        let key = command.command_id.clone();
        put_keyed(&mut self.commands, key, CachedCommand { viewer, command, dispatch });
    }
}

/// The answer to a command whose rules ran: committed with what the rules
/// answered, or rejected with their error at `revision`.
pub fn executed(command: &Command, revision: u64, outcome: Result<(Value, Commit), Error>) -> (d: Dispatch)
    ensures
        match outcome {
            Ok((events, commit)) => d.result.command_id@ == command.command_id@ && d.result.status
                == CommandStatus::Committed && d.result.world_revision == commit.revision && d.result.error is None
                && d.events == Some(events) && d.changes == Some(commit) && d.view is None
                && d.presentation_error is None,
            Err(e) => is_rejection(d, command.command_id@, revision) && d.result.error == Some(e),
        },
{
    match outcome {
        Ok((events, commit)) => Dispatch {
            result: CommandResult {
                command_id: command.command_id.clone(),
                status: CommandStatus::Committed,
                world_revision: commit.revision,
                error: None,
            },
            events: Some(events),
            changes: Some(commit),
            view: None,
            presentation_error: None,
        },
        Err(e) => rejected_with_error(command, revision, e),
    }
}

/// A committed answer with the change of the sender's view, or with why it
/// could not be drawn; the command stays committed either way.
pub fn attach_view(d: Dispatch, shown: Result<Option<ViewUpdate>, Error>) -> (r: Dispatch)
    ensures
        r.result == d.result,
        r.events == d.events,
        r.changes == d.changes,
        match shown {
            Ok(v) => r.view == v && r.presentation_error == d.presentation_error,
            Err(e) => r.view == d.view && r.presentation_error == Some(e),
        },
{
    let mut r = d;
    match shown {
        Ok(v) => {
            r.view = v;
        },
        Err(e) => {
            r.presentation_error = Some(e);
        },
    }
    r
}

// ---------------------------------------------------------------------------
// Views
// ---------------------------------------------------------------------------
/// Blocks without the ones removed, in order.
pub open spec fn remove_all(f: Fields, ids: Seq<Seq<char>>) -> Fields
    decreases ids.len(),
{
    if ids.len() == 0 {
        f
    } else {
        crate::value::field_remove(remove_all(f, ids.drop_last()), ids.last())
    }
}

/// Blocks with the replaced ones set, in order.
pub open spec fn put_all(f: Fields, items: Seq<Item>) -> Fields
    decreases items.len(),
{
    if items.len() == 0 {
        f
    } else {
        field_put(put_all(f, items.drop_last()), items.last().0, items.last().1)
    }
}

/// A viewer's blocks after a presentation: removals first, then
/// replacements.
pub open spec fn patched(f: Fields, p: PresentationView) -> Fields {
    put_all(remove_all(f, p.remove), p.replace)
}

fn patch(blocks: &Vec<(String, Value)>, p: &Presentation) -> (r: Vec<(String, Value)>)
    requires
        names_increase(fields_of(blocks@)),
    ensures
        fields_of(r@) == patched(fields_of(blocks@), presentation_view(*p)),
        names_increase(fields_of(r@)),
{
    let ghost pv = presentation_view(*p);
    let mut out = copy_fields(blocks);
    let mut i: usize = 0;
    while i < p.remove_ids.len()
        invariant
            i <= p.remove_ids.len(),
            pv == presentation_view(*p),
            names_increase(fields_of(out@)),
            fields_of(out@) == remove_all(fields_of(blocks@), pv.remove.take(i as int)),
        decreases p.remove_ids.len() - i,
    {
        proof {
            assert(pv.remove.take(i as int + 1).drop_last() =~= pv.remove.take(i as int));
            crate::value::lemma_remove_increases(fields_of(out@), p.remove_ids@[i as int]@);
        }
        remove_field(&mut out, p.remove_ids[i].as_str());
        i = i + 1;
    }
    assert(pv.remove.take(i as int) =~= pv.remove);
    let ghost removed = fields_of(out@);
    let mut k: usize = 0;
    while k < p.replace_blocks.len()
        invariant
            k <= p.replace_blocks.len(),
            pv == presentation_view(*p),
            names_increase(fields_of(out@)),
            fields_of(out@) == put_all(removed, pv.replace.take(k as int)),
        decreases p.replace_blocks.len() - k,
    {
        proof {
            assert(pv.replace.take(k as int + 1).drop_last() =~= pv.replace.take(k as int));
        }
        let id = p.replace_blocks[k].id.clone();
        let content = copy_value(&p.replace_blocks[k].content);
        proof {
            crate::value::lemma_put_increases(fields_of(out@), id@, data_of(content));
        }
        put_field(&mut out, id, content);
        k = k + 1;
    }
    assert(pv.replace.take(k as int) =~= pv.replace);
    out
}

/// A list of one value.
fn single(v: Value) -> (r: Value)
    ensures
        data_of(r) == Data::List(seq![data_of(v)]),
{
    let ghost d = data_of(v);
    let items = vec![v];
    let r = Value::List(items);
    assert(data_of(r)->List_0 =~= seq![d]);
    r
}

/// An empty context: a record without fields.
pub open spec fn context_or_empty(c: Option<Data>) -> Data {
    match c {
        Some(d) => d,
        None => Data::Record(Seq::empty()),
    }
}

/// Events as a list: a list stays, anything else is its one item.
pub open spec fn event_list(d: Data) -> Data {
    match d {
        Data::List(items) => Data::List(items),
        _ => Data::List(seq![d]),
    }
}

/// What a `present` script is asked.
pub open spec fn present_request_data(viewer: Seq<char>, context: Option<Data>, command_id: Seq<char>, events: Data) -> Data {
    Data::Record(
        seq![
            ("command_id"@, Data::Text(command_id)),
            ("events"@, event_list(events)),
            ("view_context"@, context_or_empty(context)),
            ("viewer"@, Data::Text(viewer)),
        ],
    )
}

/// The view update of a viewer whose revision was `base`.
pub open spec fn update_of(p: Presentation, world_revision: u64, base: u64) -> ViewUpdate {
    ViewUpdate {
        world_revision,
        base_view_revision: base,
        view_revision: (base + 1) as u64,
        replace_blocks: p.replace_blocks,
        remove_ids: p.remove_ids,
        effects: p.effects,
    }
}

impl Session {
    /// What to ask the `present` script for a viewer after a command.
    pub fn present_request(&self, viewer: &str, command_id: &str, events: Value) -> (r: Value)
        requires
            self.inv(),
        ensures
            data_of(r) == present_request_data(viewer@, viewer_state(self@, viewer@).context, command_id@, data_of(events)),
    {
        let state = self.current_viewer(viewer);
        let context = match state.context {
            Some(c) => c,
            None => {
                let e: Vec<(String, Value)> = Vec::new();
                proof {
                    crate::value::lemma_record_data(e);
                    assert(fields_of(e@) =~= Seq::<(Seq<char>, Data)>::empty());
                }
                Value::Record(e)
            },
        };
        let list = match events {
            Value::List(items) => Value::List(items),
            other => single(other),
        };
        let fields = vec![
            (String::from_str("command_id"), Value::String(String::from_str(command_id))),
            (String::from_str("events"), list),
            (String::from_str("view_context"), context),
            (String::from_str("viewer"), Value::String(String::from_str(viewer))),
        ];
        proof {
            crate::value::lemma_record_data(fields);
            assert(fields_of(fields@) =~= present_request_data(viewer@, viewer_state(self@, viewer@).context, command_id@, data_of(events))->Record_0);
        }
        Value::Record(fields)
    }
}

/// A viewer's state after a presentation that changed its view.
pub open spec fn advanced(st: ViewerView, blocks: Fields) -> ViewerView {
    ViewerView { revision: (st.revision + 1) as u64, context: st.context, blocks }
}

/// Whether a snapshot is a valid message referring only to known assets.
pub open spec fn snapshot_check(s: ViewSnapshot, known: Set<Seq<char>>) -> Result<(), (Seq<char>, Seq<char>)> {
    crate::protocol::spec_validate_assets(Message::ViewSnapshot(s), known)
}

/// A snapshot of a viewer's blocks at a world revision.
pub open spec fn is_snapshot_of(s: ViewSnapshot, world_revision: u64, v: ViewerView) -> bool {
    s.world_revision == world_revision && s.view_revision == v.revision && blocks_view(s.blocks@) == v.blocks
}

impl Session {
    /// Applies what the `present` script answered after a command to the
    /// viewer's blocks. A view that did not change gives no update; one
    /// that did gives an update from the viewer's revision to the next,
    /// which must refer only to the package's assets before the viewer
    /// keeps it. The viewer is known to the session afterwards either way.
    pub fn apply_presentation(&mut self, viewer: &str, p: Presentation, world_revision: u64) -> (r: Result<
        Option<ViewUpdate>,
        Error,
    >)
        requires
            old(self).inv(),
        ensures
            final(self).inv(),
            ({
                let st = viewer_state(old(self)@, viewer@);
                let blocks = patched(st.blocks, presentation_view(p));
                let changed = blocks != st.blocks || p.effects@.len() > 0;
                let u = update_of(p, world_revision, st.revision);
                if !changed {
                    r == Ok::<Option<ViewUpdate>, Error>(None) && final(self)@ == with_viewer(old(self)@, viewer@, st)
                } else if st.revision == u64::MAX {
                    r matches Err(e) && e.code@ == "conflict"@ && e.message@ == "view revision exhausted"@
                        && final(self)@ == with_viewer(old(self)@, viewer@, st)
                } else {
                    match crate::protocol::spec_validate_assets(Message::ViewUpdate(u), old(self)@.assets) {
                        Ok(()) => r == Ok::<Option<ViewUpdate>, Error>(Some(u)) && final(self)@ == with_viewer(
                            old(self)@,
                            viewer@,
                            advanced(st, blocks),
                        ),
                        Err(e) => r matches Err(x) && crate::protocol::error_view(x) == e && final(self)@
                            == with_viewer(old(self)@, viewer@, st),
                    }
                }
            }),
    {
        let state = self.current_viewer(viewer);
        let blocks = patch(&state.blocks, &p);
        let changed = !crate::value::same_fields(&blocks, &state.blocks) || p.effects.len() > 0;
        let base = state.revision;
        let context = match &state.context {
            Some(c) => Some(copy_value(c)),
            None => None,
        };
        if !changed {
            self.store_viewer(viewer, state);
            return Ok(None);
        }
        if base == u64::MAX {
            self.store_viewer(viewer, state);
            return Err(Error::new("conflict", "view revision exhausted"));
        }
        let ghost u = update_of(p, world_revision, base);
        let message = Message::ViewUpdate(ViewUpdate {
            world_revision,
            base_view_revision: base,
            view_revision: base + 1,
            replace_blocks: p.replace_blocks,
            remove_ids: p.remove_ids,
            effects: p.effects,
        });
        assert(message == Message::ViewUpdate(u));
        match crate::protocol::validate_assets(&message, &self.assets) {
            Ok(()) => {},
            Err(e) => {
                self.store_viewer(viewer, state);
                return Err(e);
            },
        }
        self.store_viewer(viewer, Viewer { revision: base + 1, context, blocks });
        match message {
            Message::ViewUpdate(update) => Ok(Some(update)),
            _ => Ok(None),
        }
    }

    /// Sets the context a viewer's interface scripts left.
    pub fn set_context(&mut self, viewer: &str, context: Value)
        requires
            old(self).inv(),
        ensures
            final(self).inv(),
            final(self)@ == with_viewer(
                old(self)@,
                viewer@,
                ViewerView { context: Some(data_of(context)), ..viewer_state(old(self)@, viewer@) },
            ),
    {
        let state = self.current_viewer(viewer);
        self.store_viewer(viewer, Viewer { revision: state.revision, context: Some(context), blocks: state.blocks });
    }

    /// What to ask the `present` script for a full view of a viewer.
    pub fn snapshot_request(&self, viewer: &str) -> (r: Result<Value, String>)
        requires
            self.inv(),
        ensures
            viewer@.len() == 0 ==> (r matches Err(m) && m@ == "viewer id must not be empty"@),
            viewer@.len() > 0 ==> (r matches Ok(v) && data_of(v) == present_request_data(
                viewer@,
                viewer_state(self@, viewer@).context,
                "snapshot"@,
                Data::List(Seq::empty()),
            )),
    {
        if chars_of(viewer).len() == 0 {
            return Err(String::from_str("viewer id must not be empty"));
        }
        let empty: Vec<Value> = Vec::new();
        let events = Value::List(empty);
        assert(data_of(events)->List_0 =~= Seq::<Data>::empty());
        Ok(self.present_request(viewer, "snapshot", events))
    }

    /// Applies what the `present` script answered for a full view, and gives
    /// the viewer's blocks in increasing order of id. The revision moves on
    /// only when the blocks changed; the snapshot must refer only to the
    /// package's assets, but the viewer keeps its blocks either way.
    pub fn apply_snapshot(&mut self, viewer: &str, p: Presentation, world_revision: u64) -> (r: Result<
        ViewSnapshot,
        String,
    >)
        requires
            old(self).inv(),
        ensures
            final(self).inv(),
            ({
                let st = viewer_state(old(self)@, viewer@);
                let blocks = patched(st.blocks, presentation_view(p));
                let next = if blocks == st.blocks { st } else { advanced(st, blocks) };
                if blocks != st.blocks && st.revision == u64::MAX {
                    r matches Err(m) && m@ == "view revision exhausted"@ && final(self)@ == with_viewer(
                        old(self)@,
                        viewer@,
                        st,
                    )
                } else {
                    final(self)@ == with_viewer(old(self)@, viewer@, next) && match r {
                        Ok(snap) => is_snapshot_of(snap, world_revision, next) && snapshot_check(
                            snap,
                            old(self)@.assets,
                        ) is Ok,
                        Err(m) => exists|snap: ViewSnapshot|
                            is_snapshot_of(snap, world_revision, next) && (#[trigger] snapshot_check(
                                snap,
                                old(self)@.assets,
                            ) matches Err(e) && m@ == e.1),
                    }
                }
            }),
    {
        let state = self.current_viewer(viewer);
        let blocks = patch(&state.blocks, &p);
        let next = if crate::value::same_fields(&blocks, &state.blocks) {
            state
        } else {
            if state.revision == u64::MAX {
                self.store_viewer(viewer, state);
                return Err(String::from_str("view revision exhausted"));
            }
            Viewer { revision: state.revision + 1, context: state.context, blocks }
        };
        let snapshot = ViewSnapshot {
            world_revision,
            view_revision: next.revision,
            blocks: to_blocks(&next.blocks),
        };
        let ghost snap0 = snapshot;
        self.store_viewer(viewer, next);
        let message = Message::ViewSnapshot(snapshot);
        match crate::protocol::validate_assets(&message, &self.assets) {
            Ok(()) => {},
            Err(e) => {
                assert(snapshot_check(snap0, old(self)@.assets) == Err::<(), (Seq<char>, Seq<char>)>(
                    crate::protocol::error_view(e),
                ));
                return Err(e.message);
            },
        }
        match message {
            Message::ViewSnapshot(snap) => Ok(snap),
            _ => Err(String::new()),
        }
    }
}

// ---------------------------------------------------------------------------
// Interactions
// ---------------------------------------------------------------------------
/// An interaction as plain values.
pub open spec fn interaction_view(i: Interaction) -> (Seq<char>, u64, InteractionKind, Data, Data) {
    (i.interaction_id@, i.expected_view_revision, i.kind, data_of(i.target), data_of(i.payload))
}

/// Whether two interactions are the same request.
pub fn same_interaction(a: &Interaction, b: &Interaction) -> (r: bool)
    ensures
        r == (interaction_view(*a) == interaction_view(*b)),
{
    str_eq(a.interaction_id.as_str(), b.interaction_id.as_str()) && a.expected_view_revision
        == b.expected_view_revision && a.kind == b.kind && same_value(&a.target, &b.target) && same_value(
        &a.payload,
        &b.payload,
    )
}

/// An answer to an interaction that failed, with nothing else.
pub open spec fn is_failure(d: InteractionDelivery, id: Seq<char>, code: Seq<char>, message: Seq<char>) -> bool {
    &&& d.interaction_id@ == id
    &&& d.view is None
    &&& d.command is None
    &&& error_is(d.error, code, message)
}

/// An interaction that failed with `error`.
pub fn interaction_failure(interaction_id: &str, error: Error) -> (d: InteractionDelivery)
    ensures
        d.interaction_id@ == interaction_id@,
        d.view is None,
        d.command is None,
        d.error == Some(error),
{
    InteractionDelivery { interaction_id: String::from_str(interaction_id), view: None, command: None, error: Some(error) }
}

/// The answer a session gave before to the same interaction from the same
/// viewer.
pub open spec fn cached_delivery(s: SessionView, viewer: Seq<char>, i: Interaction) -> Option<InteractionDelivery> {
    match field_get(s.interactions, i.interaction_id@) {
        Some(c) => if c.viewer@ == viewer && interaction_view(c.interaction) == interaction_view(i) {
            Some(c.delivery)
        } else {
            None
        },
        None => None,
    }
}

/// What to do with an interaction before any script runs.
pub enum InteractionStart {
    /// Answer again with the answer kept at this index.
    Replay(usize),
    /// Answer with this failure, and keep nothing.
    Refused(InteractionDelivery),
    /// Answer with this failure, and keep it for retries.
    Stale(InteractionDelivery),
    /// Ask the `interact` script.
    Execute,
}

/// The session after an answer to an interaction is kept.
pub open spec fn with_interaction(
    s: SessionView,
    viewer: String,
    i: Interaction,
    d: InteractionDelivery,
) -> SessionView {
    SessionView {
        interactions: field_put(
            s.interactions,
            i.interaction_id@,
            CachedInteraction { viewer, interaction: i, delivery: d },
        ),
        ..s
    }
}

/// An answer kept for an interaction is given again to the same interaction
/// from the same viewer.
pub proof fn lemma_kept_interaction_replays(s: SessionView, viewer: String, i: Interaction, d: InteractionDelivery)
    ensures
        cached_delivery(with_interaction(s, viewer, i, d), viewer@, i) == Some(d),
{
    crate::value::lemma_get_put(
        s.interactions,
        i.interaction_id@,
        CachedInteraction { viewer, interaction: i, delivery: d },
        i.interaction_id@,
    );
}

pub open spec fn kind_name(k: InteractionKind) -> Seq<char> {
    match k {
        InteractionKind::Activate => "activate"@,
        InteractionKind::CellClick => "cell_click"@,
        InteractionKind::Hover => "hover"@,
        InteractionKind::Dismiss => "dismiss"@,
    }
}

/// What an `interact` script is asked.
pub open spec fn interact_request_data(viewer: Seq<char>, context: Option<Data>, i: Interaction, world_revision: u64) -> Data {
    Data::Record(
        seq![
            ("input"@, Data::Record(
                seq![
                    ("interaction_id"@, Data::Text(i.interaction_id@)),
                    ("kind"@, Data::Text(kind_name(i.kind))),
                    ("payload"@, data_of(i.payload)),
                    ("target"@, data_of(i.target)),
                ],
            )),
            ("view_context"@, context_or_empty(context)),
            ("viewer"@, Data::Text(viewer)),
            ("world_revision"@, Data::Integer(world_revision as i64)),
        ],
    )
}

fn kind_text(k: InteractionKind) -> (r: String)
    ensures
        r@ == kind_name(k),
{
    match k {
        InteractionKind::Activate => String::from_str("activate"),
        InteractionKind::CellClick => String::from_str("cell_click"),
        InteractionKind::Hover => String::from_str("hover"),
        InteractionKind::Dismiss => String::from_str("dismiss"),
    }
}

impl Session {
    /// Decides what to do with an interaction from `viewer`: a repeated
    /// delivery is answered as before; one made on a view the viewer no
    /// longer has is stale.
    pub fn interaction_start(&self, viewer: &str, interaction: &Interaction) -> (r: InteractionStart)
        requires
            self.inv(),
        ensures
            viewer@.len() == 0 ==> (r matches InteractionStart::Refused(d) && is_failure(
                d,
                interaction.interaction_id@,
                "invalid_input"@,
                "viewer id must not be empty"@,
            )),
            viewer@.len() > 0 && cached_delivery(self@, viewer@, *interaction) is Some ==> (r matches InteractionStart::Replay(i)
                && i < self@.interactions.len() && self@.interactions[i as int].0 == interaction.interaction_id@
                && Some(self@.interactions[i as int].1.delivery) == cached_delivery(self@, viewer@, *interaction)),
            viewer@.len() > 0 && cached_delivery(self@, viewer@, *interaction) is None && field_get(
                self@.interactions,
                interaction.interaction_id@,
            ) is Some ==> (r matches InteractionStart::Refused(d) && is_failure(
                d,
                interaction.interaction_id@,
                "conflict"@,
                "interaction id was already used with different content"@,
            )),
            viewer@.len() > 0 && field_get(self@.interactions, interaction.interaction_id@) is None ==> if interaction.expected_view_revision
                != viewer_state(self@, viewer@).revision {
                r matches InteractionStart::Stale(d) && is_failure(
                    d,
                    interaction.interaction_id@,
                    "conflict"@,
                    "stale view revision"@,
                )
            } else {
                r is Execute
            },
    {
        let id = interaction.interaction_id.as_str();
        if chars_of(viewer).len() == 0 {
            return InteractionStart::Refused(
                interaction_failure(id, Error::new("invalid_input", "viewer id must not be empty")),
            );
        }
        match get_keyed(&self.interactions, id) {
            Some(i) => {
                let cached = &self.interactions[i].1;
                assert(keyed(self.interactions@)[i as int] == (
                    self.interactions@[i as int].0@,
                    self.interactions@[i as int].1,
                ));
                if str_eq(cached.viewer.as_str(), viewer) && same_interaction(&cached.interaction, interaction) {
                    return InteractionStart::Replay(i);
                }
                return InteractionStart::Refused(
                    interaction_failure(id, Error::new("conflict", "interaction id was already used with different content")),
                );
            },
            None => {},
        }
        let state = self.current_viewer(viewer);
        if interaction.expected_view_revision != state.revision {
            return InteractionStart::Stale(interaction_failure(id, Error::new("conflict", "stale view revision")));
        }
        InteractionStart::Execute
    }

    /// The answer kept at index `i`.
    pub fn replay_interaction(&self, i: usize) -> (r: &InteractionDelivery)
        requires
            i < self@.interactions.len(),
        ensures
            *r == self@.interactions[i as int].1.delivery,
    {
        assert(keyed(self.interactions@)[i as int] == (self.interactions@[i as int].0@, self.interactions@[i as int].1));
        &self.interactions[i].1.delivery
    }

    /// Keeps the answer to an interaction, so that a repeated delivery gets
    /// it again.
    pub fn record_interaction(&mut self, viewer: String, interaction: Interaction, delivery: InteractionDelivery)
        requires
            old(self).inv(),
        ensures
            final(self).inv(),
            final(self)@ == with_interaction(old(self)@, viewer, interaction, delivery),
    {
        let key = interaction.interaction_id.clone();
        put_keyed(&mut self.interactions, key, CachedInteraction { viewer, interaction, delivery });
    }

    /// What to ask the `interact` script; the world revision must fit an
    /// integer value.
    pub fn interact_request(&self, viewer: &str, interaction: &Interaction, world_revision: u64) -> (r: Result<
        Value,
        Error,
    >)
        requires
            self.inv(),
        ensures
            world_revision > i64::MAX ==> (r matches Err(e) && e.code@ == "conflict"@ && e.message@
                == "world revision exceeds Value integer range"@),
            world_revision <= i64::MAX ==> (r matches Ok(v) && data_of(v) == interact_request_data(
                viewer@,
                viewer_state(self@, viewer@).context,
                *interaction,
                world_revision,
            )),
    {
        if world_revision > i64::MAX as u64 {
            return Err(Error::new("conflict", "world revision exceeds Value integer range"));
        }
        let state = self.current_viewer(viewer);
        let context = match state.context {
            Some(c) => c,
            None => {
                let e: Vec<(String, Value)> = Vec::new();
                proof {
                    crate::value::lemma_record_data(e);
                    assert(fields_of(e@) =~= Seq::<(Seq<char>, Data)>::empty());
                }
                Value::Record(e)
            },
        };
        let input_fields = vec![
            (String::from_str("interaction_id"), Value::String(interaction.interaction_id.clone())),
            (String::from_str("kind"), Value::String(kind_text(interaction.kind))),
            (String::from_str("payload"), copy_value(&interaction.payload)),
            (String::from_str("target"), copy_value(&interaction.target)),
        ];
        proof {
            crate::value::lemma_record_data(input_fields);
            assert(fields_of(input_fields@) =~= seq![
                ("interaction_id"@, Data::Text(interaction.interaction_id@)),
                ("kind"@, Data::Text(kind_name(interaction.kind))),
                ("payload"@, data_of(interaction.payload)),
                ("target"@, data_of(interaction.target)),
            ]);
        }
        let revision = world_revision as i64;
        let fields = vec![
            (String::from_str("input"), Value::Record(input_fields)),
            (String::from_str("view_context"), context),
            (String::from_str("viewer"), Value::String(String::from_str(viewer))),
            (String::from_str("world_revision"), Value::Integer(revision)),
        ];
        proof {
            crate::value::lemma_record_data(fields);
            assert(fields_of(fields@) =~= interact_request_data(
                viewer@,
                viewer_state(self@, viewer@).context,
                *interaction,
                world_revision,
            )->Record_0);
        }
        Ok(Value::Record(fields))
    }

    /// Starts a new generation after the world was replaced by a save: a
    /// new id, and no kept answers, views or contexts, which belonged to
    /// the world before.
    pub fn restored(&mut self) -> (r: Result<(), Error>)
        requires
            old(self).inv(),
        ensures
            final(self).inv(),
            old(self)@.generation == u64::MAX ==> (r matches Err(e) && e.code@ == "conflict"@ && e.message@
                == "session generation exhausted"@ && final(self)@ == old(self)@),
            old(self)@.generation < u64::MAX ==> (r is Ok && final(self)@ == (SessionView {
                id: old(self)@.root_id + "@"@ + decimal((old(self)@.generation + 1) as nat),
                generation: (old(self)@.generation + 1) as u64,
                commands: Seq::empty(),
                viewers: Seq::empty(),
                interactions: Seq::empty(),
                ..old(self)@
            })),
    {
        if self.generation == u64::MAX {
            return Err(Error::new("conflict", "session generation exhausted"));
        }
        let generation = self.generation + 1;
        let mut id = chars_of(self.root_id.as_str());
        push_str(&mut id, "@");
        push_all(&mut id, &format_u64(generation));
        self.generation = generation;
        self.id = string_of(&id);
        self.commands = Vec::new();
        self.viewers = Vec::new();
        self.interactions = Vec::new();
        assert(keyed(self.commands@) =~= Seq::<(Seq<char>, CachedCommand)>::empty());
        assert(keyed(self.viewers@) =~= Seq::<(Seq<char>, Viewer)>::empty());
        assert(viewers_view(keyed(self.viewers@)) =~= Seq::<(Seq<char>, ViewerView)>::empty());
        assert(keyed(self.interactions@) =~= Seq::<(Seq<char>, CachedInteraction)>::empty());
        Ok(())
    }
}

} // verus!
