//! Addresses of the authoritative world store and its deterministic random
//! source.
//!
//! The world has three address spaces: map cells, entities and shared game
//! data. An address names a collection and an id inside it; a map cell's id
//! is its position written `x,y`.
use vstd::prelude::*;
use crate::hex::Position;
use crate::resources::strings_view;
use crate::text::{
    chars_of, decimal, find_from, format_i64, format_int, format_u64, lemma_find_from_range,
    lemma_format_parse_round_trip, parse_i64, parse_signed, push_all, push_str, slice_chars,
    split_once, split_once_chars, string_of,
};
use crate::value::{
    copy_fields, copy_value, data_of, field_get, field_put, field_remove, fields_of,
    fields_well_formed, lemma_fields_well_formed, lemma_get_at, lemma_get_put, lemma_get_remove,
    lemma_get_well_formed, lemma_position_bounds, lemma_put_at, lemma_put_increases,
    lemma_put_well_formed, lemma_record_data, name_position, names_increase, names_of, same_value,
    well_formed, Data, Fields, Value,
};
use crate::world::{
    address_view, cell_index, collection_of, copy_world, entities_of, entity_view, find_key,
    key_names, lemma_cell_of_map, lemma_entity_names, lemma_field_names, lemma_with_cell_well_formed,
    lemma_with_data_well_formed, lemma_with_entity_well_formed, lemma_without_data_well_formed,
    lemma_without_entity_well_formed, not_a_map, not_found, already_exists, put_entry, put_field,
    put_key, read_field, read_value, spec_cell, spec_collection, spec_read, spec_read_field,
    unknown_collection, invalid_map_address, with_cell, with_data, with_entity, without_data,
    without_entity, world_view, world_well_formed, AddressView, Collection, Entity, EntityView,
    World, WorldView,
};

verus! {

/// A record of the store: a collection and an id inside it.
#[derive(Clone, Debug, PartialEq, Eq, PartialOrd, Ord)]
pub struct Address {
    pub collection: String,
    pub id: String,
}

/// The revision reached by a transaction and the addresses it changed.
#[derive(Clone, Debug, PartialEq, Eq)]
pub struct Commit {
    pub revision: u64,
    pub changed_addresses: Vec<Address>,
}

/// The id of the map cell at `p`: `x,y` in decimal.
pub open spec fn map_id(p: Position) -> Seq<char> {
    format_int(p.x as int) + ","@ + format_int(p.y as int)
}

impl Address {
    /// An address in a named collection; neither part may be empty.
    pub fn new(collection: &str, id: &str) -> (r: Result<Address, String>)
        ensures
            r is Ok <==> (collection@.len() > 0 && id@.len() > 0),
            r matches Ok(a) ==> a.collection@ == collection@ && a.id@ == id@,
            r matches Err(m) ==> m@ == "store address parts must not be empty"@,
    {
        let address = Address { collection: String::from_str(collection), id: String::from_str(id) };
        let c = chars_of(collection);
        let i = chars_of(id);
        if c.len() == 0 || i.len() == 0 {
            return Err(String::from_str("store address parts must not be empty"));
        }
        Ok(address)
    }

    /// The address of an entity.
    pub fn entity(id: &str) -> (r: Address)
        ensures
            r.collection@ == "entities"@,
            r.id@ == id@,
    {
        Address { collection: String::from_str("entities"), id: String::from_str(id) }
    }

    /// The address of a shared data record.
    pub fn data(id: &str) -> (r: Address)
        ensures
            r.collection@ == "data"@,
            r.id@ == id@,
    {
        Address { collection: String::from_str("data"), id: String::from_str(id) }
    }

    /// The address of a map cell.
    pub fn map(position: Position) -> (r: Address)
        ensures
            r.collection@ == "map"@,
            r.id@ == map_id(position),
    {
        let mut id: Vec<char> = Vec::new();
        let x = format_i64(position.x);
        push_all(&mut id, &x);
        push_str(&mut id, ",");
        let y = format_i64(position.y);
        push_all(&mut id, &y);
        Address { collection: String::from_str("map"), id: string_of(&id) }
    }
}

/// Checks that neither part of an address is empty.
pub fn validate_address(address: &Address) -> (r: Result<(), String>)
    ensures
        r is Ok <==> (address.collection@.len() > 0 && address.id@.len() > 0),
        r matches Err(m) ==> m@ == "store address parts must not be empty"@,
{
    let c = chars_of(address.collection.as_str());
    let i = chars_of(address.id.as_str());
    if c.len() == 0 || i.len() == 0 {
        return Err(String::from_str("store address parts must not be empty"));
    }
    Ok(())
}

/// The position that a map id `x,y` names: two `i64` values around the
/// first comma.
pub open spec fn spec_parse_map_id(id: Seq<char>) -> Option<Position> {
    match split_once(id, ',') {
        None => None,
        Some(parts) => match (
            parse_signed(parts.0, i64::MIN as int, i64::MAX as int),
            parse_signed(parts.1, i64::MIN as int, i64::MAX as int),
        ) {
            (Some(x), Some(y)) => Some(Position { x: x as i64, y: y as i64 }),
            _ => None,
        },
    }
}

/// Reads the position of a map id.
pub fn parse_map_id(id: &str) -> (r: Result<Position, String>)
    ensures
        match r {
            Ok(p) => spec_parse_map_id(id@) == Some(p),
            Err(m) => spec_parse_map_id(id@) is None && m@ == "invalid map address: "@ + id@,
        },
{
    let v = chars_of(id);
    let parsed = match split_once_chars(&v, ',') {
        None => None,
        Some((x, y)) => match (parse_i64(&x), parse_i64(&y)) {
            (Some(a), Some(b)) => Some(Position { x: a, y: b }),
            _ => None,
        },
    };
    match parsed {
        Some(p) => Ok(p),
        None => {
            let mut m: Vec<char> = Vec::new();
            push_str(&mut m, "invalid map address: ");
            push_str(&mut m, id);
            Err(string_of(&m))
        },
    }
}

/// Reading back the id of a map address gives the position it was made
/// from.
pub proof fn lemma_map_id_round_trip(p: Position)
    ensures
        spec_parse_map_id(map_id(p)) == Some(p),
{
    let xs = format_int(p.x as int);
    let ys = format_int(p.y as int);
    let id = map_id(p);
    reveal_strlit(",");
    lemma_format_parse_round_trip(p.x as int);
    lemma_format_parse_round_trip(p.y as int);
    assert(!xs.contains(',')) by {
        lemma_format_has_no_comma(p.x as int);
    }
    assert(id =~= xs + seq![','] + ys);
    lemma_split_at_first(xs, ys);
}

proof fn lemma_format_has_no_comma(n: int)
    ensures
        !format_int(n).contains(','),
{
    crate::text::lemma_format_digits(n);
    let s = format_int(n);
    if s.contains(',') {
        let i = choose|i: int| 0 <= i < s.len() && s[i] == ',';
        assert(crate::text::is_digit(s[i]) || s[i] == '-');
    }
}

proof fn lemma_split_at_first(a: Seq<char>, b: Seq<char>)
    requires
        !a.contains(','),
    ensures
        split_once(a + seq![','] + b, ',') == Some((a, b)),
{
    let s = a + seq![','] + b;
    assert forall|i: int| 0 <= i < a.len() implies s[i] != ',' by {
        assert(s[i] == a[i]);
    }
    lemma_find_first(s, ',', a.len() as int, 0);
    assert(s.subrange(0, a.len() as int) =~= a);
    assert(s.subrange(a.len() as int + 1, s.len() as int) =~= b);
}

proof fn lemma_find_first(s: Seq<char>, c: char, k: int, i: int)
    requires
        0 <= i <= k < s.len(),
        s[k] == c,
        forall|j: int| 0 <= j < k ==> s[j] != c,
    ensures
        find_from(s, c, i) == Some(k),
    decreases k - i,
{
    if i < k {
        lemma_find_first(s, c, k, i + 1);
    }
}

// ---------------------------------------------------------------------------
// Deterministic random numbers
// ---------------------------------------------------------------------------
/// A linear congruential generator: the same seed gives the same numbers.
#[derive(Clone, Debug)]
pub struct DeterministicRandom {
    state: u64,
}

/// The state after one step of the generator.
pub open spec fn next_state(state: u64) -> u64 {
    vstd::wrapping::u64_specs::wrapping_add(
        vstd::wrapping::u64_specs::wrapping_mul(state, 6_364_136_223_846_793_005),
        1,
    )
}

/// The number drawn from `min..=max` by the state `state`: its high 32 bits
/// modulo the width of the range.
/// The error for a range that cannot be drawn from: `prefix`, then
/// `min..max` in decimal.
pub open spec fn range_message(prefix: Seq<char>, min: i64, max: i64) -> Seq<char> {
    prefix + format_int(min as int) + ".."@ + format_int(max as int)
}

pub open spec fn drawn(state: u64, min: int, max: int) -> int {
    min + ((state >> 32u64) as int) % (max - min + 1)
}

impl View for DeterministicRandom {
    type V = u64;

    closed spec fn view(&self) -> u64 {
        self.state
    }
}

impl DeterministicRandom {
    /// A generator whose state is the seed.
    pub fn new(seed: u64) -> (r: DeterministicRandom)
        ensures
            r@ == seed,
    {
        DeterministicRandom { state: seed }
    }

    /// A number from `min..=max`. An empty range, or one wider than `i64`
    /// can count, is an error and leaves the state as it was.
    pub fn integer(&mut self, min: i64, max: i64) -> (r: Result<i64, String>)
        ensures
            min > max ==> (r matches Err(m) && m@ == range_message("invalid random range "@, min, max)
                && final(self)@ == old(self)@),
            min <= max && max - min + 1 > i64::MAX ==> (r matches Err(m) && m@ == range_message(
                "random range is too wide: "@,
                min,
                max,
            ) && final(self)@ == old(self)@),
            min <= max && max - min + 1 <= i64::MAX ==> final(self)@ == next_state(old(self)@)
                && r == Ok::<i64, String>(drawn(final(self)@, min as int, max as int) as i64),
    {
        if min > max {
            let mut m: Vec<char> = Vec::new();
            push_str(&mut m, "invalid random range ");
            push_all(&mut m, &format_i64(min));
            push_str(&mut m, "..");
            push_all(&mut m, &format_i64(max));
            assert(m@ =~= range_message("invalid random range "@, min, max));
            return Err(string_of(&m));
        }
        let span = match max.checked_sub(min) {
            Some(distance) => distance.checked_add(1),
            None => None,
        };
        let span = match span {
            Some(s) => s,
            None => {
                let mut m: Vec<char> = Vec::new();
                push_str(&mut m, "random range is too wide: ");
                push_all(&mut m, &format_i64(min));
                push_str(&mut m, "..");
                push_all(&mut m, &format_i64(max));
                assert(m@ =~= range_message("random range is too wide: "@, min, max));
                return Err(string_of(&m));
            },
        };
        self.state = self.state.wrapping_mul(6_364_136_223_846_793_005).wrapping_add(1);
        let high = self.state >> 32u64;
        let offset = (high % span as u64) as i64;
        Ok(min + offset)
    }
}


/// A drawn number lies in its range.
pub proof fn lemma_drawn_in_range(state: u64, min: int, max: int)
    requires
        min <= max,
    ensures
        min <= drawn(state, min, max) <= max,
{
}
// ---------------------------------------------------------------------------
// Operations
// ---------------------------------------------------------------------------
/// One change to the world.
#[derive(Clone, Debug, PartialEq)]
pub enum Operation {
    /// Adds an entity or a data record that does not exist yet.
    Insert { address: Address, value: Value },
    /// Replaces an existing entity, data record or map cell.
    Update { address: Address, value: Value },
    /// Removes an existing entity or data record.
    Remove { address: Address },
    /// Sets one field of an existing record.
    SetField { address: Address, field: String, value: Value },
}

/// The operation that setting a key of the game's state asks for, given
/// whether the key exists: no value removes an existing key and leaves a
/// missing one alone; a value updates an existing key or inserts a new one.
pub fn state_operation(address: Address, value: Option<Value>, exists: bool) -> (r: Option<Operation>)
    ensures
        match value {
            None => if exists {
                r == Some(Operation::Remove { address })
            } else {
                r is None
            },
            Some(v) => if exists {
                r == Some(Operation::Update { address, value: v })
            } else {
                r == Some(Operation::Insert { address, value: v })
            },
        },
{
    match value {
        None => if exists {
            Some(Operation::Remove { address })
        } else {
            None
        },
        Some(v) => if exists {
            Some(Operation::Update { address, value: v })
        } else {
            Some(Operation::Insert { address, value: v })
        },
    }
}

/// The mathematical form of an operation.
pub enum OperationView {
    Insert(AddressView, Data),
    Update(AddressView, Data),
    Remove(AddressView),
    SetField(AddressView, Seq<char>, Data),
}

pub open spec fn operation_view(op: Operation) -> OperationView {
    match op {
        Operation::Insert { address, value } => OperationView::Insert(address_view(address), data_of(value)),
        Operation::Update { address, value } => OperationView::Update(address_view(address), data_of(value)),
        Operation::Remove { address } => OperationView::Remove(address_view(address)),
        Operation::SetField { address, field, value } => OperationView::SetField(
            address_view(address),
            field@,
            data_of(value),
        ),
    }
}

/// The value an operation writes is well formed.
pub open spec fn operation_well_formed(op: OperationView) -> bool {
    match op {
        OperationView::Insert(_, d) => well_formed(d),
        OperationView::Update(_, d) => well_formed(d),
        OperationView::Remove(_) => true,
        OperationView::SetField(_, _, d) => well_formed(d),
    }
}

/// The addresses changed so far, by collection and then by id, each in
/// increasing order.
pub type Changes = Seq<(Seq<char>, Seq<(Seq<char>, ())>)>;

pub open spec fn changes_well_formed(cs: Changes) -> bool {
    &&& names_increase(cs)
    &&& forall|i: int| 0 <= i < cs.len() ==> names_increase(#[trigger] cs[i].1)
}

/// The changes with `a` added.
pub open spec fn add_change(cs: Changes, a: AddressView) -> Changes {
    let group = match field_get(cs, a.0) {
        Some(g) => g,
        None => Seq::empty(),
    };
    field_put(cs, a.0, field_put(group, a.1, ()))
}

/// The addresses of one collection's changes.
pub open spec fn expand(g: (Seq<char>, Seq<(Seq<char>, ())>)) -> Seq<AddressView> {
    g.1.map_values(|p: (Seq<char>, ())| (g.0, p.0))
}

/// The changed addresses in order: by collection, then by id.
pub open spec fn flatten(cs: Changes) -> Seq<AddressView>
    decreases cs.len(),
{
    if cs.len() == 0 {
        seq![]
    } else {
        flatten(cs.drop_last()) + expand(cs.last())
    }
}

pub open spec fn entity_maps_message() -> Seq<char> {
    "entity store values must be maps"@
}

/// Writes `d` at `a` as a whole record: an entity (which must be a record),
/// a data record, or a map cell.
pub open spec fn spec_write(w: WorldView, a: AddressView, d: Data, insert: bool) -> Result<WorldView, Seq<char>> {
    match spec_collection(a.0) {
        Collection::Entities => match d {
            Data::Record(f) => Ok(with_entity(w, a.1, EntityView { id: a.1, data: f })),
            _ => Err(entity_maps_message()),
        },
        Collection::Data => Ok(with_data(w, a.1, d)),
        Collection::Cells => if insert {
            Err("map cells cannot be inserted"@)
        } else {
            match spec_parse_map_id(a.1) {
                None => Err(invalid_map_address(a.1)),
                Some(p) => match spec_cell(w, p) {
                    Err(m) => Err(m),
                    Ok(_) => Ok(with_cell(w, p, d)),
                },
            }
        },
        Collection::Unknown => Err(unknown_collection(a.0)),
    }
}

/// Removes the record at `a`: an entity or a data record.
pub open spec fn spec_remove(w: WorldView, a: AddressView) -> Result<WorldView, Seq<char>> {
    match spec_collection(a.0) {
        Collection::Entities => Ok(without_entity(w, a.1)),
        Collection::Data => Ok(without_data(w, a.1)),
        Collection::Cells => Err("map cells cannot be removed"@),
        Collection::Unknown => Err(unknown_collection(a.0)),
    }
}

/// Sets field `field` of the record at `a` (which `spec_read_field` found).
pub open spec fn spec_set_field(w: WorldView, a: AddressView, field: Seq<char>, d: Data) -> WorldView {
    match spec_collection(a.0) {
        Collection::Entities => {
            let e = field_get(w.entities, a.1).unwrap();
            with_entity(w, a.1, EntityView { id: e.id, data: field_put(e.data, field, d) })
        },
        Collection::Data => match field_get(w.data, a.1) {
            Some(Data::Record(r)) => with_data(w, a.1, Data::Record(field_put(r, field, d))),
            _ => w,
        },
        _ => match spec_parse_map_id(a.1) {
            Some(p) => match spec_cell(w, p) {
                Ok(Data::Record(r)) => with_cell(w, p, Data::Record(field_put(r, field, d))),
                _ => w,
            },
            None => w,
        },
    }
}

/// One operation on a world and its changes.
pub open spec fn spec_apply_one(w: WorldView, cs: Changes, op: OperationView) -> Result<(WorldView, Changes), Seq<char>> {
    match op {
        OperationView::Insert(a, d) => match spec_read(w, a) {
            Err(m) => Err(m),
            Ok(Some(_)) => Err(already_exists(a)),
            Ok(None) => match spec_write(w, a, d, true) {
                Err(m) => Err(m),
                Ok(w2) => Ok((w2, add_change(cs, a))),
            },
        },
        OperationView::Update(a, d) => match spec_read(w, a) {
            Err(m) => Err(m),
            Ok(None) => Err(not_found(a)),
            Ok(Some(current)) => if current == d {
                Ok((w, cs))
            } else {
                match spec_write(w, a, d, false) {
                    Err(m) => Err(m),
                    Ok(w2) => Ok((w2, add_change(cs, a))),
                }
            },
        },
        OperationView::Remove(a) => match spec_read(w, a) {
            Err(m) => Err(m),
            Ok(None) => Err(not_found(a)),
            Ok(Some(_)) => match spec_remove(w, a) {
                Err(m) => Err(m),
                Ok(w2) => Ok((w2, add_change(cs, a))),
            },
        },
        OperationView::SetField(a, field, d) => if field.len() == 0 {
            Err("store field must not be empty"@)
        } else {
            match spec_read_field(w, a, field) {
                Err(m) => Err(m),
                Ok(current) => if current == Some(d) {
                    Ok((w, cs))
                } else {
                    Ok((spec_set_field(w, a, field, d), add_change(cs, a)))
                },
            }
        },
    }
}

/// Operations in order; the first that fails decides the error.
pub open spec fn spec_apply(w: WorldView, cs: Changes, ops: Seq<OperationView>) -> Result<(WorldView, Changes), Seq<char>>
    decreases ops.len(),
{
    if ops.len() == 0 {
        Ok((w, cs))
    } else {
        match spec_apply_one(w, cs, ops[0]) {
            Err(m) => Err(m),
            Ok((w2, cs2)) => spec_apply(w2, cs2, ops.drop_first()),
        }
    }
}

// ---------------------------------------------------------------------------
// Recording changes
// ---------------------------------------------------------------------------
/// Changed ids of one collection, in increasing order.
pub type ChangeGroup = Vec<(String, ())>;

pub open spec fn group_of(g: Seq<(String, ())>) -> Seq<(Seq<char>, ())> {
    Seq::new(g.len(), |j: int| (g[j].0@, ()))
}

pub open spec fn changes_of(cs: Seq<(String, ChangeGroup)>) -> Changes {
    Seq::new(cs.len(), |i: int| (cs[i].0@, group_of(cs[i].1@)))
}

proof fn lemma_group_names(g: Seq<(String, ())>)
    ensures
        names_of(group_of(g)) == key_names(g),
{
    assert(names_of(group_of(g)) =~= key_names(g));
}

proof fn lemma_change_names(cs: Seq<(String, ChangeGroup)>)
    ensures
        names_of(changes_of(cs)) == key_names(cs),
{
    assert(names_of(changes_of(cs)) =~= key_names(cs));
}

/// Adds an address to the changes.
fn record_change(cs: &mut Vec<(String, ChangeGroup)>, a: &Address)
    requires
        changes_well_formed(changes_of(old(cs)@)),
    ensures
        changes_of(final(cs)@) == add_change(changes_of(old(cs)@), address_view(*a)),
        changes_well_formed(changes_of(final(cs)@)),
{
    let ghost m = changes_of(cs@);
    let ghost av = address_view(*a);
    let (i, found) = find_key(cs, a.collection.as_str());
    proof {
        lemma_change_names(cs@);
        lemma_get_at(m, av.0);
        lemma_put_at(m, av.0, field_put(match field_get(m, av.0) { Some(g) => g, None => Seq::empty() }, av.1, ()));
        lemma_position_bounds(names_of(m), av.0);
    }
    if found {
        let (name, mut group) = cs.remove(i);
        let ghost gm = group_of(group@);
        proof {
            assert(m[i as int].1 == gm);
            lemma_group_names(group@);
            lemma_put_at(gm, av.1, ());
            lemma_put_increases(gm, av.1, ());
            lemma_position_bounds(names_of(gm), av.1);
        }
        put_key(&mut group, a.id.clone(), ());
        proof {
            let p = name_position(names_of(gm), av.1);
            if p < gm.len() && gm[p].0 == av.1 {
                assert(group_of(group@) =~= gm.update(p, (av.1, ())));
            } else {
                assert(group_of(group@) =~= gm.insert(p, (av.1, ())));
            }
        }
        cs.insert(i, (name, group));
        proof {
            let g2 = field_put(gm, av.1, ());
            assert(changes_of(cs@) =~= m.update(i as int, (av.0, g2)));
            lemma_put_increases(m, av.0, g2);
            assert forall|k: int| 0 <= k < changes_of(cs@).len() implies names_increase(
                #[trigger] changes_of(cs@)[k].1,
            ) by {
                if k != i {
                    assert(changes_of(cs@)[k] == m[k]);
                }
            }
        }
    } else {
        let mut group: ChangeGroup = Vec::new();
        group.push((a.id.clone(), ()));
        assert(group_of(group@) =~= seq![(av.1, ())]);
        cs.insert(i, (a.collection.clone(), group));
        proof {
            let g2 = field_put(Seq::<(Seq<char>, ())>::empty(), av.1, ());
            assert(g2 =~= seq![(av.1, ())]);
            assert(changes_of(cs@) =~= m.insert(i as int, (av.0, g2)));
            lemma_put_increases(m, av.0, g2);
            assert forall|k: int| 0 <= k < changes_of(cs@).len() implies names_increase(
                #[trigger] changes_of(cs@)[k].1,
            ) by {
                if k < i {
                    assert(changes_of(cs@)[k] == m[k]);
                } else if k > i {
                    assert(changes_of(cs@)[k] == m[k - 1]);
                }
            }
        }
    }
}

/// The changed addresses in order.
fn flatten_changes(cs: &Vec<(String, ChangeGroup)>) -> (r: Vec<Address>)
    ensures
        r@.map_values(|a: Address| address_view(a)) == flatten(changes_of(cs@)),
{
    let mut out: Vec<Address> = Vec::new();
    let mut i: usize = 0;
    while i < cs.len()
        invariant
            i <= cs.len(),
            out@.map_values(|a: Address| address_view(a)) == flatten(changes_of(cs@).take(i as int)),
        decreases cs.len() - i,
    {
        let group = &cs[i].1;
        let ghost before = out@.map_values(|a: Address| address_view(a));
        let mut j: usize = 0;
        while j < group.len()
            invariant
                i < cs.len(),
                *group == cs@[i as int].1,
                j <= group.len(),
                out@.map_values(|a: Address| address_view(a)) == before + expand(changes_of(cs@)[i as int]).take(j as int),
            decreases group.len() - j,
        {
            let ghost old_out = out@;
            out.push(Address { collection: cs[i].0.clone(), id: group[j].0.clone() });
            proof {
                let e = expand(changes_of(cs@)[i as int]);
                assert(e[j as int] == (cs@[i as int].0@, group@[j as int].0@));
                assert(out@.map_values(|a: Address| address_view(a)) =~= old_out.map_values(
                    |a: Address| address_view(a),
                ).push(e[j as int]));
                assert(e.take(j as int + 1) =~= e.take(j as int).push(e[j as int]));
                assert(out@.map_values(|a: Address| address_view(a)) =~= before + e.take(j as int + 1));
            }
            j = j + 1;
        }
        proof {
            let m = changes_of(cs@);
            let e = expand(m[i as int]);
            assert(e.take(group.len() as int) =~= e);
            assert(m.take(i as int + 1).drop_last() =~= m.take(i as int));
        }
        i = i + 1;
    }
    proof {
        assert(changes_of(cs@).take(cs.len() as int) =~= changes_of(cs@));
    }
    out
}

// ---------------------------------------------------------------------------
// Writing a world
// ---------------------------------------------------------------------------
/// Writes a whole record at an address.
fn write_at(world: &mut World, a: &Address, v: &Value, insert: bool) -> (r: Result<(), String>)
    requires
        world_well_formed(world_view(*old(world))),
        well_formed(data_of(*v)),
    ensures
        world_well_formed(world_view(*final(world))),
        match r {
            Ok(()) => spec_write(world_view(*old(world)), address_view(*a), data_of(*v), insert)
                == Ok::<WorldView, Seq<char>>(world_view(*final(world))),
            Err(m) => spec_write(world_view(*old(world)), address_view(*a), data_of(*v), insert)
                == Err::<WorldView, Seq<char>>(m@),
        },
{
    let ghost w = world_view(*world);
    match collection_of(a) {
        Collection::Entities => match v {
            Value::Record(f) => {
                let data = copy_fields(f);
                proof {
                    lemma_record_data(*f);
                    lemma_with_entity_well_formed(w, a.id@, EntityView { id: a.id@, data: fields_of(data@) });
                }
                crate::world::put_entity(world, a.id.clone(), Entity { id: a.id.clone(), data });
                Ok(())
            },
            _ => Err(String::from_str("entity store values must be maps")),
        },
        Collection::Data => {
            let c = copy_value(v);
            proof {
                lemma_fields_well_formed(w.data);
                lemma_with_data_well_formed(w, a.id@, data_of(c));
            }
            crate::world::put_data(world, a.id.clone(), c);
            Ok(())
        },
        Collection::Cells => {
            if insert {
                return Err(String::from_str("map cells cannot be inserted"));
            }
            let p = match parse_map_id(a.id.as_str()) {
                Ok(p) => p,
                Err(e) => {
                    return Err(e);
                },
            };
            proof {
                lemma_cell_of_map(*world, p);
            }
            match world.map.cell(p) {
                Ok(_) => {},
                Err(e) => {
                    return Err(e);
                },
            }
            let c = copy_value(v);
            proof {
                lemma_with_cell_well_formed(w, p, data_of(c));
            }
            crate::world::set_cell(world, p, c);
            Ok(())
        },
        Collection::Unknown => Err(crate::world::text_message("unknown store collection: ", a.collection.as_str())),
    }
}

/// Removes the record at an address.
fn remove_at(world: &mut World, a: &Address) -> (r: Result<(), String>)
    requires
        world_well_formed(world_view(*old(world))),
    ensures
        world_well_formed(world_view(*final(world))),
        match r {
            Ok(()) => spec_remove(world_view(*old(world)), address_view(*a)) == Ok::<WorldView, Seq<char>>(
                world_view(*final(world)),
            ),
            Err(m) => spec_remove(world_view(*old(world)), address_view(*a)) == Err::<WorldView, Seq<char>>(
                m@,
            ),
        },
{
    let ghost w = world_view(*world);
    match collection_of(a) {
        Collection::Entities => {
            proof {
                lemma_without_entity_well_formed(w, a.id@);
            }
            crate::world::remove_entity(world, a.id.as_str());
            Ok(())
        },
        Collection::Data => {
            proof {
                lemma_fields_well_formed(w.data);
                lemma_without_data_well_formed(w, a.id@);
            }
            crate::world::remove_data(world, a.id.as_str());
            Ok(())
        },
        Collection::Cells => Err(String::from_str("map cells cannot be removed")),
        Collection::Unknown => Err(crate::world::text_message("unknown store collection: ", a.collection.as_str())),
    }
}

/// Sets a field of the record at an address, which `read_field` found.
fn set_field_at(world: &mut World, a: &Address, field: &str, v: &Value)
    requires
        world_well_formed(world_view(*old(world))),
        well_formed(data_of(*v)),
        spec_read_field(world_view(*old(world)), address_view(*a), field@) is Ok,
    ensures
        world_well_formed(world_view(*final(world))),
        world_view(*final(world)) == spec_set_field(world_view(*old(world)), address_view(*a), field@, data_of(*v)),
{
    let ghost w = world_view(*world);
    let ghost av = address_view(*a);
    let c = copy_value(v);
    match collection_of(a) {
        Collection::Entities => {
            let i = match crate::world::entity_index(world, a.id.as_str()) {
                Some(i) => i,
                None => {
                    return;
                },
            };
            let (key, mut e) = world.entities.remove(i);
            let ghost old_e = entity_view(e);
            proof {
                assert(w.entities[i as int] == (key@, old_e));
                assert(fields_well_formed(w.entities[i as int].1.data));
                lemma_fields_well_formed(old_e.data);
                lemma_put_well_formed(old_e.data, field@, data_of(c));
            }
            put_field(&mut e.data, String::from_str(field), c);
            let ghost new_e = entity_view(e);
            world.entities.insert(i, (key, e));
            proof {
                lemma_entity_names(world.entities@);
                lemma_put_at(w.entities, av.1, new_e);
                lemma_position_bounds(names_of(w.entities), av.1);
                lemma_get_at(w.entities, av.1);
                assert(entities_of(world.entities@) =~= w.entities.update(i as int, (av.1, new_e)));
                lemma_with_entity_well_formed(w, av.1, new_e);
            }
        },
        Collection::Data => {
            let i = match crate::world::field_index(&world.data, a.id.as_str()) {
                Some(i) => i,
                None => {
                    return;
                },
            };
            let (key, current) = world.data.remove(i);
            proof {
                lemma_field_names(world.data@);
                lemma_fields_well_formed(w.data);
                lemma_get_well_formed(w.data, av.1);
                lemma_put_at(w.data, av.1, data_of(current));
                lemma_position_bounds(names_of(w.data), av.1);
                lemma_get_at(w.data, av.1);
            }
            match current {
                Value::Record(mut r) => {
                    proof {
                        lemma_record_data(r);
                        lemma_fields_well_formed(fields_of(r@));
                        lemma_put_well_formed(fields_of(r@), field@, data_of(c));
                    }
                    put_field(&mut r, String::from_str(field), c);
                    proof {
                        lemma_record_data(r);
                    }
                    let nv = Value::Record(r);
                    let ghost nd = data_of(nv);
                    world.data.insert(i, (key, nv));
                    proof {
                        lemma_put_at(w.data, av.1, nd);
                        assert(fields_of(world.data@) =~= w.data.update(i as int, (av.1, nd)));
                        lemma_with_data_well_formed(w, av.1, nd);
                    }
                },
                other => {
                    world.data.insert(i, (key, other));
                },
            }
        },
        _ => {
            let p = match parse_map_id(a.id.as_str()) {
                Ok(p) => p,
                Err(_) => {
                    return;
                },
            };
            proof {
                lemma_cell_of_map(*world, p);
            }
            let index = match world.map.index_of(p) {
                Ok(k) => k,
                Err(_) => {
                    return;
                },
            };
            let current = world.map.cells.remove(index);
            proof {
                assert(w.cells[index as int] == data_of(current));
                assert(well_formed(w.cells[index as int]));
            }
            match current {
                Value::Record(mut r) => {
                    proof {
                        lemma_record_data(r);
                        lemma_fields_well_formed(fields_of(r@));
                        lemma_put_well_formed(fields_of(r@), field@, data_of(c));
                    }
                    put_field(&mut r, String::from_str(field), c);
                    proof {
                        lemma_record_data(r);
                    }
                    let nv = Value::Record(r);
                    let ghost nd = data_of(nv);
                    world.map.cells.insert(index, nv);
                    proof {
                        assert(crate::world::cells_of(world.map.cells@) =~= w.cells.update(index as int, nd));
                        lemma_with_cell_well_formed(w, p, nd);
                    }
                },
                other => {
                    world.map.cells.insert(index, other);
                },
            }
        },
    }
}

// ---------------------------------------------------------------------------
// Transactions
// ---------------------------------------------------------------------------
/// Changes prepared against one revision of the store. Nothing reaches the
/// store until it is committed; dropping the transaction rolls it back.
pub struct Transaction {
    expected_revision: u64,
    world: World,
    random: DeterministicRandom,
    changes: Vec<(String, ChangeGroup)>,
    random_changed: bool,
}

/// The mathematical form of a transaction.
pub struct TransactionView {
    pub expected_revision: u64,
    pub world: WorldView,
    pub random: u64,
    pub changes: Changes,
    pub random_changed: bool,
}

impl View for Transaction {
    type V = TransactionView;

    closed spec fn view(&self) -> TransactionView {
        TransactionView {
            expected_revision: self.expected_revision,
            world: world_view(self.world),
            random: self.random@,
            changes: changes_of(self.changes@),
            random_changed: self.random_changed,
        }
    }
}

impl Transaction {
    /// Its world and its changes are well formed.
    pub closed spec fn inv(&self) -> bool {
        &&& world_well_formed(world_view(self.world))
        &&& changes_well_formed(changes_of(self.changes@))
    }

    /// The revision the transaction was begun at.
    pub fn revision(&self) -> (r: u64)
        ensures
            r == self@.expected_revision,
    {
        self.expected_revision
    }

    /// What an address reads in the transaction's world.
    pub fn get(&self, address: &Address) -> (r: Result<Option<Value>, String>)
        requires
            self.inv(),
        ensures
            match r {
                Ok(o) => spec_read(self@.world, address_view(*address)) == Ok::<Option<Data>, Seq<char>>(
                    crate::world::opt_data(o),
                ),
                Err(m) => spec_read(self@.world, address_view(*address)) == Err::<Option<Data>, Seq<char>>(
                    m@,
                ),
            },
    {
        read_value(&self.world, address)
    }

    /// Applies one operation.
    fn apply_one(&mut self, op: &Operation) -> (r: Result<(), String>)
        requires
            old(self).inv(),
            operation_well_formed(operation_view(*op)),
        ensures
            final(self).inv(),
            final(self)@.expected_revision == old(self)@.expected_revision,
            final(self)@.random == old(self)@.random,
            final(self)@.random_changed == old(self)@.random_changed,
            match r {
                Ok(()) => spec_apply_one(old(self)@.world, old(self)@.changes, operation_view(*op)) == Ok::<
                    (WorldView, Changes),
                    Seq<char>,
                >((final(self)@.world, final(self)@.changes)),
                Err(m) => spec_apply_one(old(self)@.world, old(self)@.changes, operation_view(*op))
                    == Err::<(WorldView, Changes), Seq<char>>(m@),
            },
    {
        match op {
            Operation::Insert { address, value } => {
                match read_value(&self.world, address) {
                    Err(e) => {
                        return Err(e);
                    },
                    Ok(Some(_)) => {
                        return Err(crate::world::address_message("store record already exists: ", address));
                    },
                    Ok(None) => {},
                }
                match write_at(&mut self.world, address, value, true) {
                    Err(e) => {
                        return Err(e);
                    },
                    Ok(()) => {},
                }
                record_change(&mut self.changes, address);
                Ok(())
            },
            Operation::Update { address, value } => {
                let current = match read_value(&self.world, address) {
                    Err(e) => {
                        return Err(e);
                    },
                    Ok(None) => {
                        return Err(crate::world::address_message("store record not found: ", address));
                    },
                    Ok(Some(c)) => c,
                };
                if !same_value(&current, value) {
                    match write_at(&mut self.world, address, value, false) {
                        Err(e) => {
                            return Err(e);
                        },
                        Ok(()) => {},
                    }
                    record_change(&mut self.changes, address);
                }
                Ok(())
            },
            Operation::Remove { address } => {
                match read_value(&self.world, address) {
                    Err(e) => {
                        return Err(e);
                    },
                    Ok(None) => {
                        return Err(crate::world::address_message("store record not found: ", address));
                    },
                    Ok(Some(_)) => {},
                }
                match remove_at(&mut self.world, address) {
                    Err(e) => {
                        return Err(e);
                    },
                    Ok(()) => {},
                }
                record_change(&mut self.changes, address);
                Ok(())
            },
            Operation::SetField { address, field, value } => {
                if chars_of(field.as_str()).len() == 0 {
                    return Err(String::from_str("store field must not be empty"));
                }
                let differs = match read_field(&self.world, address, field.as_str()) {
                    Err(e) => {
                        return Err(e);
                    },
                    Ok(Some(current)) => !same_value(current, value),
                    Ok(None) => true,
                };
                if differs {
                    set_field_at(&mut self.world, address, field.as_str(), value);
                    record_change(&mut self.changes, address);
                }
                Ok(())
            },
        }
    }

    /// A copy of the transaction.
    fn duplicate(&self) -> (r: Transaction)
        requires
            self.inv(),
        ensures
            r.inv(),
            r@ == self@,
    {
        let mut changes: Vec<(String, ChangeGroup)> = Vec::new();
        let mut i: usize = 0;
        while i < self.changes.len()
            invariant
                i <= self.changes.len(),
                changes.len() == i,
                forall|j: int|
                    0 <= j < i ==> (#[trigger] changes@[j]).0@ == self.changes@[j].0@ && group_of(
                        changes@[j].1@,
                    ) == group_of(self.changes@[j].1@),
            decreases self.changes.len() - i,
        {
            let mut group: ChangeGroup = Vec::new();
            let mut k: usize = 0;
            while k < self.changes[i].1.len()
                invariant
                    i < self.changes.len(),
                    k <= self.changes@[i as int].1.len(),
                    group.len() == k,
                    forall|j: int|
                        0 <= j < k ==> (#[trigger] group@[j]).0@ == self.changes@[i as int].1@[j].0@,
                decreases self.changes@[i as int].1.len() - k,
            {
                group.push((self.changes[i].1[k].0.clone(), ()));
                k = k + 1;
            }
            assert(group_of(group@) =~= group_of(self.changes@[i as int].1@));
            changes.push((self.changes[i].0.clone(), group));
            i = i + 1;
        }
        assert(changes_of(changes@) =~= changes_of(self.changes@));
        Transaction {
            expected_revision: self.expected_revision,
            world: copy_world(&self.world),
            random: DeterministicRandom::new(self.random.state),
            changes,
            random_changed: self.random_changed,
        }
    }

    /// Applies operations in order, all or nothing: where one fails, the
    /// transaction is left as it was and the first error is returned.
    pub fn apply(&mut self, operations: &[Operation]) -> (r: Result<(), String>)
        requires
            old(self).inv(),
            forall|i: int| 0 <= i < operations@.len() ==> operation_well_formed(
                operation_view(#[trigger] operations@[i]),
            ),
        ensures
            final(self).inv(),
            final(self)@.expected_revision == old(self)@.expected_revision,
            final(self)@.random == old(self)@.random,
            final(self)@.random_changed == old(self)@.random_changed,
            match r {
                Ok(()) => spec_apply(old(self)@.world, old(self)@.changes, operations_view(operations@))
                    == Ok::<(WorldView, Changes), Seq<char>>((final(self)@.world, final(self)@.changes)),
                Err(m) => spec_apply(old(self)@.world, old(self)@.changes, operations_view(operations@))
                    == Err::<(WorldView, Changes), Seq<char>>(m@) && final(self)@ == old(self)@,
            },
    {
        let ghost ops = operations_view(operations@);
        let mut candidate = self.duplicate();
        let mut i: usize = 0;
        proof {
            assert(ops.subrange(0, ops.len() as int) =~= ops);
        }
        while i < operations.len()
            invariant
                self.inv(),
                candidate.inv(),
                i <= operations.len(),
                ops == operations_view(operations@),
                forall|j: int| 0 <= j < operations@.len() ==> operation_well_formed(
                    operation_view(#[trigger] operations@[j]),
                ),
                candidate@.expected_revision == self@.expected_revision,
                candidate@.random == self@.random,
                candidate@.random_changed == self@.random_changed,
                spec_apply(self@.world, self@.changes, ops) == spec_apply(
                    candidate@.world,
                    candidate@.changes,
                    ops.subrange(i as int, ops.len() as int),
                ),
            decreases operations.len() - i,
        {
            proof {
                let rest = ops.subrange(i as int, ops.len() as int);
                assert(rest[0] == operation_view(operations@[i as int]));
                assert(rest.drop_first() =~= ops.subrange(i as int + 1, ops.len() as int));
            }
            match candidate.apply_one(&operations[i]) {
                Err(e) => {
                    return Err(e);
                },
                Ok(()) => {},
            }
            i = i + 1;
        }
        *self = candidate;
        Ok(())
    }

    /// A number from `min..=max`, drawn from the transaction's random source.
    /// An empty range, or one wider than `i64` can count, is an error and
    /// leaves the transaction as it was.
    pub fn random(&mut self, min: i64, max: i64) -> (r: Result<i64, String>)
        requires
            old(self).inv(),
        ensures
            final(self).inv(),
            r is Ok <==> (min <= max && max - min + 1 <= i64::MAX),
            match r {
                Ok(v) => final(self)@ == (TransactionView {
                    random: next_state(old(self)@.random),
                    random_changed: true,
                    ..old(self)@
                }) && v == drawn(next_state(old(self)@.random), min as int, max as int),
                Err(_) => final(self)@ == old(self)@,
            },
    {
        let v = match self.random.integer(min, max) {
            Ok(v) => v,
            Err(e) => {
                return Err(e);
            },
        };
        self.random_changed = true;
        Ok(v)
    }

    /// Drops the transaction and its changes.
    pub fn rollback(self) {
    }
}

/// The views of operations.
pub open spec fn operations_view(ops: Seq<Operation>) -> Seq<OperationView> {
    ops.map_values(|op: Operation| operation_view(op))
}

// ---------------------------------------------------------------------------
// Selecting records
// ---------------------------------------------------------------------------
/// A record read from the store.
#[derive(Clone, Debug, PartialEq)]
pub struct Record {
    pub address: Address,
    pub value: Value,
}

pub open spec fn record_view(r: Record) -> (AddressView, Data) {
    (address_view(r.address), data_of(r.value))
}

/// The addresses of a list, each once, in increasing order.
pub open spec fn address_set(addrs: Seq<AddressView>) -> Changes
    decreases addrs.len(),
{
    if addrs.len() == 0 {
        seq![]
    } else {
        add_change(address_set(addrs.drop_last()), addrs.last())
    }
}

/// The fields of `src` named in `names`, in increasing order of name.
pub open spec fn pick(names: Seq<Seq<char>>, src: Fields) -> Fields
    decreases names.len(),
{
    if names.len() == 0 {
        seq![]
    } else {
        let acc = pick(names.drop_last(), src);
        match field_get(src, names.last()) {
            Some(d) => field_put(acc, names.last(), d),
            None => acc,
        }
    }
}

/// A value cut down to the named fields, where names are given and the
/// value is a record.
pub open spec fn project(fields: Option<Seq<Seq<char>>>, d: Data) -> Data {
    match (fields, d) {
        (Some(names), Data::Record(src)) => Data::Record(pick(names, src)),
        _ => d,
    }
}

/// The records at addresses taken in order, skipping absent ones; the
/// first address that cannot be read decides the error.
pub open spec fn spec_select(w: WorldView, order: Seq<AddressView>, fields: Option<Seq<Seq<char>>>) -> Result<
    Seq<(AddressView, Data)>,
    Seq<char>,
>
    decreases order.len(),
{
    if order.len() == 0 {
        Ok(seq![])
    } else {
        match spec_select(w, order.drop_last(), fields) {
            Err(m) => Err(m),
            Ok(rs) => match spec_read(w, order.last()) {
                Err(m) => Err(m),
                Ok(None) => Ok(rs),
                Ok(Some(d)) => Ok(rs.push((order.last(), project(fields, d)))),
            },
        }
    }
}

pub open spec fn names_view(fields: Option<&[String]>) -> Option<Seq<Seq<char>>> {
    match fields {
        Some(f) => Some(strings_view(f@)),
        None => None,
    }
}

pub open spec fn addresses_view(a: Seq<Address>) -> Seq<AddressView> {
    a.map_values(|x: Address| address_view(x))
}

/// A value cut down to the named fields.
fn project_value(fields: Option<&[String]>, v: Value) -> (r: Value)
    requires
        well_formed(data_of(v)),
    ensures
        data_of(r) == project(names_view(fields), data_of(v)),
{
    match fields {
        None => v,
        Some(names) => match v {
            Value::Record(src) => {
                let ghost sv = fields_of(src@);
                let ghost nv = strings_view(names@);
                proof {
                    lemma_record_data(src);
                    lemma_fields_well_formed(sv);
                }
                let mut out: Vec<(String, Value)> = Vec::new();
                let mut k: usize = 0;
                proof {
                    assert(nv.take(0) =~= Seq::<Seq<char>>::empty());
                    assert(fields_of(out@) =~= Seq::<(Seq<char>, Data)>::empty());
                }
                while k < names.len()
                    invariant
                        k <= names.len(),
                        sv == fields_of(src@),
                        nv == strings_view(names@),
                        names_increase(sv),
                        fields_of(out@) == pick(nv.take(k as int), sv),
                        names_increase(fields_of(out@)),
                    decreases names.len() - k,
                {
                    proof {
                        assert(nv.take(k as int + 1).drop_last() =~= nv.take(k as int));
                        assert(nv.take(k as int + 1).last() == names@[k as int]@);
                    }
                    match crate::world::field_index(&src, names[k].as_str()) {
                        Some(j) => {
                            let c = copy_value(&src[j].1);
                            proof {
                                lemma_put_increases(fields_of(out@), names@[k as int]@, data_of(c));
                            }
                            put_field(&mut out, names[k].clone(), c);
                        },
                        None => {},
                    }
                    k = k + 1;
                }
                proof {
                    assert(nv.take(names.len() as int) =~= nv);
                    lemma_record_data(out);
                }
                Value::Record(out)
            },
            other => other,
        },
    }
}

/// The records at the given addresses, taken each once in increasing
/// order (by collection, then by id), skipping those that do not exist.
/// Where `fields` names fields, each record is cut down to those fields.
pub fn select_records(world: &World, addresses: &Vec<Address>, fields: Option<&[String]>) -> (r: Result<
    Vec<Record>,
    String,
>)
    requires
        world_well_formed(world_view(*world)),
    ensures
        match r {
            Ok(rs) => spec_select(
                world_view(*world),
                flatten(address_set(addresses_view(addresses@))),
                names_view(fields),
            ) == Ok::<Seq<(AddressView, Data)>, Seq<char>>(rs@.map_values(|x: Record| record_view(x))),
            Err(m) => spec_select(
                world_view(*world),
                flatten(address_set(addresses_view(addresses@))),
                names_view(fields),
            ) == Err::<Seq<(AddressView, Data)>, Seq<char>>(m@),
        },
{
    let ghost av = addresses_view(addresses@);
    let mut set: Vec<(String, ChangeGroup)> = Vec::new();
    let mut i: usize = 0;
    proof {
        assert(av.take(0) =~= Seq::<AddressView>::empty());
        assert(changes_of(set@) =~= Seq::<(Seq<char>, Seq<(Seq<char>, ())>)>::empty());
    }
    while i < addresses.len()
        invariant
            i <= addresses.len(),
            av == addresses_view(addresses@),
            changes_of(set@) == address_set(av.take(i as int)),
            changes_well_formed(changes_of(set@)),
        decreases addresses.len() - i,
    {
        proof {
            assert(av.take(i as int + 1).drop_last() =~= av.take(i as int));
            assert(av.take(i as int + 1).last() == address_view(addresses@[i as int]));
        }
        record_change(&mut set, &addresses[i]);
        i = i + 1;
    }
    proof {
        assert(av.take(addresses.len() as int) =~= av);
    }
    let order = flatten_changes(&set);
    let ghost ov = order@.map_values(|a: Address| address_view(a));
    let mut out: Vec<Record> = Vec::new();
    let mut k: usize = 0;
    proof {
        assert(ov.take(0) =~= Seq::<AddressView>::empty());
        assert(out@.map_values(|x: Record| record_view(x)) =~= Seq::<(AddressView, Data)>::empty());
    }
    while k < order.len()
        invariant
            k <= order.len(),
            world_well_formed(world_view(*world)),
            ov == order@.map_values(|a: Address| address_view(a)),
            ov == flatten(address_set(addresses_view(addresses@))),
            spec_select(world_view(*world), ov.take(k as int), names_view(fields)) == Ok::<
                Seq<(AddressView, Data)>,
                Seq<char>,
            >(out@.map_values(|x: Record| record_view(x))),
        decreases order.len() - k,
    {
        proof {
            assert(ov.take(k as int + 1).drop_last() =~= ov.take(k as int));
            assert(ov.take(k as int + 1).last() == address_view(order@[k as int]));
        }
        match read_value(world, &order[k]) {
            Err(e) => {
                proof {
                    let t = ov.take(k as int + 1);
                    assert(spec_read(world_view(*world), t.last()) == Err::<Option<Data>, Seq<char>>(e@));
                    assert(spec_select(world_view(*world), t.drop_last(), names_view(fields)) is Ok);
                    assert(spec_select(world_view(*world), t, names_view(fields)) == Err::<Seq<(AddressView, Data)>, Seq<char>>(e@));
                    lemma_select_error_stays(world_view(*world), ov, k as int + 1, names_view(fields));
                    assert(spec_select(world_view(*world), ov, names_view(fields)) == Err::<Seq<(AddressView, Data)>, Seq<char>>(e@));
                    assert(ov == flatten(address_set(addresses_view(addresses@))));
                }
                return Err(e);
            },
            Ok(None) => {},
            Ok(Some(v)) => {
                proof {
                    lemma_read_well_formed(world_view(*world), address_view(order@[k as int]));
                }
                let value = project_value(fields, v);
                let ghost before = out@;
                out.push(Record { address: Address { collection: order[k].collection.clone(), id: order[k].id.clone() }, value });
                proof {
                    assert(out@.map_values(|x: Record| record_view(x)) =~= before.map_values(
                        |x: Record| record_view(x),
                    ).push(record_view(out@[out@.len() - 1])));
                }
            },
        }
        k = k + 1;
    }
    proof {
        assert(ov.take(order.len() as int) =~= ov);
    }
    Ok(out)
}

proof fn lemma_select_error_stays(w: WorldView, order: Seq<AddressView>, k: int, fields: Option<Seq<Seq<char>>>)
    requires
        0 <= k <= order.len(),
        spec_select(w, order.take(k), fields) is Err,
    ensures
        spec_select(w, order, fields) == spec_select(w, order.take(k), fields),
    decreases order.len() - k,
{
    if k < order.len() {
        assert(order.take(k + 1).drop_last() =~= order.take(k));
        lemma_select_error_stays(w, order, k + 1, fields);
    } else {
        assert(order.take(k) =~= order);
    }
}

/// What an address reads in a well-formed world is well formed.
pub proof fn lemma_read_well_formed(w: WorldView, a: AddressView)
    requires
        world_well_formed(w),
    ensures
        spec_read(w, a) matches Ok(Some(d)) ==> well_formed(d),
{
    if a.0 == "entities"@ {
        lemma_get_at(w.entities, a.1);
        crate::value::lemma_position_bounds(names_of(w.entities), a.1);
        let p = name_position(names_of(w.entities), a.1);
        if p < w.entities.len() && w.entities[p].0 == a.1 {
            assert(fields_well_formed(w.entities[p].1.data));
        }
    } else if a.0 == "data"@ {
        lemma_get_well_formed(w.data, a.1);
    } else if a.0 == "map"@ {
        match spec_parse_map_id(a.1) {
            Some(p) => {
                if spec_cell(w, p) is Ok {
                    assert(well_formed(w.cells[cell_index(w, p)]));
                }
            },
            None => {},
        }
    }
}

// ---------------------------------------------------------------------------
// The store
// ---------------------------------------------------------------------------
/// The authoritative world, its random source and its revision.
pub struct Store {
    world: World,
    random: DeterministicRandom,
    revision: u64,
}

/// The mathematical form of a store.
pub struct StoreView {
    pub world: WorldView,
    pub random: u64,
    pub revision: u64,
}

/// Everything a store holds, to be saved and restored.
#[derive(Clone, Debug, PartialEq)]
pub struct StoreSnapshot {
    pub world: World,
    pub random_state: u64,
    pub revision: u64,
}

/// A read-only view of the world at one revision.
pub struct ReadView {
    world: World,
    revision: u64,
}

impl View for Store {
    type V = StoreView;

    closed spec fn view(&self) -> StoreView {
        StoreView { world: world_view(self.world), random: self.random@, revision: self.revision }
    }
}

/// The number of cells a map of `width` x `height` must hold, saturating
/// at the largest `usize`.
pub open spec fn cells_for(width: usize, height: usize) -> int {
    if width * height > usize::MAX {
        usize::MAX as int
    } else {
        width * height
    }
}

/// Every entity's id is non-empty and the id it is kept under; every data
/// id is non-empty.
pub open spec fn valid_ids(w: WorldView) -> bool {
    &&& forall|i: int|
        0 <= i < w.entities.len() ==> (#[trigger] w.entities[i]).0.len() > 0 && w.entities[i].1.id
            == w.entities[i].0
    &&& forall|i: int| 0 <= i < w.data.len() ==> (#[trigger] w.data[i]).0.len() > 0
}

/// Whether a world can be stored: positive dimensions, one cell for each
/// position, every cell a record, and valid ids.
pub open spec fn spec_check_world(w: WorldView) -> Result<(), Seq<char>> {
    if w.width == 0 || w.height == 0 {
        Err("hex bounds must be positive"@)
    } else if w.cells.len() != cells_for(w.width, w.height) {
        Err("map dimensions do not match its cells"@)
    } else if !(forall|i: int| 0 <= i < w.cells.len() ==> (#[trigger] w.cells[i]) is Record) {
        Err("map cells must be records"@)
    } else if !valid_ids(w) {
        Err("world contains an invalid store id"@)
    } else {
        Ok(())
    }
}

/// The store restored from a snapshot's world, random state and revision.
pub open spec fn restored(world: WorldView, random: u64, revision: u64) -> Result<StoreView, Seq<char>> {
    match spec_check_world(world) {
        Err(m) => Err(m),
        Ok(()) => Ok(StoreView { world, random, revision }),
    }
}

/// The error for a transaction begun at another revision.
pub open spec fn conflict_message(expected: u64, current: u64) -> Seq<char> {
    "store revision conflict: expected "@ + decimal(expected as nat) + ", current "@ + decimal(
        current as nat,
    )
}

/// What committing a transaction does: the store after it, the revision
/// reported and the changed addresses.
pub open spec fn spec_commit(s: StoreView, t: TransactionView) -> Result<(StoreView, u64, Seq<AddressView>), Seq<char>> {
    if t.expected_revision != s.revision {
        Err(conflict_message(t.expected_revision, s.revision))
    } else if t.changes.len() == 0 && !t.random_changed {
        Ok((s, s.revision, seq![]))
    } else if s.revision == u64::MAX {
        Err("store revision exhausted"@)
    } else {
        Ok(
            (
                StoreView { world: t.world, random: t.random, revision: (s.revision + 1) as u64 },
                (s.revision + 1) as u64,
                flatten(t.changes),
            ),
        )
    }
}

fn conflict_error(expected: u64, current: u64) -> (r: String)
    ensures
        r@ == conflict_message(expected, current),
{
    let mut m: Vec<char> = Vec::new();
    push_str(&mut m, "store revision conflict: expected ");
    push_all(&mut m, &format_u64(expected));
    push_str(&mut m, ", current ");
    push_all(&mut m, &format_u64(current));
    string_of(&m)
}

/// Checks that a world can be stored.
fn check_world(world: &World) -> (r: Result<(), String>)
    ensures
        match r {
            Ok(()) => spec_check_world(world_view(*world)) is Ok,
            Err(m) => spec_check_world(world_view(*world)) == Err::<(), Seq<char>>(m@),
        },
{
    let ghost w = world_view(*world);
    match world.map.bounds() {
        Ok(_) => {},
        Err(e) => {
            return Err(e);
        },
    }
    let expected = match world.map.width.checked_mul(world.map.height) {
        Some(n) => n,
        None => usize::MAX,
    };
    assert(expected == cells_for(world.map.width, world.map.height));
    if world.map.cells.len() != expected {
        return Err(String::from_str("map dimensions do not match its cells"));
    }
    let mut i: usize = 0;
    while i < world.map.cells.len()
        invariant
            i <= world.map.cells.len(),
            w == world_view(*world),
            w.width > 0 && w.height > 0,
            w.cells.len() == cells_for(w.width, w.height),
            forall|j: int| 0 <= j < i ==> (#[trigger] w.cells[j]) is Record,
        decreases world.map.cells.len() - i,
    {
        match &world.map.cells[i] {
            Value::Record(_) => {},
            _ => {
                assert(!(w.cells[i as int] is Record));
                return Err(String::from_str("map cells must be records"));
            },
        }
        i = i + 1;
    }
    let mut k: usize = 0;
    while k < world.entities.len()
        invariant
            k <= world.entities.len(),
            w == world_view(*world),
            w.width > 0 && w.height > 0,
            w.cells.len() == cells_for(w.width, w.height),
            forall|j: int| 0 <= j < w.cells.len() ==> (#[trigger] w.cells[j]) is Record,
            forall|j: int|
                0 <= j < k ==> (#[trigger] w.entities[j]).0.len() > 0 && w.entities[j].1.id == w.entities[j].0,
        decreases world.entities.len() - k,
    {
        let key = chars_of(world.entities[k].0.as_str());
        if key.len() == 0 || !crate::text::str_eq(world.entities[k].1.id.as_str(), world.entities[k].0.as_str()) {
            assert(w.entities[k as int].0.len() == 0 || w.entities[k as int].1.id != w.entities[k as int].0);
            assert(!valid_ids(w));
            return Err(String::from_str("world contains an invalid store id"));
        }
        k = k + 1;
    }
    let mut d: usize = 0;
    while d < world.data.len()
        invariant
            d <= world.data.len(),
            w == world_view(*world),
            w.width > 0 && w.height > 0,
            w.cells.len() == cells_for(w.width, w.height),
            forall|j: int| 0 <= j < w.cells.len() ==> (#[trigger] w.cells[j]) is Record,
            forall|j: int|
                0 <= j < w.entities.len() ==> (#[trigger] w.entities[j]).0.len() > 0 && w.entities[j].1.id
                    == w.entities[j].0,
            forall|j: int| 0 <= j < d ==> (#[trigger] w.data[j]).0.len() > 0,
        decreases world.data.len() - d,
    {
        let key = chars_of(world.data[d].0.as_str());
        if key.len() == 0 {
            assert(w.data[d as int].0.len() == 0);
            assert(!valid_ids(w));
            return Err(String::from_str("world contains an invalid store id"));
        }
        d = d + 1;
    }
    Ok(())
}

impl Store {
    /// Its world is well formed.
    pub closed spec fn inv(&self) -> bool {
        world_well_formed(world_view(self.world))
    }

    /// A store at revision 0 holding `world`, whose random source starts
    /// at `seed`. The world must pass the checks of `spec_check_world`.
    pub fn new(world: World, seed: u64) -> (r: Result<Store, String>)
        requires
            world_well_formed(world_view(world)),
        ensures
            match r {
                Ok(s) => spec_check_world(world_view(world)) is Ok && s.inv() && s@ == (StoreView {
                    world: world_view(world),
                    random: seed,
                    revision: 0,
                }),
                Err(m) => spec_check_world(world_view(world)) == Err::<(), Seq<char>>(m@),
            },
    {
        match check_world(&world) {
            Ok(()) => {},
            Err(e) => {
                return Err(e);
            },
        }
        Ok(Store { world, random: DeterministicRandom::new(seed), revision: 0 })
    }

    /// The world as it stands.
    pub fn world(&self) -> (r: &World)
        ensures
            world_view(*r) == self@.world,
    {
        &self.world
    }

    /// The number of commits that changed the store.
    pub fn revision(&self) -> (r: u64)
        ensures
            r == self@.revision,
    {
        self.revision
    }

    /// A read-only view of the world at the current revision.
    pub fn read(&self) -> (r: ReadView)
        requires
            self.inv(),
        ensures
            r.inv(),
            r.world_view() == self@.world,
            r.revision_view() == self@.revision,
    {
        ReadView { world: copy_world(&self.world), revision: self.revision }
    }

    /// Everything the store holds.
    pub fn snapshot(&self) -> (r: StoreSnapshot)
        ensures
            world_view(r.world) == self@.world,
            r.random_state == self@.random,
            r.revision == self@.revision,
    {
        StoreSnapshot {
            world: copy_world(&self.world),
            random_state: self.random.state,
            revision: self.revision,
        }
    }

    /// The store a snapshot was taken of; its world must pass the checks of
    /// `new`.
    pub fn from_snapshot(snapshot: StoreSnapshot) -> (r: Result<Store, String>)
        requires
            world_well_formed(world_view(snapshot.world)),
        ensures
            match restored(world_view(snapshot.world), snapshot.random_state, snapshot.revision) {
                Ok(s) => r matches Ok(st) && st.inv() && st@ == s,
                Err(m) => r matches Err(e) && e@ == m,
            },
    {
        let revision = snapshot.revision;
        let mut store = match Store::new(snapshot.world, snapshot.random_state) {
            Ok(s) => s,
            Err(e) => {
                return Err(e);
            },
        };
        store.revision = revision;
        Ok(store)
    }

    /// A transaction on the current world; `expected_revision` must be the
    /// current revision.
    pub fn begin(&self, expected_revision: u64) -> (r: Result<Transaction, String>)
        requires
            self.inv(),
        ensures
            match r {
                Ok(t) => expected_revision == self@.revision && t.inv() && t@ == (TransactionView {
                    expected_revision,
                    world: self@.world,
                    random: self@.random,
                    changes: seq![],
                    random_changed: false,
                }),
                Err(m) => expected_revision != self@.revision && m@ == conflict_message(
                    expected_revision,
                    self@.revision,
                ),
            },
    {
        if expected_revision != self.revision {
            return Err(conflict_error(expected_revision, self.revision));
        }
        let changes: Vec<(String, ChangeGroup)> = Vec::new();
        assert(changes_of(changes@) =~= Seq::<(Seq<char>, Seq<(Seq<char>, ())>)>::empty());
        Ok(
            Transaction {
                expected_revision,
                world: copy_world(&self.world),
                random: DeterministicRandom::new(self.random.state),
                changes,
                random_changed: false,
            },
        )
    }

    /// Makes a transaction's world the store's. A transaction begun at
    /// another revision is refused; one that changed nothing and drew no
    /// number leaves the revision as it is; any other advances it by one.
    pub fn commit(&mut self, transaction: Transaction) -> (r: Result<Commit, String>)
        requires
            old(self).inv(),
            transaction.inv(),
        ensures
            final(self).inv(),
            match spec_commit(old(self)@, transaction@) {
                Ok((s, revision, changed)) => r matches Ok(c) && final(self)@ == s && c.revision == revision
                    && c.changed_addresses@.map_values(|a: Address| address_view(a)) == changed,
                Err(m) => r matches Err(e) && e@ == m && final(self)@ == old(self)@,
            },
    {
        if transaction.expected_revision != self.revision {
            return Err(conflict_error(transaction.expected_revision, self.revision));
        }
        if transaction.changes.len() == 0 && !transaction.random_changed {
            let none: Vec<Address> = Vec::new();
            assert(none@.map_values(|a: Address| address_view(a)) =~= Seq::<AddressView>::empty());
            return Ok(Commit { revision: self.revision, changed_addresses: none });
        }
        if self.revision == u64::MAX {
            return Err(String::from_str("store revision exhausted"));
        }
        let changed = flatten_changes(&transaction.changes);
        let revision = self.revision + 1;
        self.world = transaction.world;
        self.random = transaction.random;
        self.revision = revision;
        Ok(Commit { revision, changed_addresses: changed })
    }
}

impl ReadView {
    pub closed spec fn inv(&self) -> bool {
        world_well_formed(world_view(self.world))
    }

    /// The world it shows.
    pub closed spec fn world_view(&self) -> WorldView {
        world_view(self.world)
    }

    /// The revision it shows.
    pub closed spec fn revision_view(&self) -> u64 {
        self.revision
    }

    /// The revision of the world it shows.
    pub fn revision(&self) -> (r: u64)
        ensures
            r == self.revision_view(),
    {
        self.revision
    }

    /// What an address reads.
    pub fn get(&self, address: &Address) -> (r: Result<Option<Value>, String>)
        requires
            self.inv(),
        ensures
            match r {
                Ok(o) => spec_read(self.world_view(), address_view(*address)) == Ok::<Option<Data>, Seq<char>>(
                    crate::world::opt_data(o),
                ),
                Err(m) => spec_read(self.world_view(), address_view(*address)) == Err::<Option<Data>, Seq<char>>(
                    m@,
                ),
            },
    {
        read_value(&self.world, address)
    }

    /// The records at the given addresses; see [`select_records`].
    pub fn select(&self, addresses: Vec<Address>, fields: Option<&[String]>) -> (r: Result<Vec<Record>, String>)
        requires
            self.inv(),
        ensures
            match r {
                Ok(rs) => spec_select(
                    self.world_view(),
                    flatten(address_set(addresses_view(addresses@))),
                    names_view(fields),
                ) == Ok::<Seq<(AddressView, Data)>, Seq<char>>(rs@.map_values(|x: Record| record_view(x))),
                Err(m) => spec_select(
                    self.world_view(),
                    flatten(address_set(addresses_view(addresses@))),
                    names_view(fields),
                ) == Err::<Seq<(AddressView, Data)>, Seq<char>>(m@),
            },
    {
        select_records(&self.world, &addresses, fields)
    }
}

impl Transaction {
    /// The records at the given addresses in the transaction's world; see
    /// [`select_records`].
    pub fn select(&self, addresses: Vec<Address>, fields: Option<&[String]>) -> (r: Result<Vec<Record>, String>)
        requires
            self.inv(),
        ensures
            match r {
                Ok(rs) => spec_select(
                    self@.world,
                    flatten(address_set(addresses_view(addresses@))),
                    names_view(fields),
                ) == Ok::<Seq<(AddressView, Data)>, Seq<char>>(rs@.map_values(|x: Record| record_view(x))),
                Err(m) => spec_select(
                    self@.world,
                    flatten(address_set(addresses_view(addresses@))),
                    names_view(fields),
                ) == Err::<Seq<(AddressView, Data)>, Seq<char>>(m@),
            },
    {
        select_records(&self.world, &addresses, fields)
    }
}

// ---------------------------------------------------------------------------
// Laws of the store
// ---------------------------------------------------------------------------
/// An operation that succeeds is read back: an inserted or updated record
/// reads as the value written, a removed one reads as absent, and a set
/// field reads as the value set.
pub proof fn lemma_writes_read_back(w: WorldView, cs: Changes, op: OperationView)
    requires
        world_well_formed(w),
        spec_apply_one(w, cs, op) is Ok,
    ensures
        ({
            let w2 = spec_apply_one(w, cs, op)->Ok_0.0;
            match op {
                OperationView::Insert(a, d) => spec_read(w2, a) == Ok::<Option<Data>, Seq<char>>(Some(d)),
                OperationView::Update(a, d) => spec_read(w2, a) == Ok::<Option<Data>, Seq<char>>(Some(d)),
                OperationView::Remove(a) => spec_read(w2, a) == Ok::<Option<Data>, Seq<char>>(None),
                OperationView::SetField(a, field, d) => spec_read_field(w2, a, field) == Ok::<
                    Option<Data>,
                    Seq<char>,
                >(Some(d)),
            }
        }),
{
    match op {
        OperationView::Insert(a, d) => {
            lemma_write_reads_back(w, a, d, true);
        },
        OperationView::Update(a, d) => {
            if spec_read(w, a) != Ok::<Option<Data>, Seq<char>>(Some(d)) {
                lemma_write_reads_back(w, a, d, false);
            }
        },
        OperationView::Remove(a) => {
            if a.0 == "entities"@ {
                lemma_get_remove(w.entities, a.1, a.1);
            } else if a.0 == "data"@ {
                lemma_fields_well_formed(w.data);
                lemma_get_remove(w.data, a.1, a.1);
            }
        },
        OperationView::SetField(a, field, d) => {
            if spec_read_field(w, a, field) != Ok::<Option<Data>, Seq<char>>(Some(d)) {
                let w2 = spec_set_field(w, a, field, d);
                if a.0 == "entities"@ {
                    let e = field_get(w.entities, a.1).unwrap();
                    let e2 = EntityView { id: e.id, data: field_put(e.data, field, d) };
                    lemma_get_put(w.entities, a.1, e2, a.1);
                    lemma_get_put(e.data, field, d, field);
                } else if a.0 == "data"@ {
                    let r = field_get(w.data, a.1)->Some_0->Record_0;
                    lemma_get_put(w.data, a.1, Data::Record(field_put(r, field, d)), a.1);
                    lemma_get_put(r, field, d, field);
                } else {
                    let p = spec_parse_map_id(a.1)->Some_0;
                    let r = spec_cell(w, p)->Ok_0->Record_0;
                    lemma_get_put(r, field, d, field);
                    assert(w2.cells[cell_index(w, p)] == Data::Record(field_put(r, field, d)));
                }
            }
        },
    }
}

proof fn lemma_write_reads_back(w: WorldView, a: AddressView, d: Data, insert: bool)
    requires
        spec_read(w, a) is Ok,
        spec_write(w, a, d, insert) is Ok,
    ensures
        spec_read(spec_write(w, a, d, insert)->Ok_0, a) == Ok::<Option<Data>, Seq<char>>(Some(d)),
{
    let w2 = spec_write(w, a, d, insert)->Ok_0;
    if a.0 == "entities"@ {
        let f = d->Record_0;
        lemma_get_put(w.entities, a.1, EntityView { id: a.1, data: f }, a.1);
    } else if a.0 == "data"@ {
        lemma_get_put(w.data, a.1, d, a.1);
    } else {
        let p = spec_parse_map_id(a.1)->Some_0;
        assert(w2.cells[cell_index(w, p)] == d);
    }
}

/// Two addresses name the same record: the same collection and the same
/// id, where a map cell's id is taken as the position it names.
pub open spec fn same_record(a: AddressView, b: AddressView) -> bool {
    &&& a.0 == b.0
    &&& if a.0 == "map"@ {
        spec_parse_map_id(a.1) == spec_parse_map_id(b.1)
    } else {
        a.1 == b.1
    }
}

proof fn lemma_cell_index_distinct(w: WorldView, p: Position, q: Position)
    requires
        spec_cell(w, p) is Ok,
        spec_cell(w, q) is Ok,
        p != q,
    ensures
        cell_index(w, p) != cell_index(w, q),
{
    let wd = w.width as int;
    let (px, py, qx, qy) = (p.x - 1, p.y - 1, q.x - 1, q.y - 1);
    assert(0 <= px < wd && 0 <= qx < wd && 0 <= py && 0 <= qy);
    if py == qy {
        assert(py * wd + px != qy * wd + qx);
    } else if py < qy {
        assert(py * wd + px < qy * wd + qx) by (nonlinear_arith)
            requires
                0 <= px < wd,
                0 <= qx,
                0 <= py < qy,
        ;
    } else {
        assert(qy * wd + qx < py * wd + px) by (nonlinear_arith)
            requires
                0 <= qx < wd,
                0 <= px,
                0 <= qy < py,
        ;
    }
}

/// An operation leaves every other record as it was: an address that names
/// another record reads the same before and after.
pub proof fn lemma_other_records_unchanged(w: WorldView, cs: Changes, op: OperationView, b: AddressView)
    requires
        world_well_formed(w),
        spec_apply_one(w, cs, op) is Ok,
        !same_record(
            match op {
                OperationView::Insert(a, _) => a,
                OperationView::Update(a, _) => a,
                OperationView::Remove(a) => a,
                OperationView::SetField(a, _, _) => a,
            },
            b,
        ),
    ensures
        spec_read(spec_apply_one(w, cs, op)->Ok_0.0, b) == spec_read(w, b),
{
    let w2 = spec_apply_one(w, cs, op)->Ok_0.0;
    let a = match op {
        OperationView::Insert(a, _) => a,
        OperationView::Update(a, _) => a,
        OperationView::Remove(a) => a,
        OperationView::SetField(a, _, _) => a,
    };
    if w2 != w && b.0.len() > 0 && b.1.len() > 0 {
        if a.0 == "entities"@ && b.0 == "entities"@ {
            match op {
                OperationView::Insert(_, d) => {
                    lemma_get_put(w.entities, a.1, EntityView { id: a.1, data: d->Record_0 }, b.1);
                },
                OperationView::Update(_, d) => {
                    lemma_get_put(w.entities, a.1, EntityView { id: a.1, data: d->Record_0 }, b.1);
                },
                OperationView::Remove(_) => {
                    lemma_get_remove(w.entities, a.1, b.1);
                },
                OperationView::SetField(_, field, d) => {
                    let e = field_get(w.entities, a.1).unwrap();
                    lemma_get_put(
                        w.entities,
                        a.1,
                        EntityView { id: e.id, data: field_put(e.data, field, d) },
                        b.1,
                    );
                },
            }
        } else if a.0 == "data"@ && b.0 == "data"@ {
            lemma_fields_well_formed(w.data);
            match op {
                OperationView::Insert(_, d) => {
                    lemma_get_put(w.data, a.1, d, b.1);
                },
                OperationView::Update(_, d) => {
                    lemma_get_put(w.data, a.1, d, b.1);
                },
                OperationView::Remove(_) => {
                    lemma_get_remove(w.data, a.1, b.1);
                },
                OperationView::SetField(_, field, d) => {
                    let r = field_get(w.data, a.1)->Some_0->Record_0;
                    lemma_get_put(w.data, a.1, Data::Record(field_put(r, field, d)), b.1);
                },
            }
        } else if a.0 == "map"@ && b.0 == "map"@ {
            let p = spec_parse_map_id(a.1)->Some_0;
            match spec_parse_map_id(b.1) {
                Some(q) => {
                    if spec_cell(w, q) is Ok {
                        lemma_cell_index_distinct(w, p, q);
                    }
                },
                None => {},
            }
        }
    }
}

/// The addresses of a commit come in increasing order: by collection, then
/// by id.
pub open spec fn address_lt(a: AddressView, b: AddressView) -> bool {
    crate::value::text_lt(a.0, b.0) || (a.0 == b.0 && crate::value::text_lt(a.1, b.1))
}

proof fn lemma_flatten_collections(cs: Changes)
    ensures
        forall|k: int|
            0 <= k < flatten(cs).len() ==> exists|i: int|
                0 <= i < cs.len() && (#[trigger] flatten(cs)[k]).0 == cs[i].0,
    decreases cs.len(),
{
    if cs.len() > 0 {
        let rest = cs.drop_last();
        lemma_flatten_collections(rest);
        let f1 = flatten(rest);
        let e = expand(cs.last());
        assert forall|k: int| 0 <= k < flatten(cs).len() implies exists|i: int|
            0 <= i < cs.len() && (#[trigger] flatten(cs)[k]).0 == cs[i].0 by {
            if k < f1.len() {
                assert(flatten(cs)[k] == f1[k]);
                let i = choose|i: int| 0 <= i < rest.len() && f1[k].0 == rest[i].0;
                assert(rest[i] == cs[i]);
            } else {
                assert(flatten(cs)[k] == e[k - f1.len()]);
                assert(flatten(cs)[k].0 == cs[cs.len() - 1].0);
            }
        }
    }
}

/// Well-formed changes list their addresses in increasing order, each once.
pub proof fn lemma_changes_in_order(cs: Changes)
    requires
        changes_well_formed(cs),
    ensures
        forall|i: int, j: int|
            0 <= i < j < flatten(cs).len() ==> address_lt(#[trigger] flatten(cs)[i], #[trigger] flatten(cs)[j]),
    decreases cs.len(),
{
    if cs.len() > 0 {
        let rest = cs.drop_last();
        assert(changes_well_formed(rest)) by {
            assert forall|i: int| 0 <= i < rest.len() implies names_increase(#[trigger] rest[i].1) by {
                assert(rest[i] == cs[i]);
            }
        }
        lemma_changes_in_order(rest);
        lemma_flatten_collections(rest);
        let f1 = flatten(rest);
        let last = cs.last();
        let e = expand(last);
        let f = flatten(cs);
        assert(names_increase(cs[cs.len() - 1].1));
        assert forall|i: int, j: int| 0 <= i < j < f.len() implies address_lt(
            #[trigger] f[i],
            #[trigger] f[j],
        ) by {
            if j < f1.len() {
                assert(f[i] == f1[i] && f[j] == f1[j]);
            } else if i >= f1.len() {
                assert(f[i] == e[i - f1.len()] && f[j] == e[j - f1.len()]);
                assert(crate::value::text_lt(last.1[i - f1.len()].0, last.1[j - f1.len()].0));
            } else {
                assert(f[i] == f1[i] && f[j] == e[j - f1.len()]);
                let m = choose|m: int| 0 <= m < rest.len() && f1[i].0 == rest[m].0;
                assert(rest[m] == cs[m]);
                assert(crate::value::text_lt(cs[m].0, cs[cs.len() - 1].0));
            }
        }
    }
}

/// Adding an address keeps changes well formed.
pub proof fn lemma_add_change_well_formed(cs: Changes, a: AddressView)
    requires
        changes_well_formed(cs),
    ensures
        changes_well_formed(add_change(cs, a)),
{
    let group = match field_get(cs, a.0) {
        Some(g) => g,
        None => Seq::<(Seq<char>, ())>::empty(),
    };
    lemma_get_at(cs, a.0);
    lemma_position_bounds(names_of(cs), a.0);
    let p = name_position(names_of(cs), a.0);
    if p < cs.len() && cs[p].0 == a.0 {
        assert(names_increase(cs[p].1));
    }
    lemma_put_increases(group, a.1, ());
    let g2 = field_put(group, a.1, ());
    lemma_put_increases(cs, a.0, g2);
    lemma_put_at(cs, a.0, g2);
    let out = add_change(cs, a);
    assert forall|k: int| 0 <= k < out.len() implies names_increase(#[trigger] out[k].1) by {
        if out[k].1 != g2 {
            if p < cs.len() && cs[p].0 == a.0 {
                assert(out[k] == cs[k]);
            } else if k < p {
                assert(out[k] == cs[k]);
            } else {
                assert(out[k] == cs[k - 1]);
            }
        }
    }
}

proof fn lemma_address_set_well_formed(addrs: Seq<AddressView>)
    ensures
        changes_well_formed(address_set(addrs)),
    decreases addrs.len(),
{
    if addrs.len() > 0 {
        lemma_address_set_well_formed(addrs.drop_last());
        lemma_add_change_well_formed(address_set(addrs.drop_last()), addrs.last());
    }
}

/// The addresses a transaction changed, as a commit lists them, come in
/// increasing order (by collection, then by id), each once.
pub proof fn lemma_commit_lists_in_order(t: Transaction)
    requires
        t.inv(),
    ensures
        forall|i: int, j: int|
            0 <= i < j < flatten(t@.changes).len() ==> address_lt(
                #[trigger] flatten(t@.changes)[i],
                #[trigger] flatten(t@.changes)[j],
            ),
{
    lemma_changes_in_order(t@.changes);
}

/// Restoring what a snapshot of a store holds gives back that store,
/// wherever its world still passes the checks of a new store.
pub proof fn lemma_snapshot_round_trip(s: StoreView)
    requires
        spec_check_world(s.world) is Ok,
    ensures
        restored(s.world, s.random, s.revision) == Ok::<StoreView, Seq<char>>(s),
{
}

/// Selected addresses are taken in increasing order, each once.
pub proof fn lemma_selection_in_order(addrs: Seq<AddressView>)
    ensures
        forall|i: int, j: int|
            0 <= i < j < flatten(address_set(addrs)).len() ==> address_lt(
                #[trigger] flatten(address_set(addrs))[i],
                #[trigger] flatten(address_set(addrs))[j],
            ),
{
    lemma_address_set_well_formed(addrs);
    lemma_changes_in_order(address_set(addrs));
}

} // verus!
