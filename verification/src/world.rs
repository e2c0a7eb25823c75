//! The world held by the store: a map of cells, entities and shared game
//! data, and how a store address reads and writes it.
//!
//! Entities and data are kept in increasing order of id, with no id twice,
//! as fields of a record are.
use vstd::prelude::*;
use crate::hex::{
    adjacent, distance_fits, neighbors, outside_error, spec_contains, spec_distance, spec_neighbors,
    steppable, Bounds, Position,
};
use crate::hex::outside_message;
use crate::store::{parse_map_id, spec_parse_map_id, Address};
use crate::text::{push_str, str_eq, string_of};
use crate::value::{
    copy_fields, copy_value, data_of, field_get, field_put, field_remove, fields_of,
    fields_well_formed, lemma_fields_well_formed, lemma_get_at, lemma_get_well_formed,
    lemma_put_at, lemma_put_increases, lemma_put_well_formed, lemma_record_data, lemma_remove_at,
    lemma_position_bounds, lemma_remove_increases, lemma_remove_well_formed, locate, name_position, names_increase, names_of,
    well_formed, Data, Fields, Value,
};

verus! {

/// The cells of a map, row by row from the top.
#[derive(Clone, Debug, PartialEq)]
pub struct WorldMap {
    pub width: usize,
    pub height: usize,
    pub cells: Vec<Value>,
}

/// An entity: its id and its record of fields.
#[derive(Clone, Debug, PartialEq)]
pub struct Entity {
    pub id: String,
    pub data: Vec<(String, Value)>,
}

/// The whole world: the map, the entities by id and the shared data by id.
#[derive(Clone, Debug, PartialEq)]
pub struct World {
    pub map: WorldMap,
    pub entities: Vec<(String, Entity)>,
    pub data: Vec<(String, Value)>,
}

/// The mathematical form of an entity.
pub struct EntityView {
    pub id: Seq<char>,
    pub data: Fields,
}

/// The mathematical form of a world.
pub struct WorldView {
    pub width: usize,
    pub height: usize,
    pub cells: Seq<Data>,
    pub entities: Seq<(Seq<char>, EntityView)>,
    pub data: Fields,
}

/// A store address as a collection and an id.
pub type AddressView = (Seq<char>, Seq<char>);

pub open spec fn address_view(a: Address) -> AddressView {
    (a.collection@, a.id@)
}

pub open spec fn entity_view(e: Entity) -> EntityView {
    EntityView { id: e.id@, data: fields_of(e.data@) }
}

pub open spec fn entities_of(es: Seq<(String, Entity)>) -> Seq<(Seq<char>, EntityView)> {
    Seq::new(es.len(), |i: int| (es[i].0@, entity_view(es[i].1)))
}

pub open spec fn cells_of(cs: Seq<Value>) -> Seq<Data> {
    Seq::new(cs.len(), |i: int| data_of(cs[i]))
}

pub open spec fn world_view(w: World) -> WorldView {
    WorldView {
        width: w.map.width,
        height: w.map.height,
        cells: cells_of(w.map.cells@),
        entities: entities_of(w.entities@),
        data: fields_of(w.data@),
    }
}

/// Entities and data in increasing order of id, every record's names in
/// increasing order, and every value well formed.
pub open spec fn world_well_formed(w: WorldView) -> bool {
    &&& forall|i: int| 0 <= i < w.cells.len() ==> well_formed(#[trigger] w.cells[i])
    &&& names_increase(w.entities)
    &&& forall|i: int|
        0 <= i < w.entities.len() ==> fields_well_formed(#[trigger] w.entities[i].1.data)
    &&& fields_well_formed(w.data)
}

// ---------------------------------------------------------------------------
// Messages
// ---------------------------------------------------------------------------
/// `<str as Debug>`: a string between double quotes, with quotes,
/// backslashes and unprintable characters escaped.
pub uninterp spec fn debug_quoted(s: Seq<char>) -> Seq<char>;

/// An address written as `Debug` writes it.
pub open spec fn address_debug(a: AddressView) -> Seq<char> {
    "Address { collection: "@ + debug_quoted(a.0) + ", id: "@ + debug_quoted(a.1) + " }"@
}

pub open spec fn empty_address_message() -> Seq<char> {
    "store address parts must not be empty"@
}

pub open spec fn not_found(a: AddressView) -> Seq<char> {
    "store record not found: "@ + address_debug(a)
}

pub open spec fn not_a_map(a: AddressView) -> Seq<char> {
    "store record is not a map: "@ + address_debug(a)
}

pub open spec fn already_exists(a: AddressView) -> Seq<char> {
    "store record already exists: "@ + address_debug(a)
}

pub open spec fn unknown_collection(c: Seq<char>) -> Seq<char> {
    "unknown store collection: "@ + c
}

pub open spec fn invalid_map_address(id: Seq<char>) -> Seq<char> {
    "invalid map address: "@ + id
}

/// `format!("{:?}", s)` for a string.
#[verifier::external_body]
pub(crate) fn quoted(s: &str) -> (r: String)
    ensures
        r@ == debug_quoted(s@),
{
    format!("{:?}", s)
}

/// A message followed by an address as `Debug` writes it.
pub(crate) fn address_message(prefix: &str, a: &Address) -> (r: String)
    ensures
        r@ == prefix@ + address_debug(address_view(*a)),
{
    let mut m: Vec<char> = Vec::new();
    push_str(&mut m, prefix);
    push_str(&mut m, "Address { collection: ");
    push_str(&mut m, quoted(a.collection.as_str()).as_str());
    push_str(&mut m, ", id: ");
    push_str(&mut m, quoted(a.id.as_str()).as_str());
    push_str(&mut m, " }");
    proof {
        reveal_strlit("Address { collection: ");
        reveal_strlit(", id: ");
        reveal_strlit(" }");
    }
    let r = string_of(&m);
    assert(r@ =~= prefix@ + address_debug(address_view(*a)));
    r
}

pub(crate) fn text_message(prefix: &str, tail: &str) -> (r: String)
    ensures
        r@ == prefix@ + tail@,
{
    let mut m: Vec<char> = Vec::new();
    push_str(&mut m, prefix);
    push_str(&mut m, tail);
    string_of(&m)
}

// ---------------------------------------------------------------------------
// Cells
// ---------------------------------------------------------------------------
pub open spec fn view_bounds(w: WorldView) -> Bounds {
    Bounds { width: w.width, height: w.height }
}

/// Where the cell of `p` is stored.
pub open spec fn cell_index(w: WorldView, p: Position) -> int {
    (p.y - 1) * w.width + (p.x - 1)
}

/// The cell at `p`, or why there is none: empty bounds, a position off the
/// map, or too few cells for the dimensions.
pub open spec fn spec_cell(w: WorldView, p: Position) -> Result<Data, Seq<char>> {
    if w.width == 0 || w.height == 0 {
        Err("hex bounds must be positive"@)
    } else if !spec_contains(view_bounds(w), p) {
        Err(outside_message(p, "map"@))
    } else if cell_index(w, p) >= w.cells.len() {
        Err("map dimensions do not match its cells"@)
    } else {
        Ok(w.cells[cell_index(w, p)])
    }
}

/// The world with the cell at `p` replaced.
pub open spec fn with_cell(w: WorldView, p: Position, d: Data) -> WorldView {
    WorldView { cells: w.cells.update(cell_index(w, p), d), ..w }
}

impl WorldMap {
    /// The bounds of the map; both dimensions must be positive.
    pub fn bounds(&self) -> (r: Result<Bounds, String>)
        ensures
            r is Ok <==> (self.width > 0 && self.height > 0),
            r matches Ok(b) ==> b.width == self.width && b.height == self.height,
            r matches Err(m) ==> m@ == "hex bounds must be positive"@,
    {
        if self.width == 0 || self.height == 0 {
            return Err(String::from_str("hex bounds must be positive"));
        }
        Ok(Bounds { width: self.width, height: self.height })
    }

    /// Where the cell of `position` is stored, if the position is on the
    /// map and the map has that many cells.
    pub(crate) fn index_of(&self, position: Position) -> (r: Result<usize, String>)
        ensures
            ({
                let w = WorldView {
                    width: self.width,
                    height: self.height,
                    cells: cells_of(self.cells@),
                    entities: seq![],
                    data: seq![],
                };
                match r {
                    Ok(i) => spec_cell(w, position) is Ok && i == cell_index(w, position),
                    Err(m) => spec_cell(w, position) == Err::<Data, Seq<char>>(m@),
                }
            }),
    {
        let bounds = match self.bounds() {
            Ok(b) => b,
            Err(e) => {
                return Err(e);
            },
        };
        if !bounds.contains(position) {
            return Err(outside_error(position, "map"));
        }
        let row = (position.y - 1) as usize;
        let column = (position.x - 1) as usize;
        let ghost cells_len = cells_of(self.cells@).len();
        assert(cells_len == self.cells.len());
        let index = match row.checked_mul(self.width) {
            Some(start) => start.checked_add(column),
            None => {
                assert(row * self.width + column >= row * self.width) by (nonlinear_arith)
                    requires
                        column >= 0,
                ;
                None
            },
        };
        match index {
            Some(i) => {
                if i < self.cells.len() {
                    Ok(i)
                } else {
                    Err(String::from_str("map dimensions do not match its cells"))
                }
            },
            None => Err(String::from_str("map dimensions do not match its cells")),
        }
    }

    /// The cell at `position`.
    pub fn cell(&self, position: Position) -> (r: Result<&Value, String>)
        ensures
            ({
                let w = WorldView {
                    width: self.width,
                    height: self.height,
                    cells: cells_of(self.cells@),
                    entities: seq![],
                    data: seq![],
                };
                match r {
                    Ok(v) => spec_cell(w, position) == Ok::<Data, Seq<char>>(data_of(*v)),
                    Err(m) => spec_cell(w, position) == Err::<Data, Seq<char>>(m@),
                }
            }),
    {
        match self.index_of(position) {
            Ok(i) => Ok(&self.cells[i]),
            Err(e) => Err(e),
        }
    }

    /// Whether two cells share an edge.
    pub fn are_adjacent(&self, a: Position, b: Position) -> (r: bool)
        requires
            distance_fits(a, b),
        ensures
            r == (spec_distance(a, b) == 1),
    {
        adjacent(a, b)
    }

    /// The neighbours of a cell that lie on the map, in the order of
    /// [`crate::hex::neighbors`].
    pub fn neighbors(&self, position: Position) -> (r: Vec<Position>)
        requires
            steppable(position),
        ensures
            r@ == spec_neighbors(position).filter(
                |c: Position| spec_contains(Bounds { width: self.width, height: self.height }, c),
            ),
    {
        let bounds = Bounds { width: self.width, height: self.height };
        let all = neighbors(position);
        let ghost all_seq = spec_neighbors(position);
        let mut out: Vec<Position> = Vec::new();
        let mut i: usize = 0;
        while i < 6
            invariant
                0 <= i <= 6,
                all@ == all_seq,
                all_seq.len() == 6,
                bounds == (Bounds { width: self.width, height: self.height }),
                out@ == all_seq.take(i as int).filter(|c: Position| spec_contains(bounds, c)),
            decreases 6 - i,
        {
            let candidate = all[i];
            proof {
                assert(all_seq.take(i as int + 1).drop_last() == all_seq.take(i as int));
                reveal(Seq::filter);
            }
            if bounds.contains(candidate) {
                out.push(candidate);
            }
            i = i + 1;
        }
        proof {
            assert(all_seq.take(6) =~= all_seq);
        }
        out
    }
}

// ---------------------------------------------------------------------------
// Reading an address
// ---------------------------------------------------------------------------
pub open spec fn opt_data(o: Option<Value>) -> Option<Data> {
    match o {
        Some(v) => Some(data_of(v)),
        None => None,
    }
}

/// What an address reads: an entity as the record of its fields, a data
/// record, or a map cell named by `x,y`; `None` where no entity or data
/// record has the id.
pub open spec fn spec_read(w: WorldView, a: AddressView) -> Result<Option<Data>, Seq<char>> {
    if a.0.len() == 0 || a.1.len() == 0 {
        Err(empty_address_message())
    } else if a.0 == "entities"@ {
        Ok(
            match field_get(w.entities, a.1) {
                Some(e) => Some(Data::Record(e.data)),
                None => None,
            },
        )
    } else if a.0 == "data"@ {
        Ok(field_get(w.data, a.1))
    } else if a.0 == "map"@ {
        match spec_parse_map_id(a.1) {
            None => Err(invalid_map_address(a.1)),
            Some(p) => match spec_cell(w, p) {
                Ok(d) => Ok(Some(d)),
                Err(m) => Err(m),
            },
        }
    } else {
        Err(unknown_collection(a.0))
    }
}

/// What a field of the record at an address reads.
pub open spec fn spec_read_field(w: WorldView, a: AddressView, field: Seq<char>) -> Result<
    Option<Data>,
    Seq<char>,
> {
    if a.0.len() == 0 || a.1.len() == 0 {
        Err(empty_address_message())
    } else if a.0 == "entities"@ {
        match field_get(w.entities, a.1) {
            Some(e) => Ok(field_get(e.data, field)),
            None => Err(not_found(a)),
        }
    } else if a.0 == "data"@ {
        match field_get(w.data, a.1) {
            Some(Data::Record(r)) => Ok(field_get(r, field)),
            Some(_) => Err(not_a_map(a)),
            None => Err(not_found(a)),
        }
    } else if a.0 == "map"@ {
        match spec_parse_map_id(a.1) {
            None => Err(invalid_map_address(a.1)),
            Some(p) => match spec_cell(w, p) {
                Ok(Data::Record(r)) => Ok(field_get(r, field)),
                Ok(_) => Err(not_a_map(a)),
                Err(m) => Err(m),
            },
        }
    } else {
        Err(unknown_collection(a.0))
    }
}

pub open spec fn key_names<T>(f: Seq<(String, T)>) -> Seq<Seq<char>> {
    f.map_values(|p: (String, T)| p.0@)
}

pub proof fn lemma_entity_names(es: Seq<(String, Entity)>)
    ensures
        names_of(entities_of(es)) == key_names(es),
{
    assert(names_of(entities_of(es)) =~= key_names(es));
}

pub proof fn lemma_field_names(f: Seq<(String, Value)>)
    ensures
        names_of(fields_of(f)) == key_names(f),
{
    assert(names_of(fields_of(f)) =~= key_names(f));
}

/// The position of `key` among the keys of `f`, and whether the key there
/// is `key`.
pub fn find_key<T>(f: &Vec<(String, T)>, key: &str) -> (r: (usize, bool))
    ensures
        r.0 == name_position(key_names(f@), key@),
        r.0 <= f.len(),
        r.1 == (r.0 < f.len() && f@[r.0 as int].0@ == key@),
{
    let i = locate(f, key);
    if i < f.len() {
        let same = str_eq(f[i].0.as_str(), key);
        (i, same)
    } else {
        (i, false)
    }
}

/// The index of the entity with id `id`.
pub(crate) fn entity_index(w: &World, id: &str) -> (r: Option<usize>)
    requires
        names_increase(entities_of(w.entities@)),
    ensures
        match r {
            Some(i) => i < w.entities.len() && field_get(entities_of(w.entities@), id@) == Some(
                entity_view(w.entities@[i as int].1),
            ) && w.entities@[i as int].0@ == id@ && i == name_position(
                names_of(entities_of(w.entities@)),
                id@,
            ),
            None => field_get(entities_of(w.entities@), id@) is None,
        },
{
    let (i, found) = find_key(&w.entities, id);
    proof {
        lemma_entity_names(w.entities@);
        lemma_get_at(entities_of(w.entities@), id@);
    }
    if found {
        Some(i)
    } else {
        None
    }
}

/// The index of the field named `name`.
pub(crate) fn field_index(f: &Vec<(String, Value)>, name: &str) -> (r: Option<usize>)
    requires
        names_increase(fields_of(f@)),
    ensures
        match r {
            Some(i) => i < f.len() && field_get(fields_of(f@), name@) == Some(data_of(f@[i as int].1))
                && f@[i as int].0@ == name@ && i == name_position(names_of(fields_of(f@)), name@),
            None => field_get(fields_of(f@), name@) is None,
        },
{
    let (i, found) = find_key(f, name);
    proof {
        lemma_field_names(f@);
        lemma_get_at(fields_of(f@), name@);
    }
    if found {
        Some(i)
    } else {
        None
    }
}

/// Checks that neither part of an address is empty.
pub(crate) fn check_address(a: &Address) -> (r: Result<(), String>)
    ensures
        r is Ok <==> (a.collection@.len() > 0 && a.id@.len() > 0),
        r matches Err(m) ==> m@ == empty_address_message(),
{
    crate::store::validate_address(a)
}

/// Which collection an address names.
pub enum Collection {
    Entities,
    Data,
    Cells,
    Unknown,
}

pub open spec fn spec_collection(c: Seq<char>) -> Collection {
    if c == "entities"@ {
        Collection::Entities
    } else if c == "data"@ {
        Collection::Data
    } else if c == "map"@ {
        Collection::Cells
    } else {
        Collection::Unknown
    }
}

pub(crate) fn collection_of(a: &Address) -> (r: Collection)
    ensures
        r == spec_collection(a.collection@),
{
    if str_eq(a.collection.as_str(), "entities") {
        Collection::Entities
    } else if str_eq(a.collection.as_str(), "data") {
        Collection::Data
    } else if str_eq(a.collection.as_str(), "map") {
        Collection::Cells
    } else {
        Collection::Unknown
    }
}

pub open spec fn map_view(m: WorldMap) -> WorldView {
    WorldView { width: m.width, height: m.height, cells: cells_of(m.cells@), entities: seq![], data: seq![] }
}

/// `spec_cell` looks only at the map.
pub proof fn lemma_cell_of_map(w: World, p: Position)
    ensures
        spec_cell(world_view(w), p) == spec_cell(map_view(w.map), p),
{
}

/// The value at an address, copied.
pub fn read_value(world: &World, address: &Address) -> (r: Result<Option<Value>, String>)
    requires
        world_well_formed(world_view(*world)),
    ensures
        match r {
            Ok(o) => spec_read(world_view(*world), address_view(*address)) == Ok::<
                Option<Data>,
                Seq<char>,
            >(opt_data(o)),
            Err(m) => spec_read(world_view(*world), address_view(*address)) == Err::<
                Option<Data>,
                Seq<char>,
            >(m@),
        },
{
    match check_address(address) {
        Ok(()) => {},
        Err(e) => {
            return Err(e);
        },
    }
    match collection_of(address) {
        Collection::Entities => match entity_index(world, address.id.as_str()) {
            Some(i) => {
                let data = copy_fields(&world.entities[i].1.data);
                proof {
                    lemma_record_data(data);
                }
                Ok(Some(Value::Record(data)))
            },
            None => Ok(None),
        },
        Collection::Data => match field_index(&world.data, address.id.as_str()) {
            Some(i) => Ok(Some(copy_value(&world.data[i].1))),
            None => Ok(None),
        },
        Collection::Cells => {
            let position = match parse_map_id(address.id.as_str()) {
                Ok(p) => p,
                Err(e) => {
                    return Err(e);
                },
            };
            proof {
                lemma_cell_of_map(*world, position);
            }
            match world.map.cell(position) {
                Ok(v) => Ok(Some(copy_value(v))),
                Err(e) => Err(e),
            }
        },
        Collection::Unknown => Err(text_message("unknown store collection: ", address.collection.as_str())),
    }
}

/// The field `field` of the record at an address.
pub fn read_field<'a>(world: &'a World, address: &Address, field: &str) -> (r: Result<
    Option<&'a Value>,
    String,
>)
    requires
        world_well_formed(world_view(*world)),
    ensures
        match r {
            Ok(o) => spec_read_field(world_view(*world), address_view(*address), field@) == Ok::<
                Option<Data>,
                Seq<char>,
            >(
                match o {
                    Some(v) => Some(data_of(*v)),
                    None => None,
                },
            ),
            Err(m) => spec_read_field(world_view(*world), address_view(*address), field@) == Err::<
                Option<Data>,
                Seq<char>,
            >(m@),
        },
{
    match check_address(address) {
        Ok(()) => {},
        Err(e) => {
            return Err(e);
        },
    }
    let ghost w = world_view(*world);
    match collection_of(address) {
        Collection::Entities => match entity_index(world, address.id.as_str()) {
            Some(i) => {
                let record = &world.entities[i].1.data;
                proof {
                    assert(w.entities[i as int].1.data == fields_of(record@));
                    assert(fields_well_formed(w.entities[i as int].1.data));
                    lemma_fields_well_formed(fields_of(record@));
                }
                match field_index(record, field) {
                    Some(j) => Ok(Some(&record[j].1)),
                    None => Ok(None),
                }
            },
            None => Err(address_message("store record not found: ", address)),
        },
        Collection::Data => match field_index(&world.data, address.id.as_str()) {
            Some(i) => match &world.data[i].1 {
                Value::Record(record) => {
                    proof {
                        lemma_record_data(*record);
                        lemma_fields_well_formed(w.data);
                        lemma_get_well_formed(w.data, address.id@);
                        lemma_fields_well_formed(fields_of(record@));
                    }
                    match field_index(record, field) {
                        Some(j) => Ok(Some(&record[j].1)),
                        None => Ok(None),
                    }
                },
                _ => Err(address_message("store record is not a map: ", address)),
            },
            None => Err(address_message("store record not found: ", address)),
        },
        Collection::Cells => {
            let position = match parse_map_id(address.id.as_str()) {
                Ok(p) => p,
                Err(e) => {
                    return Err(e);
                },
            };
            proof {
                lemma_cell_of_map(*world, position);
            }
            match world.map.cell(position) {
                Ok(v) => match v {
                    Value::Record(record) => {
                        proof {
                            lemma_record_data(*record);
                            let k = cell_index(w, position);
                            assert(well_formed(w.cells[k]));
                            lemma_fields_well_formed(fields_of(record@));
                        }
                        match field_index(record, field) {
                            Some(j) => Ok(Some(&record[j].1)),
                            None => Ok(None),
                        }
                    },
                    _ => Err(address_message("store record is not a map: ", address)),
                },
                Err(e) => Err(e),
            }
        },
        Collection::Unknown => Err(text_message("unknown store collection: ", address.collection.as_str())),
    }
}

// ---------------------------------------------------------------------------
// Writing
// ---------------------------------------------------------------------------
/// The world with the entity at `id` set to one with that id and `data`.
pub open spec fn with_entity(w: WorldView, id: Seq<char>, e: EntityView) -> WorldView {
    WorldView { entities: field_put(w.entities, id, e), ..w }
}

pub open spec fn without_entity(w: WorldView, id: Seq<char>) -> WorldView {
    WorldView { entities: field_remove(w.entities, id), ..w }
}

pub open spec fn with_data(w: WorldView, id: Seq<char>, d: Data) -> WorldView {
    WorldView { data: field_put(w.data, id, d), ..w }
}

pub open spec fn without_data(w: WorldView, id: Seq<char>) -> WorldView {
    WorldView { data: field_remove(w.data, id), ..w }
}

/// The keys of `f` after `key` is set to `v` where it stands.
pub open spec fn put_entry<T>(f: Seq<(String, T)>, key: String, v: T) -> Seq<(String, T)> {
    let p = name_position(key_names(f), key@);
    if p < f.len() && f[p].0@ == key@ {
        f.update(p, (key, v))
    } else {
        f.insert(p, (key, v))
    }
}

/// Sets `key` to `v`: replaces the entry with that key, or adds one at its
/// position.
pub fn put_key<T>(f: &mut Vec<(String, T)>, key: String, v: T)
    ensures
        final(f)@ == put_entry(old(f)@, key, v),
{
    let (i, found) = find_key(f, key.as_str());
    if found {
        f.set(i, (key, v));
    } else {
        f.insert(i, (key, v));
    }
}

/// Removes the entry with key `key`, if there is one.
pub fn remove_key<T>(f: &mut Vec<(String, T)>, key: &str)
    ensures
        ({
            let p = name_position(key_names(old(f)@), key@);
            final(f)@ == if p < old(f)@.len() && old(f)@[p].0@ == key@ {
                old(f)@.remove(p)
            } else {
                old(f)@
            }
        }),
{
    let (i, found) = find_key(f, key);
    if found {
        f.remove(i);
    }
}

/// The entries of a keyed vector, each key taken by its view.
pub open spec fn keyed<T>(f: Seq<(String, T)>) -> Seq<(Seq<char>, T)> {
    f.map_values(|p: (String, T)| (p.0@, p.1))
}

proof fn lemma_keyed_names<T>(f: Seq<(String, T)>)
    ensures
        names_of(keyed(f)) == key_names(f),
{
    assert(names_of(keyed(f)) =~= key_names(f));
}

/// The index of the entry with key `key`, if there is one.
pub fn get_keyed<T>(f: &Vec<(String, T)>, key: &str) -> (r: Option<usize>)
    requires
        names_increase(keyed(f@)),
    ensures
        match r {
            Some(i) => i < f.len() && f@[i as int].0@ == key@ && field_get(keyed(f@), key@) == Some(
                f@[i as int].1,
            ),
            None => field_get(keyed(f@), key@) is None,
        },
{
    proof {
        lemma_keyed_names(f@);
        lemma_get_at(keyed(f@), key@);
    }
    let (i, found) = find_key(f, key);
    if found {
        Some(i)
    } else {
        None
    }
}

/// Sets the entry with key `key` to `v`, keeping keys in increasing order.
pub fn put_keyed<T>(f: &mut Vec<(String, T)>, key: String, v: T)
    requires
        names_increase(keyed(old(f)@)),
    ensures
        keyed(final(f)@) == field_put(keyed(old(f)@), key@, v),
        names_increase(keyed(final(f)@)),
{
    let ghost before = f@;
    let ghost k = key@;
    put_key(f, key, v);
    proof {
        let m = keyed(before);
        lemma_keyed_names(before);
        lemma_position_bounds(key_names(before), k);
        lemma_put_at(m, k, v);
        lemma_put_increases(m, k, v);
        let p = name_position(names_of(m), k);
        if p < before.len() && before[p].0@ == k {
            assert(keyed(f@) =~= m.update(p, (k, v)));
        } else {
            assert(keyed(f@) =~= m.insert(p, (k, v)));
        }
    }
}

/// Removes the entry with key `key`, if there is one.
pub fn remove_keyed<T>(f: &mut Vec<(String, T)>, key: &str)
    requires
        names_increase(keyed(old(f)@)),
    ensures
        keyed(final(f)@) == field_remove(keyed(old(f)@), key@),
        names_increase(keyed(final(f)@)),
{
    let ghost before = f@;
    remove_key(f, key);
    proof {
        let m = keyed(before);
        lemma_keyed_names(before);
        lemma_position_bounds(key_names(before), key@);
        lemma_remove_at(m, key@);
        lemma_remove_increases(m, key@);
        let p = name_position(names_of(m), key@);
        if p < before.len() && before[p].0@ == key@ {
            assert(keyed(f@) =~= m.remove(p));
        } else {
            assert(keyed(f@) =~= m);
        }
    }
}

/// Sets a field of executable fields.
pub fn put_field(f: &mut Vec<(String, Value)>, name: String, v: Value)
    requires
        names_increase(fields_of(old(f)@)),
    ensures
        fields_of(final(f)@) == field_put(fields_of(old(f)@), name@, data_of(v)),
{
    let ghost before = f@;
    put_key(f, name, v);
    proof {
        let m = fields_of(before);
        lemma_field_names(before);
        lemma_position_bounds(key_names(before), name@);
        lemma_put_at(m, name@, data_of(v));
        let p = name_position(names_of(m), name@);
        if p < before.len() && before[p].0@ == name@ {
            assert(fields_of(f@) =~= m.update(p, (name@, data_of(v))));
        } else {
            assert(fields_of(f@) =~= m.insert(p, (name@, data_of(v))));
        }
    }
}

/// Removes a field of executable fields, if it is there.
pub fn remove_field(f: &mut Vec<(String, Value)>, name: &str)
    requires
        names_increase(fields_of(old(f)@)),
    ensures
        fields_of(final(f)@) == field_remove(fields_of(old(f)@), name@),
{
    let ghost before = f@;
    remove_key(f, name);
    proof {
        let m = fields_of(before);
        lemma_field_names(before);
        lemma_position_bounds(key_names(before), name@);
        lemma_remove_at(m, name@);
        let p = name_position(names_of(m), name@);
        if p < before.len() && before[p].0@ == name@ {
            assert(fields_of(f@) =~= m.remove(p));
        } else {
            assert(fields_of(f@) =~= m);
        }
    }
}

/// Sets an entity of a world.
pub(crate) fn put_entity(w: &mut World, id: String, e: Entity)
    requires
        names_increase(entities_of(old(w).entities@)),
    ensures
        world_view(*final(w)) == with_entity(world_view(*old(w)), id@, entity_view(e)),
{
    let ghost before = w.entities@;
    let ghost e_view = entity_view(e);
    put_key(&mut w.entities, id, e);
    proof {
        let m = entities_of(before);
        lemma_entity_names(before);
        lemma_position_bounds(key_names(before), id@);
        lemma_put_at(m, id@, e_view);
        let p = name_position(names_of(m), id@);
        if p < before.len() && before[p].0@ == id@ {
            assert(entities_of(w.entities@) =~= m.update(p, (id@, e_view)));
        } else {
            assert(entities_of(w.entities@) =~= m.insert(p, (id@, e_view)));
        }
    }
}

/// Removes an entity from a world.
pub(crate) fn remove_entity(w: &mut World, id: &str)
    requires
        names_increase(entities_of(old(w).entities@)),
    ensures
        world_view(*final(w)) == without_entity(world_view(*old(w)), id@),
{
    let ghost before = w.entities@;
    remove_key(&mut w.entities, id);
    proof {
        let m = entities_of(before);
        lemma_entity_names(before);
        lemma_position_bounds(key_names(before), id@);
        lemma_remove_at(m, id@);
        let p = name_position(names_of(m), id@);
        if p < before.len() && before[p].0@ == id@ {
            assert(entities_of(w.entities@) =~= m.remove(p));
        } else {
            assert(entities_of(w.entities@) =~= m);
        }
    }
}

/// Sets a data record of a world.
pub(crate) fn put_data(w: &mut World, id: String, v: Value)
    requires
        names_increase(fields_of(old(w).data@)),
    ensures
        world_view(*final(w)) == with_data(world_view(*old(w)), id@, data_of(v)),
{
    put_field(&mut w.data, id, v);
}

/// Removes a data record from a world.
pub(crate) fn remove_data(w: &mut World, id: &str)
    requires
        names_increase(fields_of(old(w).data@)),
    ensures
        world_view(*final(w)) == without_data(world_view(*old(w)), id@),
{
    let ghost before = w.data@;
    remove_key(&mut w.data, id);
    proof {
        let m = fields_of(before);
        lemma_field_names(before);
        lemma_position_bounds(key_names(before), id@);
        lemma_remove_at(m, id@);
        let p = name_position(names_of(m), id@);
        if p < before.len() && before[p].0@ == id@ {
            assert(fields_of(w.data@) =~= m.remove(p));
        } else {
            assert(fields_of(w.data@) =~= m);
        }
    }
}

/// Replaces the cell at `p`.
pub(crate) fn set_cell(w: &mut World, p: Position, v: Value)
    requires
        spec_cell(world_view(*old(w)), p) is Ok,
    ensures
        world_view(*final(w)) == with_cell(world_view(*old(w)), p, data_of(v)),
{
    let ghost i = cell_index(world_view(*w), p);
    proof {
        lemma_cell_of_map(*w, p);
    }
    let index = match w.map.index_of(p) {
        Ok(i) => i,
        Err(_) => {
            return;
        },
    };
    let ghost before = w.map.cells@;
    w.map.cells.set(index, v);
    proof {
        assert(cells_of(w.map.cells@) =~= cells_of(before).update(i, data_of(v)));
    }
}

// ---------------------------------------------------------------------------
// Well-formedness is kept
// ---------------------------------------------------------------------------
pub proof fn lemma_with_entity_well_formed(w: WorldView, id: Seq<char>, e: EntityView)
    requires
        world_well_formed(w),
        fields_well_formed(e.data),
    ensures
        world_well_formed(with_entity(w, id, e)),
{
    lemma_put_increases(w.entities, id, e);
    lemma_put_at(w.entities, id, e);
    lemma_position_bounds(names_of(w.entities), id);
    let p = name_position(names_of(w.entities), id);
    let g = field_put(w.entities, id, e);
    assert forall|i: int| 0 <= i < g.len() implies fields_well_formed(#[trigger] g[i].1.data) by {
        if g[i] != (id, e) {
            if p < w.entities.len() && w.entities[p].0 == id {
                assert(g[i] == w.entities[i]);
            } else if i < p {
                assert(g[i] == w.entities[i]);
            } else {
                assert(g[i] == w.entities[i - 1]);
            }
        }
    }
}

pub proof fn lemma_without_entity_well_formed(w: WorldView, id: Seq<char>)
    requires
        world_well_formed(w),
    ensures
        world_well_formed(without_entity(w, id)),
{
    lemma_remove_increases(w.entities, id);
    lemma_remove_at(w.entities, id);
    lemma_position_bounds(names_of(w.entities), id);
    let p = name_position(names_of(w.entities), id);
    let g = field_remove(w.entities, id);
    assert forall|i: int| 0 <= i < g.len() implies fields_well_formed(#[trigger] g[i].1.data) by {
        if p < w.entities.len() && w.entities[p].0 == id && i >= p {
            assert(g[i] == w.entities[i + 1]);
        } else {
            assert(g[i] == w.entities[i]);
        }
    }
}

pub proof fn lemma_with_data_well_formed(w: WorldView, id: Seq<char>, d: Data)
    requires
        world_well_formed(w),
        well_formed(d),
    ensures
        world_well_formed(with_data(w, id, d)),
{
    lemma_put_well_formed(w.data, id, d);
}

pub proof fn lemma_without_data_well_formed(w: WorldView, id: Seq<char>)
    requires
        world_well_formed(w),
    ensures
        world_well_formed(without_data(w, id)),
{
    lemma_remove_well_formed(w.data, id);
}

pub proof fn lemma_with_cell_well_formed(w: WorldView, p: Position, d: Data)
    requires
        world_well_formed(w),
        spec_cell(w, p) is Ok,
        well_formed(d),
    ensures
        world_well_formed(with_cell(w, p, d)),
{
    let v = with_cell(w, p, d);
    assert forall|i: int| 0 <= i < v.cells.len() implies well_formed(#[trigger] v.cells[i]) by {
        if i != cell_index(w, p) {
            assert(v.cells[i] == w.cells[i]);
        }
    }
}

/// A copy of a world.
pub fn copy_world(w: &World) -> (r: World)
    ensures
        world_view(r) == world_view(*w),
{
    let mut cells: Vec<Value> = Vec::new();
    let mut i: usize = 0;
    while i < w.map.cells.len()
        invariant
            i <= w.map.cells.len(),
            cells.len() == i,
            forall|j: int| 0 <= j < i ==> data_of(#[trigger] cells@[j]) == data_of(w.map.cells@[j]),
        decreases w.map.cells.len() - i,
    {
        cells.push(copy_value(&w.map.cells[i]));
        i = i + 1;
    }
    let mut entities: Vec<(String, Entity)> = Vec::new();
    let mut k: usize = 0;
    while k < w.entities.len()
        invariant
            k <= w.entities.len(),
            entities.len() == k,
            forall|j: int|
                0 <= j < k ==> (#[trigger] entities@[j]).0@ == w.entities@[j].0@ && entity_view(
                    entities@[j].1,
                ) == entity_view(w.entities@[j].1),
        decreases w.entities.len() - k,
    {
        let e = Entity { id: w.entities[k].1.id.clone(), data: copy_fields(&w.entities[k].1.data) };
        entities.push((w.entities[k].0.clone(), e));
        k = k + 1;
    }
    let r = World {
        map: WorldMap { width: w.map.width, height: w.map.height, cells },
        entities,
        data: copy_fields(&w.data),
    };
    assert(cells_of(r.map.cells@) =~= cells_of(w.map.cells@));
    assert(entities_of(r.entities@) =~= entities_of(w.entities@));
    r
}

} // verus!
