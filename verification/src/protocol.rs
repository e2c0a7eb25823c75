//! The kinds and checks of the client protocol.
use vstd::prelude::*;
use crate::hex::Position;
use crate::text::{chars_of, decimal, format_u64, push_all, push_str, str_eq, string_of, trim, trim_str};
use crate::value::{
    all_finite, copy_value, fields_finite, float_finite, items_finite, lemma_fields_finite_prefix,
    lemma_items_finite_prefix, data_of, field_get, field_of, fields_of, lemma_field_get_inside, lemma_record_data, Data,
    Fields, Value,
};

verus! {

/// What the player did.
#[derive(Clone, Copy, Debug, PartialEq, Eq, Structural)]
pub enum InteractionKind {
    Activate,
    CellClick,
    Hover,
    Dismiss,
}

/// Whether a command was committed.
#[derive(Clone, Copy, Debug, PartialEq, Eq, Structural)]
pub enum CommandStatus {
    Committed,
    Rejected,
}

/// The kinds of interface nodes.
#[derive(Clone, Copy, Debug, PartialEq, Eq, Structural)]
pub enum UiKind {
    Row,
    Column,
    Panel,
    Text,
    Image,
    Button,
    List,
    Progress,
    Tooltip,
}

/// The version of the protocol that messages are written in.
pub const PROTOCOL_VERSION: u32 = 1;

/// A protocol error: a code, a message and optional details.
#[derive(Clone, Debug, PartialEq)]
pub struct Error {
    pub code: String,
    pub message: String,
    pub details: Option<Value>,
}

impl Error {
    /// An error without details.
    pub fn new(code: &str, message: &str) -> (r: Error)
        ensures
            r.code@ == code@,
            r.message@ == message@,
            r.details is None,
    {
        Error { code: String::from_str(code), message: String::from_str(message), details: None }
    }
}

/// The error for invalid input.
pub open spec fn is_invalid_input(e: Error, message: Seq<char>) -> bool {
    e.code@ == "invalid_input"@ && e.message@ == message
}

fn invalid(message: Vec<char>) -> (e: Error)
    ensures
        is_invalid_input(e, message@),
{
    Error { code: String::from_str("invalid_input"), message: string_of(&message), details: None }
}

/// Checks that an id is not blank.
pub fn id(value: &str, name: &str) -> (r: Result<(), Error>)
    ensures
        r is Ok <==> trim(value@).len() > 0,
        r matches Err(e) ==> is_invalid_input(e, name@ + " must not be empty"@),
{
    if trim_str(value).len() == 0 {
        let mut m = chars_of(name);
        push_str(&mut m, " must not be empty");
        Err(invalid(m))
    } else {
        Ok(())
    }
}

pub open spec fn ids_view(ids: Seq<&str>) -> Seq<Seq<char>> {
    ids.map_values(|s: &str| s@)
}

/// The id at `k` is neither blank nor a repeat of an earlier one.
pub open spec fn id_ok(ids: Seq<Seq<char>>, k: int) -> bool {
    trim(ids[k]).len() > 0 && !ids.take(k).contains(ids[k])
}

/// Checks that no id is blank and none repeats; the first offending id is
/// reported, a blank one as empty, a repeated one as duplicate.
pub fn unique(ids: &[&str], kind: &str) -> (r: Result<(), Error>)
    ensures
        r is Ok <==> forall|k: int| 0 <= k < ids@.len() ==> #[trigger] id_ok(ids_view(ids@), k),
        r matches Err(e) ==> exists|i: int|
            0 <= i < ids@.len() && !#[trigger] id_ok(ids_view(ids@), i) && (forall|j: int|
                0 <= j < i ==> #[trigger] id_ok(ids_view(ids@), j)) && if trim(ids@[i]@).len() == 0 {
                is_invalid_input(e, kind@ + " must not be empty"@)
            } else {
                is_invalid_input(e, "duplicate "@ + kind@ + " id: "@ + ids@[i]@)
            },
{
    let ghost v = ids_view(ids@);
    let mut i: usize = 0;
    while i < ids.len()
        invariant
            i <= ids@.len(),
            v == ids_view(ids@),
            v.len() == ids@.len(),
            forall|k: int| 0 <= k < i ==> #[trigger] id_ok(v, k),
        decreases ids@.len() - i,
    {
        let candidate = ids[i];
        assert(v[i as int] == candidate@);
        match id(candidate, kind) {
            Err(e) => {
                assert(!id_ok(v, i as int));
                return Err(e);
            },
            Ok(_) => {},
        }
        let mut j: usize = 0;
        while j < i
            invariant
                j <= i < ids@.len(),
                v == ids_view(ids@),
                v.len() == ids@.len(),
                candidate == ids@[i as int],
                trim(candidate@).len() > 0,
                forall|k: int| 0 <= k < i ==> #[trigger] id_ok(v, k),
                forall|k: int| 0 <= k < j ==> ids@[k]@ != candidate@,
            decreases i - j,
        {
            if str_eq(ids[j], candidate) {
                assert(v.take(i as int)[j as int] == candidate@);
                assert(!id_ok(v, i as int));
                let mut m: Vec<char> = Vec::new();
                push_str(&mut m, "duplicate ");
                push_str(&mut m, kind);
                push_str(&mut m, " id: ");
                push_str(&mut m, candidate);
                return Err(invalid(m));
            }
            j = j + 1;
        }
        proof {
            if v.take(i as int).contains(candidate@) {
                let k = choose|k: int| 0 <= k < i && v.take(i as int)[k] == candidate@;
                assert(ids@[k]@ == candidate@);
            }
            assert(id_ok(v, i as int));
        }
        i = i + 1;
    }
    Ok(())
}

// ---------------------------------------------------------------------------
// Numbers
// ---------------------------------------------------------------------------
/// A number of a message: an integer, or the bits of an IEEE-754 double.
#[derive(Clone, Copy, Debug, PartialEq, Eq, Structural)]
pub enum Number {
    Integer(i64),
    Float(u64),
}

/// The finite number a value holds: an integer, or a finite double.
pub open spec fn finite_number(d: Data) -> Option<Number> {
    match d {
        Data::Integer(i) => Some(Number::Integer(i)),
        Data::Number(bits) => if float_finite(bits) {
            Some(Number::Float(bits))
        } else {
            None
        },
        _ => None,
    }
}

/// A number in `0..=1`. Doubles that are not negative order as their bits
/// do; negative zero equals zero.
pub open spec fn in_unit_range(n: Number) -> bool {
    match n {
        Number::Integer(i) => 0 <= i <= 1,
        Number::Float(bits) => bits <= 0x3FF0_0000_0000_0000 || bits == 0x8000_0000_0000_0000,
    }
}

/// A finite number greater than zero.
pub open spec fn positive_number(n: Number) -> bool {
    match n {
        Number::Integer(i) => i > 0,
        Number::Float(bits) => 0 < bits < 0x7FF0_0000_0000_0000,
    }
}

fn float_is_finite(bits: u64) -> (r: bool)
    ensures
        r == float_finite(bits),
{
    (bits / 0x10_0000_0000_0000) % 0x800 != 0x7ff
}

fn unit_range(n: Number) -> (r: bool)
    ensures
        r == in_unit_range(n),
{
    match n {
        Number::Integer(i) => 0 <= i && i <= 1,
        Number::Float(bits) => bits <= 0x3FF0_0000_0000_0000 || bits == 0x8000_0000_0000_0000,
    }
}

fn positive(n: Number) -> (r: bool)
    ensures
        r == positive_number(n),
{
    match n {
        Number::Integer(i) => i > 0,
        Number::Float(bits) => 0 < bits && bits < 0x7FF0_0000_0000_0000,
    }
}

// ---------------------------------------------------------------------------
// Reading fields of a message
// ---------------------------------------------------------------------------
pub open spec fn opt_view(o: Option<&Value>) -> Option<Data> {
    match o {
        Some(v) => Some(data_of(*v)),
        None => None,
    }
}

fn message(name: &str, tail: &str) -> (r: Vec<char>)
    ensures
        r@ == name@ + tail@,
{
    let mut m = chars_of(name);
    push_str(&mut m, tail);
    m
}

/// A non-blank string field.
pub open spec fn spec_string_field(f: Fields, field: Seq<char>, name: Seq<char>) -> Result<Seq<char>, Seq<char>> {
    match field_get(f, field) {
        Some(Data::Text(v)) => if trim(v).len() > 0 {
            Ok(v)
        } else {
            Err(name + " must be a nonempty string"@)
        },
        _ => Err(name + " must be a nonempty string"@),
    }
}

fn string_field<'a>(fields: &'a Vec<(String, Value)>, field: &str, name: &str) -> (r: Result<&'a str, Error>)
    ensures
        match r {
            Ok(v) => spec_string_field(fields_of(fields@), field@, name@) == Ok::<Seq<char>, Seq<char>>(v@),
            Err(e) => spec_string_field(fields_of(fields@), field@, name@) matches Err(m)
                && is_invalid_input(e, m),
        },
{
    match field_of(fields, field) {
        Some(Value::String(v)) => {
            if trim_str(v.as_str()).len() > 0 {
                return Ok(v.as_str());
            }
        },
        _ => {},
    }
    Err(invalid(message(name, " must be a nonempty string")))
}

/// An integer.
pub open spec fn spec_required_i64(c: Option<Data>, name: Seq<char>) -> Result<i64, Seq<char>> {
    match c {
        Some(Data::Integer(v)) => Ok(v),
        _ => Err(name + " must be an integer"@),
    }
}

fn required_i64(c: Option<&Value>, name: &str) -> (r: Result<i64, Error>)
    ensures
        match r {
            Ok(v) => spec_required_i64(opt_view(c), name@) == Ok::<i64, Seq<char>>(v),
            Err(e) => spec_required_i64(opt_view(c), name@) matches Err(m) && is_invalid_input(e, m),
        },
{
    match c {
        Some(Value::Integer(v)) => Ok(*v),
        _ => Err(invalid(message(name, " must be an integer"))),
    }
}

/// An integer, or `default` where there is none.
pub open spec fn spec_optional_i64(c: Option<Data>, default: i64, name: Seq<char>) -> Result<i64, Seq<char>> {
    match c {
        None => Ok(default),
        Some(_) => spec_required_i64(c, name),
    }
}

fn optional_i64(c: Option<&Value>, default: i64, name: &str) -> (r: Result<i64, Error>)
    ensures
        match r {
            Ok(v) => spec_optional_i64(opt_view(c), default, name@) == Ok::<i64, Seq<char>>(v),
            Err(e) => spec_optional_i64(opt_view(c), default, name@) matches Err(m) && is_invalid_input(e, m),
        },
{
    match c {
        None => Ok(default),
        Some(_) => required_i64(c, name),
    }
}

/// An integer that fits in `u32`, or `default` where there is none.
pub open spec fn spec_nonnegative_u32(c: Option<Data>, default: u32, name: Seq<char>) -> Result<u32, Seq<char>> {
    match c {
        None => Ok(default),
        Some(_) => match spec_required_i64(c, name) {
            Err(m) => Err(m),
            Ok(v) => if 0 <= v <= u32::MAX {
                Ok(v as u32)
            } else {
                Err(name + " must be a nonnegative u32"@)
            },
        },
    }
}

fn nonnegative_u32(c: Option<&Value>, default: u32, name: &str) -> (r: Result<u32, Error>)
    ensures
        match r {
            Ok(v) => spec_nonnegative_u32(opt_view(c), default, name@) == Ok::<u32, Seq<char>>(v),
            Err(e) => spec_nonnegative_u32(opt_view(c), default, name@) matches Err(m) && is_invalid_input(e, m),
        },
{
    match c {
        None => Ok(default),
        Some(_) => {
            let v = match required_i64(c, name) {
                Ok(v) => v,
                Err(e) => {
                    return Err(e);
                },
            };
            if 0 <= v && v <= 0xffff_ffff {
                Ok(v as u32)
            } else {
                Err(invalid(message(name, " must be a nonnegative u32")))
            }
        },
    }
}

/// A positive integer that fits in `u32`, or `default` where there is none.
pub open spec fn spec_positive_u32(c: Option<Data>, default: u32, name: Seq<char>) -> Result<u32, Seq<char>> {
    match spec_nonnegative_u32(c, default, name) {
        Ok(v) => if v == 0 {
            Err(name + " must be positive"@)
        } else {
            Ok(v)
        },
        Err(m) => Err(m),
    }
}

fn positive_u32(c: Option<&Value>, default: u32, name: &str) -> (r: Result<u32, Error>)
    ensures
        match r {
            Ok(v) => spec_positive_u32(opt_view(c), default, name@) == Ok::<u32, Seq<char>>(v),
            Err(e) => spec_positive_u32(opt_view(c), default, name@) matches Err(m) && is_invalid_input(e, m),
        },
{
    let v = match nonnegative_u32(c, default, name) {
        Ok(v) => v,
        Err(e) => {
            return Err(e);
        },
    };
    if v == 0 {
        Err(invalid(message(name, " must be positive")))
    } else {
        Ok(v)
    }
}

/// A non-blank string, or nothing where there is none or it is null.
pub open spec fn spec_optional_string(c: Option<Data>, name: Seq<char>) -> Result<Option<Seq<char>>, Seq<char>> {
    match c {
        None => Ok(None),
        Some(Data::Null) => Ok(None),
        Some(Data::Text(v)) => if trim(v).len() > 0 {
            Ok(Some(v))
        } else {
            Err(name + " must be a nonempty string"@)
        },
        _ => Err(name + " must be a nonempty string"@),
    }
}

fn optional_string(c: Option<&Value>, name: &str) -> (r: Result<Option<String>, Error>)
    ensures
        match r {
            Ok(Some(v)) => spec_optional_string(opt_view(c), name@) == Ok::<Option<Seq<char>>, Seq<char>>(Some(v@)),
            Ok(None) => spec_optional_string(opt_view(c), name@) == Ok::<Option<Seq<char>>, Seq<char>>(None),
            Err(e) => spec_optional_string(opt_view(c), name@) matches Err(m) && is_invalid_input(e, m),
        },
{
    match c {
        None => Ok(None),
        Some(Value::Null) => Ok(None),
        Some(Value::String(v)) => {
            if trim_str(v.as_str()).len() > 0 {
                Ok(Some(v.clone()))
            } else {
                Err(invalid(message(name, " must be a nonempty string")))
            }
        },
        _ => Err(invalid(message(name, " must be a nonempty string"))),
    }
}

/// A non-blank string.
pub open spec fn nonblank_text(d: Data) -> bool {
    d matches Data::Text(v) && trim(v).len() > 0
}

/// A list of non-blank strings, or nothing where there is none.
pub open spec fn spec_string_list(c: Option<Data>, name: Seq<char>) -> Result<Option<Seq<Seq<char>>>, Seq<char>> {
    match c {
        None => Ok(None),
        Some(Data::List(vs)) => if forall|i: int| 0 <= i < vs.len() ==> nonblank_text(#[trigger] vs[i]) {
            Ok(Some(vs.map_values(|d: Data| d->Text_0)))
        } else {
            Err(name + " entries must be nonempty strings"@)
        },
        Some(_) => Err(name + " must be a list"@),
    }
}

pub open spec fn strings_of(v: Seq<String>) -> Seq<Seq<char>> {
    v.map_values(|s: String| s@)
}

fn string_list(c: Option<&Value>, name: &str) -> (r: Result<Option<Vec<String>>, Error>)
    ensures
        match r {
            Ok(Some(v)) => spec_string_list(opt_view(c), name@) == Ok::<Option<Seq<Seq<char>>>, Seq<char>>(
                Some(strings_of(v@)),
            ),
            Ok(None) => spec_string_list(opt_view(c), name@) == Ok::<Option<Seq<Seq<char>>>, Seq<char>>(None),
            Err(e) => spec_string_list(opt_view(c), name@) matches Err(m) && is_invalid_input(e, m),
        },
{
    match c {
        None => Ok(None),
        Some(Value::List(values)) => {
            let ghost vs = data_of(Value::List(*values))->List_0;
            let mut out: Vec<String> = Vec::new();
            let mut i: usize = 0;
            while i < values.len()
                invariant
                    i <= values.len(),
                    vs == data_of(Value::List(*values))->List_0,
                    opt_view(c) == Some(Data::List(vs)),
                    vs.len() == values.len(),
                    forall|j: int| 0 <= j < values.len() ==> vs[j] == data_of(#[trigger] values@[j]),
                    forall|j: int| 0 <= j < i ==> nonblank_text(#[trigger] vs[j]),
                    strings_of(out@) == vs.take(i as int).map_values(|d: Data| d->Text_0),
                decreases values.len() - i,
            {
                match &values[i] {
                    Value::String(v) => {
                        if trim_str(v.as_str()).len() == 0 {
                            assert(!nonblank_text(vs[i as int]));
                            return Err(invalid(message(name, " entries must be nonempty strings")));
                        }
                        let ghost old_out = out@;
                        out.push(v.clone());
                        proof {
                            assert(vs[i as int] == Data::Text(v@));
                            assert(strings_of(out@) =~= strings_of(old_out).push(v@));
                            assert(vs.take(i as int + 1) =~= vs.take(i as int).push(vs[i as int]));
                            assert(strings_of(out@) =~= vs.take(i as int + 1).map_values(|d: Data| d->Text_0));
                        }
                    },
                    _ => {
                        assert(!nonblank_text(vs[i as int]));
                        return Err(invalid(message(name, " entries must be nonempty strings")));
                    },
                }
                i = i + 1;
            }
            proof {
                assert(vs.take(i as int) =~= vs);
            }
            Ok(Some(out))
        },
        Some(_) => Err(invalid(message(name, " must be a list"))),
    }
}

/// `n` finite numbers, or `default` where there are none.
pub open spec fn spec_number_array(c: Option<Data>, default: Seq<Number>, n: nat, name: Seq<char>) -> Result<
    Seq<Number>,
    Seq<char>,
> {
    match c {
        None => Ok(default),
        Some(Data::List(vs)) => if vs.len() != n {
            Err(name + " must contain "@ + decimal(n) + " numbers"@)
        } else if forall|i: int| 0 <= i < vs.len() ==> (#[trigger] finite_number(vs[i])) is Some {
            Ok(vs.map_values(|d: Data| finite_number(d)->Some_0))
        } else {
            Err(name + " entries must be finite numbers"@)
        },
        Some(_) => Err(name + " must be a list of "@ + decimal(n) + " numbers"@),
    }
}

fn count_message(name: &str, middle: &str, n: usize, tail: &str) -> (r: Vec<char>)
    ensures
        r@ == name@ + middle@ + decimal(n as nat) + tail@,
{
    let mut m = chars_of(name);
    push_str(&mut m, middle);
    push_all(&mut m, &format_u64(n as u64));
    push_str(&mut m, tail);
    m
}

fn number_of(v: &Value) -> (r: Option<Number>)
    ensures
        r == finite_number(data_of(*v)),
{
    match v {
        Value::Integer(i) => Some(Number::Integer(*i)),
        Value::Number(bits) => if float_is_finite(*bits) {
            Some(Number::Float(*bits))
        } else {
            None
        },
        _ => None,
    }
}

fn number_array(c: Option<&Value>, default: Vec<Number>, n: usize, name: &str) -> (r: Result<Vec<Number>, Error>)
    ensures
        match r {
            Ok(v) => spec_number_array(opt_view(c), default@, n as nat, name@) == Ok::<Seq<Number>, Seq<char>>(v@),
            Err(e) => spec_number_array(opt_view(c), default@, n as nat, name@) matches Err(m) && is_invalid_input(e, m),
        },
{
    match c {
        None => Ok(default),
        Some(Value::List(values)) => {
            let ghost vs = data_of(Value::List(*values))->List_0;
            if values.len() != n {
                return Err(invalid(count_message(name, " must contain ", n, " numbers")));
            }
            let mut out: Vec<Number> = Vec::new();
            let mut i: usize = 0;
            while i < values.len()
                invariant
                    i <= values.len(),
                    vs == data_of(Value::List(*values))->List_0,
                    opt_view(c) == Some(Data::List(vs)),
                    vs.len() == values.len(),
                    values.len() == n,
                    forall|j: int| 0 <= j < values.len() ==> vs[j] == data_of(#[trigger] values@[j]),
                    forall|j: int| 0 <= j < i ==> (#[trigger] finite_number(vs[j])) is Some,
                    out@ == vs.take(i as int).map_values(|d: Data| finite_number(d)->Some_0),
                decreases values.len() - i,
            {
                match number_of(&values[i]) {
                    Some(x) => {
                        proof {
                            assert(vs.take(i as int + 1) =~= vs.take(i as int).push(vs[i as int]));
                        }
                        out.push(x);
                        proof {
                            assert(out@ =~= vs.take(i as int + 1).map_values(|d: Data| finite_number(d)->Some_0));
                        }
                    },
                    None => {
                        assert(finite_number(vs[i as int]) is None);
                        return Err(invalid(message(name, " entries must be finite numbers")));
                    },
                }
                i = i + 1;
            }
            proof {
                assert(vs.take(i as int) =~= vs);
            }
            Ok(out)
        },
        Some(_) => Err(invalid(count_message(name, " must be a list of ", n, " numbers"))),
    }
}

/// An entry of an integer array: a `u32`.
pub open spec fn integer_entry(d: Data, name: Seq<char>) -> Result<u32, Seq<char>> {
    match d {
        Data::Integer(v) => if 0 <= v <= u32::MAX {
            Ok(v as u32)
        } else {
            Err(name + " entries must be nonnegative u32"@)
        },
        _ => Err(name + " entries must be integers"@),
    }
}

/// The entries of an integer array in order; the first bad one decides the
/// error.
pub open spec fn integer_entries(vs: Seq<Data>, name: Seq<char>) -> Result<Seq<u32>, Seq<char>>
    decreases vs.len(),
{
    if vs.len() == 0 {
        Ok(seq![])
    } else {
        match integer_entries(vs.drop_last(), name) {
            Err(m) => Err(m),
            Ok(xs) => match integer_entry(vs.last(), name) {
                Err(m) => Err(m),
                Ok(x) => Ok(xs.push(x)),
            },
        }
    }
}

/// `n` integers that fit in `u32`.
pub open spec fn spec_integer_array(c: Data, n: nat, name: Seq<char>) -> Result<Seq<u32>, Seq<char>> {
    match c {
        Data::List(vs) => if vs.len() != n {
            Err(name + " must contain "@ + decimal(n) + " integers"@)
        } else {
            integer_entries(vs, name)
        },
        _ => Err(name + " must be a list of "@ + decimal(n) + " integers"@),
    }
}

proof fn lemma_entries_len(vs: Seq<Data>, name: Seq<char>)
    ensures
        integer_entries(vs, name) matches Ok(xs) ==> xs.len() == vs.len(),
    decreases vs.len(),
{
    if vs.len() > 0 {
        lemma_entries_len(vs.drop_last(), name);
    }
}

proof fn lemma_entries_error_stays(vs: Seq<Data>, k: int, name: Seq<char>)
    requires
        0 <= k <= vs.len(),
        integer_entries(vs.take(k), name) is Err,
    ensures
        integer_entries(vs, name) == integer_entries(vs.take(k), name),
    decreases vs.len() - k,
{
    if k < vs.len() {
        assert(vs.take(k + 1).drop_last() =~= vs.take(k));
        lemma_entries_error_stays(vs, k + 1, name);
    } else {
        assert(vs.take(k) =~= vs);
    }
}

fn integer_array(c: &Value, n: usize, name: &str) -> (r: Result<Vec<u32>, Error>)
    ensures
        match r {
            Ok(v) => spec_integer_array(data_of(*c), n as nat, name@) == Ok::<Seq<u32>, Seq<char>>(v@),
            Err(e) => spec_integer_array(data_of(*c), n as nat, name@) matches Err(m) && is_invalid_input(e, m),
        },
{
    match c {
        Value::List(values) => {
            let ghost vs = data_of(Value::List(*values))->List_0;
            if values.len() != n {
                return Err(invalid(count_message(name, " must contain ", n, " integers")));
            }
            let mut out: Vec<u32> = Vec::new();
            let mut i: usize = 0;
            proof {
                assert(vs.take(0) =~= Seq::<Data>::empty());
            }
            while i < values.len()
                invariant
                    i <= values.len(),
                    vs == data_of(Value::List(*values))->List_0,
                    data_of(*c) == Data::List(vs),
                    vs.len() == values.len(),
                    values.len() == n,
                    forall|j: int| 0 <= j < values.len() ==> vs[j] == data_of(#[trigger] values@[j]),
                    integer_entries(vs.take(i as int), name@) == Ok::<Seq<u32>, Seq<char>>(out@),
                decreases values.len() - i,
            {
                proof {
                    assert(vs.take(i as int + 1).drop_last() =~= vs.take(i as int));
                    assert(vs.take(i as int + 1).last() == vs[i as int]);
                }
                match &values[i] {
                    Value::Integer(v) => {
                        if *v < 0 || *v > 0xffff_ffff {
                            proof {
                                lemma_entries_error_stays(vs, i as int + 1, name@);
                            }
                            return Err(invalid(message(name, " entries must be nonnegative u32")));
                        }
                        out.push(*v as u32);
                    },
                    _ => {
                        proof {
                            lemma_entries_error_stays(vs, i as int + 1, name@);
                        }
                        return Err(invalid(message(name, " entries must be integers")));
                    },
                }
                i = i + 1;
            }
            proof {
                assert(vs.take(i as int) =~= vs);
            }
            Ok(out)
        },
        _ => Err(invalid(count_message(name, " must be a list of ", n, " integers"))),
    }
}

/// A position: a record with integer `x` and `y`.
pub open spec fn spec_position(c: Data, name: Seq<char>) -> Result<Position, Seq<char>> {
    match c {
        Data::Record(f) => match spec_required_i64(field_get(f, "x"@), name + ".x"@) {
            Err(m) => Err(m),
            Ok(x) => match spec_required_i64(field_get(f, "y"@), name + ".y"@) {
                Err(m) => Err(m),
                Ok(y) => Ok(Position { x, y }),
            },
        },
        _ => Err(name + " must be a record"@),
    }
}

fn position_value(c: &Value, name: &str) -> (r: Result<Position, Error>)
    ensures
        match r {
            Ok(p) => spec_position(data_of(*c), name@) == Ok::<Position, Seq<char>>(p),
            Err(e) => spec_position(data_of(*c), name@) matches Err(m) && is_invalid_input(e, m),
        },
{
    match c {
        Value::Record(fields) => {
            proof {
                lemma_record_data(*fields);
            }
            let xn = string_of(&message(name, ".x"));
            let x = match required_i64(field_of(fields, "x"), xn.as_str()) {
                Ok(x) => x,
                Err(e) => {
                    return Err(e);
                },
            };
            let yn = string_of(&message(name, ".y"));
            let y = match required_i64(field_of(fields, "y"), yn.as_str()) {
                Ok(y) => y,
                Err(e) => {
                    return Err(e);
                },
            };
            Ok(Position { x, y })
        },
        _ => Err(invalid(message(name, " must be a record"))),
    }
}

// ---------------------------------------------------------------------------
// Scene blocks
// ---------------------------------------------------------------------------
/// The double `1.0`, by its bits.
pub open spec fn one_bits() -> u64 {
    0x3FF0_0000_0000_0000
}

/// One sprite of a scene block.
#[derive(Clone, Debug, PartialEq)]
pub struct SceneItem {
    pub id: String,
    pub asset: String,
    pub frames: Vec<String>,
    pub frame_ms: u32,
    pub phase_ms: u32,
    pub anchor: Position,
    pub offset: [Number; 2],
    pub layer: String,
    pub order: i64,
    pub tint: [Number; 4],
    pub hit_id: Option<String>,
    pub clips: Vec<Position>,
    pub crop: Option<[u32; 4]>,
    pub masks: Vec<String>,
    pub opacity: u8,
}

/// The mathematical form of a scene item.
pub struct SceneItemView {
    pub id: Seq<char>,
    pub asset: Seq<char>,
    pub frames: Seq<Seq<char>>,
    pub frame_ms: u32,
    pub phase_ms: u32,
    pub anchor: Position,
    pub offset: Seq<Number>,
    pub layer: Seq<char>,
    pub order: i64,
    pub tint: Seq<Number>,
    pub hit_id: Option<Seq<char>>,
    pub clips: Seq<Position>,
    pub crop: Option<Seq<u32>>,
    pub masks: Seq<Seq<char>>,
    pub opacity: u8,
}

pub open spec fn opt_string_view(o: Option<String>) -> Option<Seq<char>> {
    match o {
        Some(s) => Some(s@),
        None => None,
    }
}

pub open spec fn scene_item_view(i: SceneItem) -> SceneItemView {
    SceneItemView {
        id: i.id@,
        asset: i.asset@,
        frames: strings_of(i.frames@),
        frame_ms: i.frame_ms,
        phase_ms: i.phase_ms,
        anchor: i.anchor,
        offset: i.offset@,
        layer: i.layer@,
        order: i.order,
        tint: i.tint@,
        hit_id: opt_string_view(i.hit_id),
        clips: i.clips@,
        crop: match i.crop {
            Some(c) => Some(c@),
            None => None,
        },
        masks: strings_of(i.masks@),
        opacity: i.opacity,
    }
}

/// The positions of a list; the first bad one decides the error.
pub open spec fn positions_in(cs: Seq<Data>, name: Seq<char>) -> Result<Seq<Position>, Seq<char>>
    decreases cs.len(),
{
    if cs.len() == 0 {
        Ok(seq![])
    } else {
        match positions_in(cs.drop_last(), name) {
            Err(m) => Err(m),
            Ok(ps) => match spec_position(cs.last(), name) {
                Err(m) => Err(m),
                Ok(p) => Ok(ps.push(p)),
            },
        }
    }
}

/// The clip positions of a scene item: none where the field is absent.
pub open spec fn spec_clips(c: Option<Data>) -> Result<Seq<Position>, Seq<char>> {
    match c {
        None => Ok(seq![]),
        Some(Data::List(cs)) => positions_in(cs, "scene item clip"@),
        Some(_) => Err("scene item clips must be a list"@),
    }
}

/// The crop rectangle of a scene item: four `u32`, the last two positive.
pub open spec fn spec_crop(c: Option<Data>) -> Result<Option<Seq<u32>>, Seq<char>> {
    match c {
        None => Ok(None),
        Some(v) => match spec_integer_array(v, 4, "scene item crop"@) {
            Err(m) => Err(m),
            Ok(vals) => if vals[2] == 0 || vals[3] == 0 {
                Err("scene item crop dimensions must be positive"@)
            } else {
                Ok(Some(vals))
            },
        },
    }
}

/// The frames of a scene item: the list given, or its asset alone.
pub open spec fn frames_or_asset(f: Fields) -> Seq<Seq<char>> {
    match spec_string_list(field_get(f, "frames"@), "scene item frames"@)->Ok_0 {
        Some(v) => v,
        None => seq![spec_string_field(f, "asset"@, "scene item asset"@)->Ok_0],
    }
}

/// One scene item, read from a record, its id new among `ids`; the checks
/// run in field order and the first that fails decides the error.
pub open spec fn spec_scene_item(c: Data, ids: Set<Seq<char>>) -> Result<(SceneItemView, Set<Seq<char>>), Seq<char>> {
    match c {
        Data::Record(f) => {
            let id = spec_string_field(f, "id"@, "scene item id"@);
            let asset = spec_string_field(f, "asset"@, "scene item asset"@);
            let frames = spec_string_list(field_get(f, "frames"@), "scene item frames"@);
            let frame_ms = spec_positive_u32(field_get(f, "frame_ms"@), 1, "scene item frame_ms"@);
            let phase_ms = spec_nonnegative_u32(field_get(f, "phase_ms"@), 0, "scene item phase_ms"@);
            let anchor = match field_get(f, "anchor"@) {
                None => Err("scene item has no anchor"@),
                Some(a) => spec_position(a, "scene item anchor"@),
            };
            let offset = spec_number_array(
                field_get(f, "offset"@),
                seq![Number::Float(0), Number::Float(0)],
                2,
                "scene item offset"@,
            );
            let layer = spec_string_field(f, "layer"@, "scene item layer"@);
            let order = spec_optional_i64(field_get(f, "order"@), 0, "scene item order"@);
            let tint = spec_number_array(
                field_get(f, "tint"@),
                seq![Number::Float(one_bits()), Number::Float(one_bits()), Number::Float(one_bits()), Number::Float(one_bits())],
                4,
                "scene item tint"@,
            );
            let hit_id = spec_optional_string(field_get(f, "hit_id"@), "scene item hit_id"@);
            let clips = spec_clips(field_get(f, "clips"@));
            let crop = spec_crop(field_get(f, "crop"@));
            let masks = spec_string_list(field_get(f, "masks"@), "scene item masks"@);
            let opacity = spec_nonnegative_u32(field_get(f, "opacity"@), 255, "scene item opacity"@);
            if id is Err {
                Err(id->Err_0)
            } else if ids.contains(id->Ok_0) {
                Err("duplicate scene item id: "@ + id->Ok_0)
            } else if asset is Err {
                Err(asset->Err_0)
            } else if frames is Err {
                Err(frames->Err_0)
            } else if frames_or_asset(f).len() == 0 || frames_or_asset(f)[0] != asset->Ok_0 {
                Err("scene item frames must start with its primary asset"@)
            } else if frame_ms is Err {
                Err(frame_ms->Err_0)
            } else if phase_ms is Err {
                Err(phase_ms->Err_0)
            } else if anchor is Err {
                Err(anchor->Err_0)
            } else if offset is Err {
                Err(offset->Err_0)
            } else if layer is Err {
                Err(layer->Err_0)
            } else if order is Err {
                Err(order->Err_0)
            } else if tint is Err {
                Err(tint->Err_0)
            } else if !(forall|k: int| 0 <= k < 4 ==> in_unit_range(#[trigger] tint->Ok_0[k])) {
                Err("scene item tint components must be within 0..=1"@)
            } else if hit_id is Err {
                Err(hit_id->Err_0)
            } else if clips is Err {
                Err(clips->Err_0)
            } else if crop is Err {
                Err(crop->Err_0)
            } else if masks is Err {
                Err(masks->Err_0)
            } else if opacity is Err {
                Err(opacity->Err_0)
            } else if opacity->Ok_0 > 255 {
                Err("scene item opacity must be within 0..=255"@)
            } else {
                Ok(
                    (
                        SceneItemView {
                            id: id->Ok_0,
                            asset: asset->Ok_0,
                            frames: frames_or_asset(f),
                            frame_ms: frame_ms->Ok_0,
                            phase_ms: phase_ms->Ok_0,
                            anchor: anchor->Ok_0,
                            offset: offset->Ok_0,
                            layer: layer->Ok_0,
                            order: order->Ok_0,
                            tint: tint->Ok_0,
                            hit_id: hit_id->Ok_0,
                            clips: clips->Ok_0,
                            crop: crop->Ok_0,
                            masks: match masks->Ok_0 {
                                Some(m) => m,
                                None => seq![],
                            },
                            opacity: opacity->Ok_0 as u8,
                        },
                        ids.insert(id->Ok_0),
                    ),
                )
            }
        },
        _ => Err("scene item must be a record"@),
    }
}

proof fn lemma_positions_error_stays(cs: Seq<Data>, k: int, name: Seq<char>)
    requires
        0 <= k <= cs.len(),
        positions_in(cs.take(k), name) is Err,
    ensures
        positions_in(cs, name) == positions_in(cs.take(k), name),
    decreases cs.len() - k,
{
    if k < cs.len() {
        assert(cs.take(k + 1).drop_last() =~= cs.take(k));
        lemma_positions_error_stays(cs, k + 1, name);
    } else {
        assert(cs.take(k) =~= cs);
    }
}

fn clips_of(c: Option<&Value>) -> (r: Result<Vec<Position>, Error>)
    ensures
        match r {
            Ok(v) => spec_clips(opt_view(c)) == Ok::<Seq<Position>, Seq<char>>(v@),
            Err(e) => spec_clips(opt_view(c)) matches Err(m) && is_invalid_input(e, m),
        },
{
    match c {
        None => Ok(Vec::new()),
        Some(Value::List(values)) => {
            let ghost vs = data_of(Value::List(*values))->List_0;
            let mut out: Vec<Position> = Vec::new();
            let mut i: usize = 0;
            proof {
                assert(vs.take(0) =~= Seq::<Data>::empty());
            }
            while i < values.len()
                invariant
                    i <= values.len(),
                    vs == data_of(Value::List(*values))->List_0,
                    opt_view(c) == Some(Data::List(vs)),
                    vs.len() == values.len(),
                    forall|j: int| 0 <= j < values.len() ==> vs[j] == data_of(#[trigger] values@[j]),
                    positions_in(vs.take(i as int), "scene item clip"@) == Ok::<Seq<Position>, Seq<char>>(out@),
                decreases values.len() - i,
            {
                proof {
                    assert(vs.take(i as int + 1).drop_last() =~= vs.take(i as int));
                    assert(vs.take(i as int + 1).last() == vs[i as int]);
                }
                match position_value(&values[i], "scene item clip") {
                    Ok(p) => {
                        out.push(p);
                    },
                    Err(e) => {
                        proof {
                            lemma_positions_error_stays(vs, i as int + 1, "scene item clip"@);
                        }
                        return Err(e);
                    },
                }
                i = i + 1;
            }
            proof {
                assert(vs.take(i as int) =~= vs);
            }
            Ok(out)
        },
        Some(_) => Err(invalid(chars_of("scene item clips must be a list"))),
    }
}

fn crop_of(c: Option<&Value>) -> (r: Result<Option<[u32; 4]>, Error>)
    ensures
        match r {
            Ok(Some(v)) => spec_crop(opt_view(c)) == Ok::<Option<Seq<u32>>, Seq<char>>(Some(v@)),
            Ok(None) => spec_crop(opt_view(c)) == Ok::<Option<Seq<u32>>, Seq<char>>(None),
            Err(e) => spec_crop(opt_view(c)) matches Err(m) && is_invalid_input(e, m),
        },
{
    match c {
        None => Ok(None),
        Some(v) => {
            let values = match integer_array(v, 4, "scene item crop") {
                Ok(values) => values,
                Err(e) => {
                    return Err(e);
                },
            };
            proof {
                lemma_entries_len(data_of(*v)->List_0, "scene item crop"@);
            }
            if values[2] == 0 || values[3] == 0 {
                return Err(invalid(chars_of("scene item crop dimensions must be positive")));
            }
            let a = [values[0], values[1], values[2], values[3]];
            assert(a@ =~= values@);
            Ok(Some(a))
        },
    }
}

/// The ids taken so far.
pub open spec fn id_set(ids: Seq<String>) -> Set<Seq<char>> {
    ids.map_values(|s: String| s@).to_set()
}

fn contains_id(ids: &Vec<String>, id: &str) -> (r: bool)
    ensures
        r == id_set(ids@).contains(id@),
{
    let mut i: usize = 0;
    while i < ids.len()
        invariant
            i <= ids.len(),
            forall|j: int| 0 <= j < i ==> ids@[j]@ != id@,
        decreases ids.len() - i,
    {
        if str_eq(ids[i].as_str(), id) {
            assert(ids@.map_values(|s: String| s@)[i as int] == id@);
            return true;
        }
        i = i + 1;
    }
    proof {
        let names = ids@.map_values(|s: String| s@);
        if id_set(ids@).contains(id@) {
            let k = choose|k: int| 0 <= k < names.len() && #[trigger] names[k] == id@;
            assert(ids@[k]@ == id@);
        }
    }
    false
}

fn add_id(ids: &mut Vec<String>, id: &str)
    ensures
        id_set(final(ids)@) == id_set(old(ids)@).insert(id@),
{
    let ghost before = ids@;
    ids.push(String::from_str(id));
    proof {
        let a = ids@.map_values(|s: String| s@);
        let b = before.map_values(|s: String| s@);
        assert(a =~= b.push(id@));
        assert forall|x: Seq<char>| a.to_set().contains(x) <==> b.to_set().insert(id@).contains(x) by {
            if a.contains(x) {
                let k = choose|k: int| 0 <= k < a.len() && a[k] == x;
                if k < b.len() {
                    assert(b[k] == x);
                }
            }
            if b.contains(x) {
                let k = choose|k: int| 0 <= k < b.len() && b[k] == x;
                assert(a[k] == x);
            }
            if x == id@ {
                assert(a[b.len() as int] == x);
            }
        }
        assert(id_set(ids@) =~= id_set(before).insert(id@));
    }
}

/// Reads one scene item; its id must be new among `ids`, and is added to
/// them.
fn parse_scene_item(candidate: &Value, ids: &mut Vec<String>) -> (r: Result<SceneItem, Error>)
    ensures
        match r {
            Ok(item) => spec_scene_item(data_of(*candidate), id_set(old(ids)@)) == Ok::<
                (SceneItemView, Set<Seq<char>>),
                Seq<char>,
            >((scene_item_view(item), id_set(final(ids)@))),
            Err(e) => spec_scene_item(data_of(*candidate), id_set(old(ids)@)) matches Err(m)
                && is_invalid_input(e, m),
        },
{
    let fields = match candidate {
        Value::Record(f) => f,
        _ => {
            return Err(invalid(chars_of("scene item must be a record")));
        },
    };
    proof {
        lemma_record_data(*fields);
    }
    let ghost f = fields_of(fields@);
    let item_id = match string_field(fields, "id", "scene item id") {
        Ok(v) => v,
        Err(e) => {
            return Err(e);
        },
    };
    if contains_id(ids, item_id) {
        return Err(invalid(message("duplicate scene item id: ", item_id)));
    }
    add_id(ids, item_id);
    let asset = match string_field(fields, "asset", "scene item asset") {
        Ok(v) => String::from_str(v),
        Err(e) => {
            return Err(e);
        },
    };
    let frames = match string_list(field_of(fields, "frames"), "scene item frames") {
        Ok(Some(v)) => v,
        Ok(None) => {
            let mut v: Vec<String> = Vec::new();
            v.push(asset.clone());
            assert(strings_of(v@) =~= seq![asset@]);
            v
        },
        Err(e) => {
            return Err(e);
        },
    };
    assert(strings_of(frames@) == frames_or_asset(f));
    if frames.len() == 0 || !str_eq(frames[0].as_str(), asset.as_str()) {
        proof {
            if frames.len() > 0 {
                assert(frames_or_asset(f)[0] == frames@[0]@);
            }
        }
        return Err(invalid(chars_of("scene item frames must start with its primary asset")));
    }
    let frame_ms = match positive_u32(field_of(fields, "frame_ms"), 1, "scene item frame_ms") {
        Ok(v) => v,
        Err(e) => {
            return Err(e);
        },
    };
    let phase_ms = match nonnegative_u32(field_of(fields, "phase_ms"), 0, "scene item phase_ms") {
        Ok(v) => v,
        Err(e) => {
            return Err(e);
        },
    };
    let anchor = match field_of(fields, "anchor") {
        None => {
            return Err(invalid(chars_of("scene item has no anchor")));
        },
        Some(a) => match position_value(a, "scene item anchor") {
            Ok(p) => p,
            Err(e) => {
                return Err(e);
            },
        },
    };
    let mut zero: Vec<Number> = Vec::new();
    zero.push(Number::Float(0));
    zero.push(Number::Float(0));
    assert(zero@ =~= seq![Number::Float(0), Number::Float(0)]);
    let offset = match number_array(field_of(fields, "offset"), zero, 2, "scene item offset") {
        Ok(v) => v,
        Err(e) => {
            return Err(e);
        },
    };
    let layer = match string_field(fields, "layer", "scene item layer") {
        Ok(v) => String::from_str(v),
        Err(e) => {
            return Err(e);
        },
    };
    let order = match optional_i64(field_of(fields, "order"), 0, "scene item order") {
        Ok(v) => v,
        Err(e) => {
            return Err(e);
        },
    };
    let one = Number::Float(0x3FF0_0000_0000_0000);
    let mut full: Vec<Number> = Vec::new();
    full.push(one);
    full.push(one);
    full.push(one);
    full.push(one);
    assert(full@ =~= seq![Number::Float(one_bits()), Number::Float(one_bits()), Number::Float(one_bits()), Number::Float(one_bits())]);
    let tint = match number_array(field_of(fields, "tint"), full, 4, "scene item tint") {
        Ok(v) => v,
        Err(e) => {
            return Err(e);
        },
    };
    if !unit_range(tint[0]) || !unit_range(tint[1]) || !unit_range(tint[2]) || !unit_range(tint[3]) {
        return Err(invalid(chars_of("scene item tint components must be within 0..=1")));
    }
    assert forall|j: int| 0 <= j < 4 implies in_unit_range(#[trigger] tint@[j]) by {
        if j == 0 {
        } else if j == 1 {
        } else if j == 2 {
        } else {
        }
    }
    let hit_id = match optional_string(field_of(fields, "hit_id"), "scene item hit_id") {
        Ok(v) => v,
        Err(e) => {
            return Err(e);
        },
    };
    let clips = match clips_of(field_of(fields, "clips")) {
        Ok(v) => v,
        Err(e) => {
            return Err(e);
        },
    };
    let crop = match crop_of(field_of(fields, "crop")) {
        Ok(v) => v,
        Err(e) => {
            return Err(e);
        },
    };
    let masks = match string_list(field_of(fields, "masks"), "scene item masks") {
        Ok(Some(v)) => v,
        Ok(None) => Vec::new(),
        Err(e) => {
            return Err(e);
        },
    };
    let opacity = match nonnegative_u32(field_of(fields, "opacity"), 255, "scene item opacity") {
        Ok(v) => v,
        Err(e) => {
            return Err(e);
        },
    };
    if opacity > 255 {
        return Err(invalid(chars_of("scene item opacity must be within 0..=255")));
    }
    let item = SceneItem {
        id: String::from_str(item_id),
        asset,
        frames,
        frame_ms,
        phase_ms,
        anchor,
        offset: [offset[0], offset[1]],
        layer,
        order,
        tint: [tint[0], tint[1], tint[2], tint[3]],
        hit_id,
        clips,
        crop,
        masks,
        opacity: opacity as u8,
    };
    proof {
        assert(item.offset@ =~= offset@);
        assert(item.tint@ =~= tint@);
        assert(strings_of(item.masks@) =~= match spec_string_list(field_get(f, "masks"@), "scene item masks"@)->Ok_0 {
            Some(m) => m,
            None => seq![],
        });
    }
    Ok(item)
}

/// Scene items in order, their ids new and distinct; the first bad one
/// decides the error.
pub open spec fn spec_scene_items(items: Seq<Data>, ids: Set<Seq<char>>) -> Result<
    (Seq<SceneItemView>, Set<Seq<char>>),
    Seq<char>,
>
    decreases items.len(),
{
    if items.len() == 0 {
        Ok((seq![], ids))
    } else {
        match spec_scene_items(items.drop_last(), ids) {
            Err(m) => Err(m),
            Ok((xs, ids2)) => match spec_scene_item(items.last(), ids2) {
                Err(m) => Err(m),
                Ok((x, ids3)) => Ok((xs.push(x), ids3)),
            },
        }
    }
}

/// A record declares the schema `name`.
pub open spec fn schema_is(f: Fields, name: Seq<char>) -> bool {
    field_get(f, "schema"@) == Some(Data::Text(name))
}

/// The items of a scene block: a record of the `scene` schema with a list
/// of items.
pub open spec fn spec_scene_block(d: Data) -> Result<Seq<SceneItemView>, Seq<char>> {
    match d {
        Data::Record(f) => if !schema_is(f, "scene"@) {
            Err("scene block must declare the scene schema"@)
        } else {
            match field_get(f, "items"@) {
                Some(Data::List(items)) => match spec_scene_items(items, Set::empty()) {
                    Ok((xs, _)) => Ok(xs),
                    Err(m) => Err(m),
                },
                _ => Err("scene block items must be a list"@),
            }
        },
        _ => Err("scene block must be a record"@),
    }
}

proof fn lemma_scene_error_stays(items: Seq<Data>, k: int, ids: Set<Seq<char>>)
    requires
        0 <= k <= items.len(),
        spec_scene_items(items.take(k), ids) is Err,
    ensures
        spec_scene_items(items, ids) == spec_scene_items(items.take(k), ids),
    decreases items.len() - k,
{
    if k < items.len() {
        assert(items.take(k + 1).drop_last() =~= items.take(k));
        lemma_scene_error_stays(items, k + 1, ids);
    } else {
        assert(items.take(k) =~= items);
    }
}

/// Whether a value is a string equal to `s`.
fn is_text(v: Option<&Value>, s: &str) -> (r: bool)
    ensures
        r == (opt_view(v) == Some(Data::Text(s@))),
{
    match v {
        Some(Value::String(t)) => str_eq(t.as_str(), s),
        _ => false,
    }
}

pub open spec fn scene_items_view(v: Seq<SceneItem>) -> Seq<SceneItemView> {
    v.map_values(|i: SceneItem| scene_item_view(i))
}

/// Reads a scene block.
pub fn scene_block(value: &Value) -> (r: Result<Vec<SceneItem>, Error>)
    ensures
        match r {
            Ok(items) => spec_scene_block(data_of(*value)) == Ok::<Seq<SceneItemView>, Seq<char>>(
                scene_items_view(items@),
            ),
            Err(e) => spec_scene_block(data_of(*value)) matches Err(m) && is_invalid_input(e, m),
        },
{
    let block = match value {
        Value::Record(b) => b,
        _ => {
            return Err(invalid(chars_of("scene block must be a record")));
        },
    };
    proof {
        lemma_record_data(*block);
    }
    if !is_text(field_of(block, "schema"), "scene") {
        return Err(invalid(chars_of("scene block must declare the scene schema")));
    }
    let items = match field_of(block, "items") {
        Some(Value::List(items)) => items,
        _ => {
            return Err(invalid(chars_of("scene block items must be a list")));
        },
    };
    let ghost vs = data_of(Value::List(*items))->List_0;
    let mut ids: Vec<String> = Vec::new();
    let mut out: Vec<SceneItem> = Vec::new();
    let mut i: usize = 0;
    proof {
        assert(vs.take(0) =~= Seq::<Data>::empty());
        assert(id_set(ids@) =~= Set::<Seq<char>>::empty());
        assert(scene_items_view(out@) =~= Seq::<SceneItemView>::empty());
    }
    while i < items.len()
        invariant
            i <= items.len(),
            vs == data_of(Value::List(*items))->List_0,
            vs.len() == items.len(),
            field_get(fields_of(block@), "items"@) == Some(Data::List(vs)),
            data_of(*value) == Data::Record(fields_of(block@)),
            schema_is(fields_of(block@), "scene"@),
            forall|j: int| 0 <= j < items.len() ==> vs[j] == data_of(#[trigger] items@[j]),
            spec_scene_items(vs.take(i as int), Set::empty()) == Ok::<
                (Seq<SceneItemView>, Set<Seq<char>>),
                Seq<char>,
            >((scene_items_view(out@), id_set(ids@))),
        decreases items.len() - i,
    {
        proof {
            assert(vs.take(i as int + 1).drop_last() =~= vs.take(i as int));
            assert(vs.take(i as int + 1).last() == vs[i as int]);
        }
        match parse_scene_item(&items[i], &mut ids) {
            Ok(item) => {
                let ghost before = out@;
                out.push(item);
                proof {
                    assert(scene_items_view(out@) =~= scene_items_view(before).push(scene_item_view(item)));
                }
            },
            Err(e) => {
                proof {
                    lemma_scene_error_stays(vs, i as int + 1, Set::empty());
                }
                return Err(e);
            },
        }
        i = i + 1;
    }
    proof {
        assert(vs.take(i as int) =~= vs);
    }
    Ok(out)
}

// ---------------------------------------------------------------------------
// User-interface blocks
// ---------------------------------------------------------------------------
/// An action that a button or a list item asks for.
#[derive(Clone, Debug, PartialEq)]
pub struct Action {
    pub action: String,
    pub payload: Value,
}

/// One node of a user-interface block.
#[derive(Debug, PartialEq)]
pub struct UiNode {
    pub id: String,
    pub kind: UiKind,
    pub text: Option<String>,
    pub asset: Option<String>,
    pub grow: Number,
    pub enabled: bool,
    pub action: Option<Action>,
    pub children: Vec<UiNode>,
}

/// The mathematical form of a node.
pub struct UiNodeView {
    pub id: Seq<char>,
    pub kind: UiKind,
    pub text: Option<Seq<char>>,
    pub asset: Option<Seq<char>>,
    pub grow: Number,
    pub enabled: bool,
    pub action: Option<(Seq<char>, Data)>,
    pub children: Seq<UiNodeView>,
}

pub open spec fn action_view(a: Option<Action>) -> Option<(Seq<char>, Data)> {
    match a {
        Some(x) => Some((x.action@, data_of(x.payload))),
        None => None,
    }
}

pub open spec fn ui_node_view(n: UiNode) -> UiNodeView
    decreases n,
{
    UiNodeView {
        id: n.id@,
        kind: n.kind,
        text: opt_string_view(n.text),
        asset: opt_string_view(n.asset),
        grow: n.grow,
        enabled: n.enabled,
        action: action_view(n.action),
        children: Seq::new(
            n.children@.len(),
            |i: int|
                if 0 <= i < n.children@.len() {
                    ui_node_view(n.children@[i])
                } else {
                    UiNodeView {
                        id: seq![],
                        kind: UiKind::Row,
                        text: None,
                        asset: None,
                        grow: Number::Integer(0),
                        enabled: false,
                        action: None,
                        children: seq![],
                    }
                },
        ),
    }
}

/// The kind a node names.
pub open spec fn spec_ui_kind(k: Seq<char>) -> Option<UiKind> {
    if k == "row"@ {
        Some(UiKind::Row)
    } else if k == "column"@ {
        Some(UiKind::Column)
    } else if k == "panel"@ {
        Some(UiKind::Panel)
    } else if k == "text"@ {
        Some(UiKind::Text)
    } else if k == "image"@ {
        Some(UiKind::Image)
    } else if k == "button"@ {
        Some(UiKind::Button)
    } else if k == "list"@ {
        Some(UiKind::List)
    } else if k == "progress"@ {
        Some(UiKind::Progress)
    } else if k == "tooltip"@ {
        Some(UiKind::Tooltip)
    } else {
        None
    }
}

/// The action of a node: a record with an action name and a payload.
pub open spec fn spec_ui_action(c: Option<Data>) -> Result<Option<(Seq<char>, Data)>, Seq<char>> {
    match c {
        None => Ok(None),
        Some(Data::Record(a)) => match spec_string_field(a, "action"@, "UI action"@) {
            Err(m) => Err(m),
            Ok(name) => match field_get(a, "payload"@) {
                Some(p) => Ok(Some((name, p))),
                None => Err("UI action has no payload"@),
            },
        },
        Some(_) => Err("UI action must be a record"@),
    }
}

pub open spec fn spec_ui_text(c: Option<Data>) -> Result<Option<Seq<char>>, Seq<char>> {
    match c {
        None => Ok(None),
        Some(Data::Text(t)) => Ok(Some(t)),
        Some(_) => Err("UI node text must be a string"@),
    }
}

pub open spec fn spec_ui_asset(c: Option<Data>) -> Result<Option<Seq<char>>, Seq<char>> {
    match c {
        None => Ok(None),
        Some(Data::Text(a)) => if a.len() > 0 {
            Ok(Some(a))
        } else {
            Err("UI node asset must not be empty"@)
        },
        Some(_) => Err("UI node asset must be a string"@),
    }
}

pub open spec fn spec_ui_grow(c: Option<Data>) -> Result<Number, Seq<char>> {
    match c {
        None => Ok(Number::Float(one_bits())),
        Some(Data::Integer(i)) => Ok(Number::Integer(i)),
        Some(Data::Number(bits)) => Ok(Number::Float(bits)),
        Some(_) => Err("UI node grow must be a number"@),
    }
}

pub open spec fn spec_ui_enabled(c: Option<Data>) -> Result<bool, Seq<char>> {
    match c {
        None => Ok(true),
        Some(Data::Bool(b)) => Ok(b),
        Some(_) => Err("UI node enabled must be a boolean"@),
    }
}

/// The fields of a node that are checked before its children; the checks
/// run in field order and the first that fails decides the error.
pub open spec fn spec_ui_head(f: Fields, ids: Set<Seq<char>>) -> Result<UiNodeView, Seq<char>> {
    let id = spec_string_field(f, "id"@, "UI node id"@);
    let kind = spec_string_field(f, "kind"@, "UI node kind"@);
    let text = spec_ui_text(field_get(f, "text"@));
    let asset = spec_ui_asset(field_get(f, "asset"@));
    let grow = spec_ui_grow(field_get(f, "grow"@));
    let enabled = spec_ui_enabled(field_get(f, "enabled"@));
    let action = spec_ui_action(field_get(f, "action"@));
    if id is Err {
        Err(id->Err_0)
    } else if ids.contains(id->Ok_0) {
        Err("duplicate UI node id: "@ + id->Ok_0)
    } else if kind is Err {
        Err(kind->Err_0)
    } else if spec_ui_kind(kind->Ok_0) is None {
        Err("unknown UI node kind: "@ + kind->Ok_0)
    } else if text is Err {
        Err(text->Err_0)
    } else if asset is Err {
        Err(asset->Err_0)
    } else if spec_ui_kind(kind->Ok_0) == Some(UiKind::Image) && asset->Ok_0 is None {
        Err("image UI node has no asset"@)
    } else if grow is Err {
        Err(grow->Err_0)
    } else if !positive_number(grow->Ok_0) {
        Err("UI node grow must be finite and positive"@)
    } else if enabled is Err {
        Err(enabled->Err_0)
    } else if action is Err {
        Err(action->Err_0)
    } else {
        Ok(
            UiNodeView {
                id: id->Ok_0,
                kind: spec_ui_kind(kind->Ok_0)->Some_0,
                text: text->Ok_0,
                asset: asset->Ok_0,
                grow: grow->Ok_0,
                enabled: enabled->Ok_0,
                action: action->Ok_0,
                children: seq![],
            },
        )
    }
}

/// One node and, after it, its children in order, every id new and
/// distinct.
pub open spec fn spec_ui_node(c: Data, ids: Set<Seq<char>>) -> Result<(UiNodeView, Set<Seq<char>>), Seq<char>>
    decreases c,
{
    match c {
        Data::Record(f) => match spec_ui_head(f, ids) {
            Err(m) => Err(m),
            Ok(head) => {
                let ids2 = ids.insert(head.id);
                match field_get(f, "children"@) {
                    None => Ok((head, ids2)),
                    Some(Data::List(cs)) => {
                        proof {
                            lemma_field_get_inside(f, "children"@);
                        }
                        match spec_ui_nodes(cs, ids2) {
                            Err(m) => Err(m),
                            Ok((kids, ids3)) => Ok((UiNodeView { children: kids, ..head }, ids3)),
                        }
                    },
                    Some(_) => Err("UI node children must be a list"@),
                }
            },
        },
        _ => Err("UI node must be a record"@),
    }
}

/// Nodes in order; the first bad one decides the error.
pub open spec fn spec_ui_nodes(cs: Seq<Data>, ids: Set<Seq<char>>) -> Result<(Seq<UiNodeView>, Set<Seq<char>>), Seq<char>>
    decreases cs,
{
    if cs.len() == 0 {
        Ok((seq![], ids))
    } else {
        proof {
            assert(cs.drop_last() =~= cs.subrange(0, cs.len() - 1));
            assert(decreases_to!(cs => cs.subrange(0, cs.len() - 1)));
        }
        match spec_ui_nodes(cs.drop_last(), ids) {
            Err(m) => Err(m),
            Ok((xs, ids2)) => match spec_ui_node(cs.last(), ids2) {
                Err(m) => Err(m),
                Ok((x, ids3)) => Ok((xs.push(x), ids3)),
            },
        }
    }
}

fn ui_kind(k: &str) -> (r: Option<UiKind>)
    ensures
        r == spec_ui_kind(k@),
{
    if str_eq(k, "row") {
        Some(UiKind::Row)
    } else if str_eq(k, "column") {
        Some(UiKind::Column)
    } else if str_eq(k, "panel") {
        Some(UiKind::Panel)
    } else if str_eq(k, "text") {
        Some(UiKind::Text)
    } else if str_eq(k, "image") {
        Some(UiKind::Image)
    } else if str_eq(k, "button") {
        Some(UiKind::Button)
    } else if str_eq(k, "list") {
        Some(UiKind::List)
    } else if str_eq(k, "progress") {
        Some(UiKind::Progress)
    } else if str_eq(k, "tooltip") {
        Some(UiKind::Tooltip)
    } else {
        None
    }
}

fn ui_action(c: Option<&Value>) -> (r: Result<Option<Action>, Error>)
    ensures
        match r {
            Ok(a) => spec_ui_action(opt_view(c)) == Ok::<Option<(Seq<char>, Data)>, Seq<char>>(action_view(a)),
            Err(e) => spec_ui_action(opt_view(c)) matches Err(m) && is_invalid_input(e, m),
        },
{
    match c {
        None => Ok(None),
        Some(Value::Record(a)) => {
            proof {
                lemma_record_data(*a);
            }
            let name = match string_field(a, "action", "UI action") {
                Ok(n) => n,
                Err(e) => {
                    return Err(e);
                },
            };
            match field_of(a, "payload") {
                Some(p) => Ok(Some(Action { action: String::from_str(name), payload: copy_value(p) })),
                None => Err(invalid(chars_of("UI action has no payload"))),
            }
        },
        Some(_) => Err(invalid(chars_of("UI action must be a record"))),
    }
}

proof fn lemma_ui_error_stays(cs: Seq<Data>, k: int, ids: Set<Seq<char>>)
    requires
        0 <= k <= cs.len(),
        spec_ui_nodes(cs.take(k), ids) is Err,
    ensures
        spec_ui_nodes(cs, ids) == spec_ui_nodes(cs.take(k), ids),
    decreases cs.len() - k,
{
    if k < cs.len() {
        assert(cs.take(k + 1).drop_last() =~= cs.take(k));
        lemma_ui_error_stays(cs, k + 1, ids);
    } else {
        assert(cs.take(k) =~= cs);
    }
}

pub open spec fn ui_nodes_view(v: Seq<UiNode>) -> Seq<UiNodeView> {
    v.map_values(|n: UiNode| ui_node_view(n))
}

/// Reads one node and its children; every id must be new among `ids`, and
/// is added to them.
fn parse_ui_node(candidate: &Value, ids: &mut Vec<String>) -> (r: Result<UiNode, Error>)
    ensures
        match r {
            Ok(n) => spec_ui_node(data_of(*candidate), id_set(old(ids)@)) == Ok::<
                (UiNodeView, Set<Seq<char>>),
                Seq<char>,
            >((ui_node_view(n), id_set(final(ids)@))),
            Err(e) => spec_ui_node(data_of(*candidate), id_set(old(ids)@)) matches Err(m)
                && is_invalid_input(e, m),
        },
    decreases candidate,
{
    let fields = match candidate {
        Value::Record(f) => f,
        _ => {
            return Err(invalid(chars_of("UI node must be a record")));
        },
    };
    proof {
        lemma_record_data(*fields);
    }
    let ghost f = fields_of(fields@);
    let ghost ids0 = id_set(ids@);
    let node_id = match string_field(fields, "id", "UI node id") {
        Ok(v) => v,
        Err(e) => {
            return Err(e);
        },
    };
    if contains_id(ids, node_id) {
        return Err(invalid(message("duplicate UI node id: ", node_id)));
    }
    let kind_name = match string_field(fields, "kind", "UI node kind") {
        Ok(v) => v,
        Err(e) => {
            return Err(e);
        },
    };
    let kind = match ui_kind(kind_name) {
        Some(k) => k,
        None => {
            return Err(invalid(message("unknown UI node kind: ", kind_name)));
        },
    };
    let text = match field_of(fields, "text") {
        None => None,
        Some(Value::String(t)) => Some(t.clone()),
        Some(_) => {
            return Err(invalid(chars_of("UI node text must be a string")));
        },
    };
    let asset = match field_of(fields, "asset") {
        None => None,
        Some(Value::String(a)) => {
            if chars_of(a.as_str()).len() > 0 {
                Some(a.clone())
            } else {
                return Err(invalid(chars_of("UI node asset must not be empty")));
            }
        },
        Some(_) => {
            return Err(invalid(chars_of("UI node asset must be a string")));
        },
    };
    if kind == UiKind::Image && asset.is_none() {
        return Err(invalid(chars_of("image UI node has no asset")));
    }
    let grow = match field_of(fields, "grow") {
        None => Number::Float(0x3FF0_0000_0000_0000),
        Some(Value::Integer(i)) => Number::Integer(*i),
        Some(Value::Number(bits)) => Number::Float(*bits),
        Some(_) => {
            return Err(invalid(chars_of("UI node grow must be a number")));
        },
    };
    if !positive(grow) {
        return Err(invalid(chars_of("UI node grow must be finite and positive")));
    }
    let enabled = match field_of(fields, "enabled") {
        None => true,
        Some(Value::Bool(b)) => *b,
        Some(_) => {
            return Err(invalid(chars_of("UI node enabled must be a boolean")));
        },
    };
    let action = match ui_action(field_of(fields, "action")) {
        Ok(a) => a,
        Err(e) => {
            return Err(e);
        },
    };
    let ghost head = spec_ui_head(f, ids0)->Ok_0;
    assert(spec_ui_head(f, ids0) is Ok);
    add_id(ids, node_id);
    let mut children: Vec<UiNode> = Vec::new();
    match field_of(fields, "children") {
        None => {
            assert(ui_nodes_view(children@) =~= Seq::<UiNodeView>::empty());
        },
        Some(list) => match list {
            Value::List(cs) => {
                let ghost vs = data_of(Value::List(*cs))->List_0;
                let ghost ids1 = id_set(ids@);
                proof {
                    assert(decreases_to!(*candidate => *fields));
                    let k = choose|k: int| 0 <= k < fields@.len() && *list == (#[trigger] fields@[k]).1;
                    assert(decreases_to!(*fields => fields@));
                    assert(decreases_to!(fields@ => fields@[k]));
                    assert(decreases_to!(fields@[k] => fields@[k].1));
                    assert(decreases_to!(*list => *cs));
                    assert(decreases_to!(*candidate => *cs));
                    assert(vs.take(0) =~= Seq::<Data>::empty());
                    assert(ui_nodes_view(children@) =~= Seq::<UiNodeView>::empty());
                }
                let mut i: usize = 0;
                while i < cs.len()
                    invariant
                        i <= cs.len(),
                        decreases_to!(*candidate => *cs),
                        data_of(*candidate) == Data::Record(f),
                        f == fields_of(fields@),
                        spec_ui_head(f, ids0) == Ok::<UiNodeView, Seq<char>>(head),
                        ids0 == id_set(old(ids)@),
                        ids1 == ids0.insert(head.id),
                        field_get(f, "children"@) == Some(Data::List(vs)),
                        vs == data_of(Value::List(*cs))->List_0,
                        vs.len() == cs.len(),
                        forall|j: int| 0 <= j < cs.len() ==> vs[j] == data_of(#[trigger] cs@[j]),
                        spec_ui_nodes(vs.take(i as int), ids1) == Ok::<
                            (Seq<UiNodeView>, Set<Seq<char>>),
                            Seq<char>,
                        >((ui_nodes_view(children@), id_set(ids@))),
                    decreases cs.len() - i,
                {
                    proof {
                        assert(vs.take(i as int + 1).drop_last() =~= vs.take(i as int));
                        assert(vs.take(i as int + 1).last() == vs[i as int]);
                        assert(decreases_to!(*cs => cs@));
                        assert(decreases_to!(cs@ => cs@[i as int]));
                    }
                    match parse_ui_node(&cs[i], ids) {
                        Ok(n) => {
                            let ghost before = children@;
                            children.push(n);
                            proof {
                                assert(ui_nodes_view(children@) =~= ui_nodes_view(before).push(ui_node_view(n)));
                            }
                        },
                        Err(e) => {
                            proof {
                                lemma_ui_error_stays(vs, i as int + 1, ids1);
                            }
                            return Err(e);
                        },
                    }
                    i = i + 1;
                }
                proof {
                    assert(vs.take(i as int) =~= vs);
                }
            },
            _ => {
                return Err(invalid(chars_of("UI node children must be a list")));
            },
        },
    }
    let node = UiNode { id: String::from_str(node_id), kind, text, asset, grow, enabled, action, children };
    proof {
        assert(ui_node_view(node).children =~= ui_nodes_view(children@));
    }
    Ok(node)
}

/// Reads a user-interface block: a record of the `ui` schema whose map tint,
/// if any, has four numbers in `0..=1`, whose `scene_dark`, if any, is a
/// boolean, and whose root node is read with every id distinct.
pub open spec fn spec_ui_block(d: Data) -> Result<UiNodeView, Seq<char>> {
    match d {
        Data::Record(b) => {
            let tint = spec_number_array(
                field_get(b, "map_tint"@),
                seq![Number::Float(one_bits()), Number::Float(one_bits()), Number::Float(one_bits()), Number::Float(one_bits())],
                4,
                "UI block map_tint"@,
            );
            if !schema_is(b, "ui"@) {
                Err("UI block must declare the ui schema"@)
            } else if field_get(b, "map_tint"@) is Some && tint is Err {
                Err(tint->Err_0)
            } else if field_get(b, "map_tint"@) is Some && !(forall|k: int|
                0 <= k < 4 ==> in_unit_range(#[trigger] tint->Ok_0[k])) {
                Err("UI block map_tint entries must be in 0..1"@)
            } else if field_get(b, "scene_dark"@) matches Some(v) && !(v is Bool) {
                Err("UI block scene_dark must be a boolean"@)
            } else {
                match field_get(b, "root"@) {
                    None => Err("UI block has no root node"@),
                    Some(root) => match spec_ui_node(root, Set::empty()) {
                        Ok((n, _)) => Ok(n),
                        Err(m) => Err(m),
                    },
                }
            }
        },
        _ => Err("UI block must be a record"@),
    }
}

/// Reads a user-interface block.
pub fn ui_block(value: &Value) -> (r: Result<UiNode, Error>)
    ensures
        match r {
            Ok(n) => spec_ui_block(data_of(*value)) == Ok::<UiNodeView, Seq<char>>(ui_node_view(n)),
            Err(e) => spec_ui_block(data_of(*value)) matches Err(m) && is_invalid_input(e, m),
        },
{
    let block = match value {
        Value::Record(b) => b,
        _ => {
            return Err(invalid(chars_of("UI block must be a record")));
        },
    };
    proof {
        lemma_record_data(*block);
    }
    if !is_text(field_of(block, "schema"), "ui") {
        return Err(invalid(chars_of("UI block must declare the ui schema")));
    }
    let tint_value = field_of(block, "map_tint");
    if tint_value.is_some() {
        let one = Number::Float(0x3FF0_0000_0000_0000);
        let mut full: Vec<Number> = Vec::new();
        full.push(one);
        full.push(one);
        full.push(one);
        full.push(one);
        assert(full@ =~= seq![Number::Float(one_bits()), Number::Float(one_bits()), Number::Float(one_bits()), Number::Float(one_bits())]);
        let tint = match number_array(tint_value, full, 4, "UI block map_tint") {
            Ok(t) => t,
            Err(e) => {
                return Err(e);
            },
        };
        if !unit_range(tint[0]) || !unit_range(tint[1]) || !unit_range(tint[2]) || !unit_range(tint[3]) {
            proof {
                let b = fields_of(block@);
                let spec_tint = spec_number_array(
                    field_get(b, "map_tint"@),
                    seq![Number::Float(one_bits()), Number::Float(one_bits()), Number::Float(one_bits()), Number::Float(one_bits())],
                    4,
                    "UI block map_tint"@,
                );
                assert(spec_tint == Ok::<Seq<Number>, Seq<char>>(tint@));
                let t = spec_tint->Ok_0;
                if !in_unit_range(t[0]) {
                    assert(!in_unit_range(t[0]));
                } else if !in_unit_range(t[1]) {
                    assert(!in_unit_range(t[1]));
                } else if !in_unit_range(t[2]) {
                    assert(!in_unit_range(t[2]));
                } else {
                    assert(!in_unit_range(t[3]));
                }
            }
            return Err(invalid(chars_of("UI block map_tint entries must be in 0..1")));
        }
        assert forall|j: int| 0 <= j < 4 implies in_unit_range(#[trigger] tint@[j]) by {
            if j == 0 {
            } else if j == 1 {
            } else if j == 2 {
            } else {
            }
        }
    }
    match field_of(block, "scene_dark") {
        Some(Value::Bool(_)) => {},
        None => {},
        Some(_) => {
            return Err(invalid(chars_of("UI block scene_dark must be a boolean")));
        },
    }
    let root = match field_of(block, "root") {
        Some(r) => r,
        None => {
            return Err(invalid(chars_of("UI block has no root node")));
        },
    };
    let mut ids: Vec<String> = Vec::new();
    assert(id_set(ids@) =~= Set::<Seq<char>>::empty());
    parse_ui_node(root, &mut ids)
}

// ---------------------------------------------------------------------------
// Messages
// ---------------------------------------------------------------------------
/// A game command from a client.
#[derive(Clone, Debug, PartialEq)]
pub struct Command {
    pub command_id: String,
    pub expected_world_revision: u64,
    pub action: String,
    pub payload: Value,
}

/// What a player did in the interface.
#[derive(Clone, Debug, PartialEq)]
pub struct Interaction {
    pub interaction_id: String,
    pub expected_view_revision: u64,
    pub kind: InteractionKind,
    pub target: Value,
    pub payload: Value,
}

/// Whether a command was committed, and why not.
#[derive(Clone, Debug, PartialEq)]
pub struct CommandResult {
    pub command_id: String,
    pub status: CommandStatus,
    pub world_revision: u64,
    pub error: Option<Error>,
}

/// A named block of a view.
#[derive(Clone, Debug, PartialEq)]
pub struct ViewBlock {
    pub id: String,
    pub content: Value,
}

/// A named one-off effect of a view.
#[derive(Clone, Debug, PartialEq)]
pub struct Effect {
    pub id: String,
    pub content: Value,
}

/// Blocks to replace, blocks to remove and effects to play.
#[derive(Clone, Debug, PartialEq)]
pub struct Presentation {
    pub replace_blocks: Vec<ViewBlock>,
    pub remove_ids: Vec<String>,
    pub effects: Vec<Effect>,
}

/// The context an interaction leaves and the command it asks for.
#[derive(Clone, Debug, PartialEq)]
pub struct InteractionResult {
    pub view_context: Value,
    pub command: Option<Action>,
}

/// Every block of a view.
#[derive(Clone, Debug, PartialEq)]
pub struct ViewSnapshot {
    pub world_revision: u64,
    pub view_revision: u64,
    pub blocks: Vec<ViewBlock>,
}

/// The change from one view revision to the next.
#[derive(Clone, Debug, PartialEq)]
pub struct ViewUpdate {
    pub world_revision: u64,
    pub base_view_revision: u64,
    pub view_revision: u64,
    pub replace_blocks: Vec<ViewBlock>,
    pub remove_ids: Vec<String>,
    pub effects: Vec<Effect>,
}

/// One message of the protocol.
#[derive(Clone, Debug, PartialEq)]
pub enum Message {
    Command(Command),
    Interaction(Interaction),
    CommandResult(CommandResult),
    ViewSnapshot(ViewSnapshot),
    ViewUpdate(ViewUpdate),
    Error(Error),
}

pub open spec fn number_message() -> Seq<char> {
    "number must be finite"@
}

/// Checks that every number in a value is finite.
fn check_value(candidate: &Value) -> (r: Result<(), Error>)
    ensures
        r is Ok <==> all_finite(data_of(*candidate)),
        r matches Err(e) ==> is_invalid_input(e, number_message()),
    decreases candidate,
{
    match candidate {
        Value::Number(bits) => {
            if float_is_finite(*bits) {
                Ok(())
            } else {
                Err(invalid(chars_of("number must be finite")))
            }
        },
        Value::List(items) => {
            let ghost vs = data_of(*candidate)->List_0;
            let mut i: usize = 0;
            while i < items.len()
                invariant
                    i <= items.len(),
                    *candidate == Value::List(*items),
                    data_of(*candidate) == Data::List(vs),
                    vs.len() == items.len(),
                    forall|j: int| 0 <= j < items.len() ==> vs[j] == data_of(#[trigger] items@[j]),
                    items_finite(vs, i as int),
                decreases items.len() - i,
            {
                proof {
                    assert(decreases_to!(*candidate => candidate->List_0));
                    assert(decreases_to!(candidate->List_0 => candidate->List_0@));
                    assert(decreases_to!(candidate->List_0@ => candidate->List_0@[i as int]));
                }
                match check_value(&items[i]) {
                    Ok(()) => {},
                    Err(e) => {
                        proof {
                            assert(!items_finite(vs, i as int + 1));
                            if items_finite(vs, vs.len() as int) {
                                lemma_items_finite_prefix(vs, vs.len() as int, i as int + 1);
                            }
                        }
                        return Err(e);
                    },
                }
                i = i + 1;
            }
            Ok(())
        },
        Value::Record(fields) => {
            proof {
                lemma_record_data(*fields);
            }
            let ghost f = fields_of(fields@);
            let mut i: usize = 0;
            while i < fields.len()
                invariant
                    i <= fields.len(),
                    *candidate == Value::Record(*fields),
                    data_of(*candidate) == Data::Record(f),
                    f == fields_of(fields@),
                    fields_finite(f, i as int),
                decreases fields.len() - i,
            {
                proof {
                    assert(decreases_to!(*candidate => candidate->Record_0));
                    assert(decreases_to!(candidate->Record_0 => candidate->Record_0@));
                    assert(decreases_to!(candidate->Record_0@ => candidate->Record_0@[i as int]));
                    assert(decreases_to!(candidate->Record_0@[i as int] => candidate->Record_0@[i as int].1));
                }
                match check_value(&fields[i].1) {
                    Ok(()) => {},
                    Err(e) => {
                        assert(f[i as int].1 == data_of(fields@[i as int].1));
                        proof {
                            assert(!fields_finite(f, i as int + 1));
                            if fields_finite(f, f.len() as int) {
                                lemma_fields_finite_prefix(f, f.len() as int, i as int + 1);
                            }
                        }
                        return Err(e);
                    },
                }
                i = i + 1;
            }
            Ok(())
        },
        _ => Ok(()),
    }
}

/// The first blank or repeated id decides the error.
pub open spec fn spec_unique(ids: Seq<Seq<char>>, kind: Seq<char>) -> Result<(), Seq<char>>
    decreases ids.len(),
{
    if ids.len() == 0 {
        Ok(())
    } else {
        match spec_unique(ids.drop_last(), kind) {
            Err(m) => Err(m),
            Ok(()) => if trim(ids.last()).len() == 0 {
                Err(kind + " must not be empty"@)
            } else if ids.drop_last().contains(ids.last()) {
                Err("duplicate "@ + kind + " id: "@ + ids.last())
            } else {
                Ok(())
            },
        }
    }
}

proof fn lemma_unique_prefix(ids: Seq<Seq<char>>, kind: Seq<char>, k: int)
    requires
        0 <= k <= ids.len(),
        forall|j: int| 0 <= j < k ==> #[trigger] id_ok(ids, j),
    ensures
        spec_unique(ids.take(k), kind) == Ok::<(), Seq<char>>(()),
    decreases k,
{
    if k > 0 {
        lemma_unique_prefix(ids, kind, k - 1);
        let t = ids.take(k);
        assert(t.drop_last() =~= ids.take(k - 1));
        assert(id_ok(ids, k - 1));
        assert(ids.take(k - 1) =~= ids.take(k).drop_last());
    }
}

proof fn lemma_unique_error_stays(ids: Seq<Seq<char>>, kind: Seq<char>, k: int)
    requires
        0 <= k <= ids.len(),
        spec_unique(ids.take(k), kind) is Err,
    ensures
        spec_unique(ids, kind) == spec_unique(ids.take(k), kind),
    decreases ids.len() - k,
{
    if k < ids.len() {
        assert(ids.take(k + 1).drop_last() =~= ids.take(k));
        lemma_unique_error_stays(ids, kind, k + 1);
    } else {
        assert(ids.take(k) =~= ids);
    }
}

/// Checks a list of ids with [`unique`], stated as `spec_unique`.
fn unique_ids(ids: &[&str], kind: &str) -> (r: Result<(), Error>)
    ensures
        match r {
            Ok(()) => spec_unique(ids_view(ids@), kind@) == Ok::<(), Seq<char>>(()),
            Err(e) => spec_unique(ids_view(ids@), kind@) matches Err(m) && is_invalid_input(e, m),
        },
{
    let r = unique(ids, kind);
    let ghost v = ids_view(ids@);
    proof {
        match r {
            Ok(()) => {
                lemma_unique_prefix(v, kind@, v.len() as int);
                assert(v.take(v.len() as int) =~= v);
            },
            Err(ref e) => {
                let i = choose|i: int|
                    0 <= i < ids@.len() && !#[trigger] id_ok(ids_view(ids@), i) && (forall|j: int|
                        0 <= j < i ==> #[trigger] id_ok(ids_view(ids@), j)) && if trim(ids@[i]@).len() == 0 {
                        is_invalid_input(*e, kind@ + " must not be empty"@)
                    } else {
                        is_invalid_input(*e, "duplicate "@ + kind@ + " id: "@ + ids@[i]@)
                    };
                lemma_unique_prefix(v, kind@, i);
                let t = v.take(i + 1);
                assert(t.drop_last() =~= v.take(i));
                assert(t.last() == v[i]);
                assert(v[i] == ids@[i]@);
                assert(v.take(i) =~= t.drop_last());
                lemma_unique_error_stays(v, kind@, i + 1);
            },
        }
    }
    r
}

/// The schema a block declares, if it is a record with a string `schema`.
pub open spec fn content_schema(d: Data) -> Option<Seq<char>> {
    match d {
        Data::Record(f) => match field_get(f, "schema"@) {
            Some(Data::Text(s)) => Some(s),
            _ => None,
        },
        _ => None,
    }
}

/// One block's content: finite numbers, and a valid block of the schema
/// it declares, for the `ui` and `scene` schemas.
pub open spec fn spec_block_content(d: Data) -> Result<(), Seq<char>> {
    if !all_finite(d) {
        Err(number_message())
    } else if content_schema(d) == Some("ui"@) && spec_ui_block(d) is Err {
        Err(spec_ui_block(d)->Err_0)
    } else if content_schema(d) == Some("scene"@) && spec_scene_block(d) is Err {
        Err(spec_scene_block(d)->Err_0)
    } else {
        Ok(())
    }
}

/// Block contents in order; the first bad one decides the error.
pub open spec fn spec_block_contents(ds: Seq<Data>) -> Result<(), Seq<char>>
    decreases ds.len(),
{
    if ds.len() == 0 {
        Ok(())
    } else {
        match spec_block_contents(ds.drop_last()) {
            Err(m) => Err(m),
            Ok(()) => spec_block_content(ds.last()),
        }
    }
}

pub open spec fn block_ids(bs: Seq<ViewBlock>) -> Seq<Seq<char>> {
    bs.map_values(|b: ViewBlock| b.id@)
}

pub open spec fn block_contents(bs: Seq<ViewBlock>) -> Seq<Data> {
    bs.map_values(|b: ViewBlock| data_of(b.content))
}

/// Blocks: distinct non-blank ids, then valid contents.
pub open spec fn spec_blocks(bs: Seq<ViewBlock>) -> Result<(), Seq<char>> {
    match spec_unique(block_ids(bs), "block"@) {
        Err(m) => Err(m),
        Ok(()) => spec_block_contents(block_contents(bs)),
    }
}

/// The error for a blank id named `name`.
pub open spec fn empty_message(name: Seq<char>) -> Seq<char> {
    name + " must not be empty"@
}

/// An error: a non-blank code and message, and finite numbers in its
/// details.
pub open spec fn spec_error_check(e: Error) -> Result<(), Seq<char>> {
    if trim(e.code@).len() == 0 {
        Err(empty_message("error code"@))
    } else if trim(e.message@).len() == 0 {
        Err(empty_message("error message"@))
    } else {
        match e.details {
            Some(d) => if all_finite(data_of(d)) {
                Ok(())
            } else {
                Err(number_message())
            },
            None => Ok(()),
        }
    }
}

pub open spec fn effect_ids(es: Seq<Effect>) -> Seq<Seq<char>> {
    es.map_values(|e: Effect| e.id@)
}

/// Whether a message is well formed, and the first thing wrong with it.
pub open spec fn spec_validate(m: Message) -> Result<(), Seq<char>> {
    match m {
        Message::Command(c) => if trim(c.command_id@).len() == 0 {
            Err(empty_message("command_id"@))
        } else if trim(c.action@).len() == 0 {
            Err(empty_message("action"@))
        } else if !all_finite(data_of(c.payload)) {
            Err(number_message())
        } else {
            Ok(())
        },
        Message::Interaction(i) => if trim(i.interaction_id@).len() == 0 {
            Err(empty_message("interaction_id"@))
        } else if !all_finite(data_of(i.target)) || !all_finite(data_of(i.payload)) {
            Err(number_message())
        } else {
            Ok(())
        },
        Message::CommandResult(r) => if trim(r.command_id@).len() == 0 {
            Err(empty_message("command_id"@))
        } else if (r.status == CommandStatus::Committed) != (r.error is None) {
            Err("command status and error disagree"@)
        } else {
            match r.error {
                Some(e) => spec_error_check(e),
                None => Ok(()),
            }
        },
        Message::ViewSnapshot(s) => spec_blocks(s.blocks@),
        Message::ViewUpdate(u) => if u.view_revision <= u.base_view_revision {
            Err("view revision must advance"@)
        } else {
            match spec_blocks(u.replace_blocks@) {
                Err(m) => Err(m),
                Ok(()) => match spec_unique(strings_of(u.remove_ids@), "removed block"@) {
                    Err(m) => Err(m),
                    Ok(()) => if exists|k: int|
                        0 <= k < u.remove_ids@.len() && block_ids(u.replace_blocks@).contains(
                            #[trigger] u.remove_ids@[k]@,
                        ) {
                        Err("a block cannot be replaced and removed together"@)
                    } else {
                        match spec_unique(effect_ids(u.effects@), "effect"@) {
                            Err(m) => Err(m),
                            Ok(()) => if exists|k: int|
                                0 <= k < u.effects@.len() && !all_finite(
                                    data_of(#[trigger] u.effects@[k].content),
                                ) {
                                Err(number_message())
                            } else {
                                Ok(())
                            },
                        }
                    },
                },
            }
        },
        Message::Error(e) => spec_error_check(e),
    }
}

fn schema_of(v: &Value) -> (r: Option<&str>)
    ensures
        match r {
            Some(s) => content_schema(data_of(*v)) == Some(s@),
            None => content_schema(data_of(*v)) is None,
        },
{
    match v {
        Value::Record(f) => {
            proof {
                lemma_record_data(*f);
            }
            match field_of(f, "schema") {
                Some(Value::String(s)) => Some(s.as_str()),
                _ => None,
            }
        },
        _ => None,
    }
}

fn check_block_content(content: &Value) -> (r: Result<(), Error>)
    ensures
        match r {
            Ok(()) => spec_block_content(data_of(*content)) == Ok::<(), Seq<char>>(()),
            Err(e) => spec_block_content(data_of(*content)) matches Err(m) && is_invalid_input(e, m),
        },
{
    match check_value(content) {
        Ok(()) => {},
        Err(e) => {
            return Err(e);
        },
    }
    let schema = schema_of(content);
    match schema {
        Some(s) => {
            if str_eq(s, "ui") {
                match ui_block(content) {
                    Ok(_) => {},
                    Err(e) => {
                        return Err(e);
                    },
                }
            }
            if str_eq(s, "scene") {
                match scene_block(content) {
                    Ok(_) => {},
                    Err(e) => {
                        return Err(e);
                    },
                }
            }
        },
        None => {},
    }
    Ok(())
}

proof fn lemma_contents_error_stays(ds: Seq<Data>, k: int)
    requires
        0 <= k <= ds.len(),
        spec_block_contents(ds.take(k)) is Err,
    ensures
        spec_block_contents(ds) == spec_block_contents(ds.take(k)),
    decreases ds.len() - k,
{
    if k < ds.len() {
        assert(ds.take(k + 1).drop_last() =~= ds.take(k));
        lemma_contents_error_stays(ds, k + 1);
    } else {
        assert(ds.take(k) =~= ds);
    }
}

/// Checks view blocks: distinct non-blank ids, then each content.
fn check_blocks(blocks: &Vec<ViewBlock>) -> (r: Result<(), Error>)
    ensures
        match r {
            Ok(()) => spec_blocks(blocks@) == Ok::<(), Seq<char>>(()),
            Err(e) => spec_blocks(blocks@) matches Err(m) && is_invalid_input(e, m),
        },
{
    let mut ids: Vec<&str> = Vec::new();
    let mut i: usize = 0;
    while i < blocks.len()
        invariant
            i <= blocks.len(),
            ids_view(ids@) == block_ids(blocks@).take(i as int),
        decreases blocks.len() - i,
    {
        let ghost before = ids@;
        ids.push(blocks[i].id.as_str());
        proof {
            assert(ids_view(ids@) =~= ids_view(before).push(blocks@[i as int].id@));
            assert(block_ids(blocks@).take(i as int + 1) =~= block_ids(blocks@).take(i as int).push(
                blocks@[i as int].id@,
            ));
        }
        i = i + 1;
    }
    proof {
        assert(block_ids(blocks@).take(blocks.len() as int) =~= block_ids(blocks@));
    }
    match unique_ids(ids.as_slice(), "block") {
        Ok(()) => {},
        Err(e) => {
            return Err(e);
        },
    }
    let ghost ds = block_contents(blocks@);
    let mut k: usize = 0;
    proof {
        assert(ds.take(0) =~= Seq::<Data>::empty());
    }
    while k < blocks.len()
        invariant
            k <= blocks.len(),
            ds == block_contents(blocks@),
            spec_unique(block_ids(blocks@), "block"@) == Ok::<(), Seq<char>>(()),
            spec_block_contents(ds.take(k as int)) == Ok::<(), Seq<char>>(()),
        decreases blocks.len() - k,
    {
        proof {
            assert(ds.take(k as int + 1).drop_last() =~= ds.take(k as int));
            assert(ds.take(k as int + 1).last() == data_of(blocks@[k as int].content));
        }
        match check_block_content(&blocks[k].content) {
            Ok(()) => {},
            Err(e) => {
                proof {
                    lemma_contents_error_stays(ds, k as int + 1);
                }
                return Err(e);
            },
        }
        k = k + 1;
    }
    proof {
        assert(ds.take(blocks.len() as int) =~= ds);
    }
    Ok(())
}

fn check_error(candidate: &Error) -> (r: Result<(), Error>)
    ensures
        match r {
            Ok(()) => spec_error_check(*candidate) == Ok::<(), Seq<char>>(()),
            Err(e) => spec_error_check(*candidate) matches Err(m) && is_invalid_input(e, m),
        },
{
    match id(candidate.code.as_str(), "error code") {
        Ok(()) => {},
        Err(e) => {
            return Err(e);
        },
    }
    match id(candidate.message.as_str(), "error message") {
        Ok(()) => {},
        Err(e) => {
            return Err(e);
        },
    }
    match &candidate.details {
        Some(d) => check_value(d),
        None => Ok(()),
    }
}

fn string_ids(v: &Vec<String>) -> (r: Vec<&str>)
    ensures
        ids_view(r@) == strings_of(v@),
{
    let mut out: Vec<&str> = Vec::new();
    let mut i: usize = 0;
    while i < v.len()
        invariant
            i <= v.len(),
            ids_view(out@) == strings_of(v@).take(i as int),
        decreases v.len() - i,
    {
        let ghost before = out@;
        out.push(v[i].as_str());
        proof {
            assert(ids_view(out@) =~= ids_view(before).push(v@[i as int]@));
            assert(strings_of(v@).take(i as int + 1) =~= strings_of(v@).take(i as int).push(v@[i as int]@));
        }
        i = i + 1;
    }
    proof {
        assert(strings_of(v@).take(v.len() as int) =~= strings_of(v@));
    }
    out
}

fn effect_id_list(v: &Vec<Effect>) -> (r: Vec<&str>)
    ensures
        ids_view(r@) == effect_ids(v@),
{
    let mut out: Vec<&str> = Vec::new();
    let mut i: usize = 0;
    while i < v.len()
        invariant
            i <= v.len(),
            ids_view(out@) == effect_ids(v@).take(i as int),
        decreases v.len() - i,
    {
        let ghost before = out@;
        out.push(v[i].id.as_str());
        proof {
            assert(ids_view(out@) =~= ids_view(before).push(v@[i as int].id@));
            assert(effect_ids(v@).take(i as int + 1) =~= effect_ids(v@).take(i as int).push(v@[i as int].id@));
        }
        i = i + 1;
    }
    proof {
        assert(effect_ids(v@).take(v.len() as int) =~= effect_ids(v@));
    }
    out
}

fn removes_a_replaced_block(removed: &Vec<String>, blocks: &Vec<ViewBlock>) -> (r: bool)
    ensures
        r == exists|k: int| 0 <= k < removed@.len() && block_ids(blocks@).contains(#[trigger] removed@[k]@),
{
    let ghost replaced = block_ids(blocks@);
    let mut k: usize = 0;
    while k < removed.len()
        invariant
            k <= removed.len(),
            replaced == block_ids(blocks@),
            forall|j: int| 0 <= j < k ==> !replaced.contains(#[trigger] removed@[j]@),
        decreases removed.len() - k,
    {
        let mut b: usize = 0;
        while b < blocks.len()
            invariant
                k < removed.len(),
                b <= blocks.len(),
                replaced == block_ids(blocks@),
                forall|j: int| 0 <= j < b ==> replaced[j] != removed@[k as int]@,
            decreases blocks.len() - b,
        {
            if str_eq(blocks[b].id.as_str(), removed[k].as_str()) {
                assert(replaced[b as int] == removed@[k as int]@);
                assert(block_ids(blocks@).contains(removed@[k as int]@));
                return true;
            }
            b = b + 1;
        }
        proof {
            if replaced.contains(removed@[k as int]@) {
                let j = choose|j: int| 0 <= j < replaced.len() && replaced[j] == removed@[k as int]@;
                assert(replaced[j] != removed@[k as int]@);
            }
        }
        k = k + 1;
    }
    false
}

fn check_effects(effects: &Vec<Effect>) -> (r: Result<(), Error>)
    ensures
        r is Ok <==> !exists|k: int| 0 <= k < effects@.len() && !all_finite(data_of(#[trigger] effects@[k].content)),
        r matches Err(e) ==> is_invalid_input(e, number_message()),
{
    let mut c: usize = 0;
    while c < effects.len()
        invariant
            c <= effects.len(),
            forall|j: int| 0 <= j < c ==> all_finite(data_of(#[trigger] effects@[j].content)),
        decreases effects.len() - c,
    {
        match check_value(&effects[c].content) {
            Ok(()) => {},
            Err(err) => {
                return Err(err);
            },
        }
        c = c + 1;
    }
    Ok(())
}

/// Checks a message: non-blank ids, finite numbers, agreeing command
/// status and error, advancing view revisions, distinct block and effect
/// ids, and valid `ui` and `scene` blocks.
pub fn validate(message: &Message) -> (r: Result<(), Error>)
    ensures
        match r {
            Ok(()) => spec_validate(*message) == Ok::<(), Seq<char>>(()),
            Err(e) => spec_validate(*message) matches Err(m) && is_invalid_input(e, m),
        },
{
    match message {
        Message::Command(command) => {
            match id(command.command_id.as_str(), "command_id") {
                Ok(()) => {},
                Err(e) => {
                    return Err(e);
                },
            }
            match id(command.action.as_str(), "action") {
                Ok(()) => {},
                Err(e) => {
                    return Err(e);
                },
            }
            check_value(&command.payload)
        },
        Message::Interaction(interaction) => {
            match id(interaction.interaction_id.as_str(), "interaction_id") {
                Ok(()) => {},
                Err(e) => {
                    return Err(e);
                },
            }
            match check_value(&interaction.target) {
                Ok(()) => {},
                Err(e) => {
                    return Err(e);
                },
            }
            check_value(&interaction.payload)
        },
        Message::CommandResult(result) => {
            match id(result.command_id.as_str(), "command_id") {
                Ok(()) => {},
                Err(e) => {
                    return Err(e);
                },
            }
            let agree = match (&result.status, &result.error) {
                (CommandStatus::Committed, None) => true,
                (CommandStatus::Rejected, Some(_)) => true,
                _ => false,
            };
            if !agree {
                return Err(invalid(chars_of("command status and error disagree")));
            }
            match &result.error {
                Some(e) => check_error(e),
                None => Ok(()),
            }
        },
        Message::ViewSnapshot(snapshot) => check_blocks(&snapshot.blocks),
        Message::ViewUpdate(update) => {
            if update.view_revision <= update.base_view_revision {
                return Err(invalid(chars_of("view revision must advance")));
            }
            match check_blocks(&update.replace_blocks) {
                Ok(()) => {},
                Err(e) => {
                    return Err(e);
                },
            }
            let removed = string_ids(&update.remove_ids);
            match unique_ids(removed.as_slice(), "removed block") {
                Ok(()) => {},
                Err(e) => {
                    return Err(e);
                },
            }
            if removes_a_replaced_block(&update.remove_ids, &update.replace_blocks) {
                return Err(invalid(chars_of("a block cannot be replaced and removed together")));
            }
            let effects = effect_id_list(&update.effects);
            match unique_ids(effects.as_slice(), "effect") {
                Ok(()) => {},
                Err(e) => {
                    return Err(e);
                },
            }
            check_effects(&update.effects)
        },
        Message::Error(candidate) => check_error(candidate),
    }
}

// ---------------------------------------------------------------------------
// Asset references
// ---------------------------------------------------------------------------
/// An error by its code and message.
pub open spec fn error_view(e: Error) -> (Seq<char>, Seq<char>) {
    (e.code@, e.message@)
}

pub open spec fn invalid_view(m: Seq<char>) -> (Seq<char>, Seq<char>) {
    ("invalid_input"@, m)
}

/// One asset reference: a non-blank string naming a known asset.
pub open spec fn spec_asset_reference(d: Data, known: Set<Seq<char>>) -> Result<(), (Seq<char>, Seq<char>)> {
    match d {
        Data::Text(a) => if trim(a).len() == 0 {
            Err(invalid_view(empty_message("asset reference"@)))
        } else if known.contains(a) {
            Ok(())
        } else {
            Err(("resource_error"@, "unknown asset reference: "@ + a))
        },
        _ => Err(invalid_view("asset reference must be a string"@)),
    }
}

/// Asset references of a list, in order.
pub open spec fn spec_reference_list(vs: Seq<Data>, known: Set<Seq<char>>) -> Result<(), (Seq<char>, Seq<char>)>
    decreases vs.len(),
{
    if vs.len() == 0 {
        Ok(())
    } else {
        match spec_reference_list(vs.drop_last(), known) {
            Err(e) => Err(e),
            Ok(()) => spec_asset_reference(vs.last(), known),
        }
    }
}

/// The references of a list field, where the field is a list.
pub open spec fn spec_list_refs(c: Option<Data>, known: Set<Seq<char>>) -> Result<(), (Seq<char>, Seq<char>)> {
    match c {
        Some(Data::List(vs)) => spec_reference_list(vs, known),
        _ => Ok(()),
    }
}

/// Every asset a value refers to is known: in a record, its `asset` field,
/// then the entries of its `assets`, `frames` and `masks` lists, then each
/// field's value; in a list, each item. The first bad reference decides the
/// error.
pub open spec fn spec_asset_refs(d: Data, known: Set<Seq<char>>) -> Result<(), (Seq<char>, Seq<char>)>
    decreases d, 0int,
{
    match d {
        Data::Record(f) => {
            let own = match field_get(f, "asset"@) {
                Some(a) => spec_asset_reference(a, known),
                None => Ok(()),
            };
            let assets = spec_list_refs(field_get(f, "assets"@), known);
            let frames = spec_list_refs(field_get(f, "frames"@), known);
            let masks = spec_list_refs(field_get(f, "masks"@), known);
            if own is Err {
                own
            } else if assets is Err {
                assets
            } else if frames is Err {
                frames
            } else if masks is Err {
                masks
            } else {
                spec_field_refs(f, f.len() as int, known)
            }
        },
        Data::List(vs) => spec_item_refs(vs, vs.len() as int, known),
        _ => Ok(()),
    }
}

/// The references of the first `n` items.
pub open spec fn spec_item_refs(vs: Seq<Data>, n: int, known: Set<Seq<char>>) -> Result<(), (Seq<char>, Seq<char>)>
    decreases vs, n,
{
    if n <= 0 || n > vs.len() {
        Ok(())
    } else {
        match spec_item_refs(vs, n - 1, known) {
            Err(e) => Err(e),
            Ok(()) => spec_asset_refs(vs[n - 1], known),
        }
    }
}

/// The references of the values of the first `n` fields.
pub open spec fn spec_field_refs(f: Fields, n: int, known: Set<Seq<char>>) -> Result<(), (Seq<char>, Seq<char>)>
    decreases f, n,
{
    if n <= 0 || n > f.len() {
        Ok(())
    } else {
        match spec_field_refs(f, n - 1, known) {
            Err(e) => Err(e),
            Ok(()) => spec_asset_refs(f[n - 1].1, known),
        }
    }
}

proof fn lemma_item_refs_error_stays(vs: Seq<Data>, k: int, known: Set<Seq<char>>)
    requires
        0 <= k <= vs.len(),
        spec_item_refs(vs, k, known) is Err,
    ensures
        spec_item_refs(vs, vs.len() as int, known) == spec_item_refs(vs, k, known),
    decreases vs.len() - k,
{
    if k < vs.len() {
        lemma_item_refs_error_stays(vs, k + 1, known);
    }
}

proof fn lemma_field_refs_error_stays(f: Fields, k: int, known: Set<Seq<char>>)
    requires
        0 <= k <= f.len(),
        spec_field_refs(f, k, known) is Err,
    ensures
        spec_field_refs(f, f.len() as int, known) == spec_field_refs(f, k, known),
    decreases f.len() - k,
{
    if k < f.len() {
        lemma_field_refs_error_stays(f, k + 1, known);
    }
}

proof fn lemma_reference_list_error_stays(vs: Seq<Data>, k: int, known: Set<Seq<char>>)
    requires
        0 <= k <= vs.len(),
        spec_reference_list(vs.take(k), known) is Err,
    ensures
        spec_reference_list(vs, known) == spec_reference_list(vs.take(k), known),
    decreases vs.len() - k,
{
    if k < vs.len() {
        assert(vs.take(k + 1).drop_last() =~= vs.take(k));
        lemma_reference_list_error_stays(vs, k + 1, known);
    } else {
        assert(vs.take(k) =~= vs);
    }
}

fn asset_reference(c: &Value, known: &Vec<String>) -> (r: Result<(), Error>)
    ensures
        match r {
            Ok(()) => spec_asset_reference(data_of(*c), id_set(known@)) == Ok::<(), (Seq<char>, Seq<char>)>(()),
            Err(e) => spec_asset_reference(data_of(*c), id_set(known@)) == Err::<(), (Seq<char>, Seq<char>)>(
                error_view(e),
            ),
        },
{
    let asset = match c {
        Value::String(a) => a,
        _ => {
            return Err(invalid(chars_of("asset reference must be a string")));
        },
    };
    match id(asset.as_str(), "asset reference") {
        Ok(()) => {},
        Err(e) => {
            return Err(e);
        },
    }
    if contains_id(known, asset.as_str()) {
        Ok(())
    } else {
        let m = message("unknown asset reference: ", asset.as_str());
        Err(Error { code: String::from_str("resource_error"), message: string_of(&m), details: None })
    }
}

fn list_references(c: Option<&Value>, known: &Vec<String>) -> (r: Result<(), Error>)
    ensures
        match r {
            Ok(()) => spec_list_refs(opt_view(c), id_set(known@)) == Ok::<(), (Seq<char>, Seq<char>)>(()),
            Err(e) => spec_list_refs(opt_view(c), id_set(known@)) == Err::<(), (Seq<char>, Seq<char>)>(
                error_view(e),
            ),
        },
{
    match c {
        Some(Value::List(values)) => {
            let ghost vs = data_of(Value::List(*values))->List_0;
            let mut i: usize = 0;
            proof {
                assert(vs.take(0) =~= Seq::<Data>::empty());
            }
            while i < values.len()
                invariant
                    i <= values.len(),
                    vs == data_of(Value::List(*values))->List_0,
                    opt_view(c) == Some(Data::List(vs)),
                    vs.len() == values.len(),
                    forall|j: int| 0 <= j < values.len() ==> vs[j] == data_of(#[trigger] values@[j]),
                    spec_reference_list(vs.take(i as int), id_set(known@)) == Ok::<(), (Seq<char>, Seq<char>)>(()),
                decreases values.len() - i,
            {
                proof {
                    assert(vs.take(i as int + 1).drop_last() =~= vs.take(i as int));
                    assert(vs.take(i as int + 1).last() == vs[i as int]);
                }
                match asset_reference(&values[i], known) {
                    Ok(()) => {},
                    Err(e) => {
                        proof {
                            lemma_reference_list_error_stays(vs, i as int + 1, id_set(known@));
                        }
                        return Err(e);
                    },
                }
                i = i + 1;
            }
            proof {
                assert(vs.take(i as int) =~= vs);
            }
            Ok(())
        },
        _ => Ok(()),
    }
}

/// Checks that every asset a value refers to is known.
fn asset_references(c: &Value, known: &Vec<String>) -> (r: Result<(), Error>)
    ensures
        match r {
            Ok(()) => spec_asset_refs(data_of(*c), id_set(known@)) == Ok::<(), (Seq<char>, Seq<char>)>(()),
            Err(e) => spec_asset_refs(data_of(*c), id_set(known@)) == Err::<(), (Seq<char>, Seq<char>)>(
                error_view(e),
            ),
        },
    decreases c,
{
    let ghost ks = id_set(known@);
    match c {
        Value::Record(fields) => {
            proof {
                lemma_record_data(*fields);
            }
            let ghost f = fields_of(fields@);
            match field_of(fields, "asset") {
                Some(a) => match asset_reference(a, known) {
                    Ok(()) => {},
                    Err(e) => {
                        return Err(e);
                    },
                },
                None => {},
            }
            match list_references(field_of(fields, "assets"), known) {
                Ok(()) => {},
                Err(e) => {
                    return Err(e);
                },
            }
            match list_references(field_of(fields, "frames"), known) {
                Ok(()) => {},
                Err(e) => {
                    return Err(e);
                },
            }
            match list_references(field_of(fields, "masks"), known) {
                Ok(()) => {},
                Err(e) => {
                    return Err(e);
                },
            }
            let mut i: usize = 0;
            while i < fields.len()
                invariant
                    i <= fields.len(),
                    *c == Value::Record(*fields),
                    data_of(*c) == Data::Record(f),
                    f == fields_of(fields@),
                    ks == id_set(known@),
                    spec_asset_refs(data_of(*c), ks) == spec_field_refs(f, f.len() as int, ks),
                    spec_field_refs(f, i as int, ks) == Ok::<(), (Seq<char>, Seq<char>)>(()),
                decreases fields.len() - i,
            {
                proof {
                    assert(decreases_to!(*c => c->Record_0));
                    assert(decreases_to!(c->Record_0 => c->Record_0@));
                    assert(decreases_to!(c->Record_0@ => c->Record_0@[i as int]));
                    assert(decreases_to!(c->Record_0@[i as int] => c->Record_0@[i as int].1));
                    assert(f[i as int].1 == data_of(fields@[i as int].1));
                }
                match asset_references(&fields[i].1, known) {
                    Ok(()) => {},
                    Err(e) => {
                        proof {
                            lemma_field_refs_error_stays(f, i as int + 1, ks);
                        }
                        return Err(e);
                    },
                }
                i = i + 1;
            }
            Ok(())
        },
        Value::List(items) => {
            let ghost vs = data_of(*c)->List_0;
            let mut i: usize = 0;
            while i < items.len()
                invariant
                    i <= items.len(),
                    *c == Value::List(*items),
                    data_of(*c) == Data::List(vs),
                    vs.len() == items.len(),
                    ks == id_set(known@),
                    forall|j: int| 0 <= j < items.len() ==> vs[j] == data_of(#[trigger] items@[j]),
                    spec_item_refs(vs, i as int, ks) == Ok::<(), (Seq<char>, Seq<char>)>(()),
                decreases items.len() - i,
            {
                proof {
                    assert(decreases_to!(*c => c->List_0));
                    assert(decreases_to!(c->List_0 => c->List_0@));
                    assert(decreases_to!(c->List_0@ => c->List_0@[i as int]));
                }
                match asset_references(&items[i], known) {
                    Ok(()) => {},
                    Err(e) => {
                        proof {
                            lemma_item_refs_error_stays(vs, i as int + 1, ks);
                        }
                        return Err(e);
                    },
                }
                i = i + 1;
            }
            Ok(())
        },
        _ => Ok(()),
    }
}

/// References, in order, of a sequence of values.
pub open spec fn spec_contents_refs(ds: Seq<Data>, known: Set<Seq<char>>) -> Result<(), (Seq<char>, Seq<char>)>
    decreases ds.len(),
{
    if ds.len() == 0 {
        Ok(())
    } else {
        match spec_contents_refs(ds.drop_last(), known) {
            Err(e) => Err(e),
            Ok(()) => spec_asset_refs(ds.last(), known),
        }
    }
}

pub open spec fn effect_contents(es: Seq<Effect>) -> Seq<Data> {
    es.map_values(|e: Effect| data_of(e.content))
}

/// A valid message whose views refer only to known assets: for a snapshot,
/// its blocks; for an update, its replaced blocks and then its effects.
pub open spec fn spec_validate_assets(m: Message, known: Set<Seq<char>>) -> Result<(), (Seq<char>, Seq<char>)> {
    match spec_validate(m) {
        Err(msg) => Err(invalid_view(msg)),
        Ok(()) => match m {
            Message::ViewSnapshot(s) => spec_contents_refs(block_contents(s.blocks@), known),
            Message::ViewUpdate(u) => spec_contents_refs(
                block_contents(u.replace_blocks@) + effect_contents(u.effects@),
                known,
            ),
            _ => Ok(()),
        },
    }
}

proof fn lemma_contents_refs_error_stays(ds: Seq<Data>, k: int, known: Set<Seq<char>>)
    requires
        0 <= k <= ds.len(),
        spec_contents_refs(ds.take(k), known) is Err,
    ensures
        spec_contents_refs(ds, known) == spec_contents_refs(ds.take(k), known),
    decreases ds.len() - k,
{
    if k < ds.len() {
        assert(ds.take(k + 1).drop_last() =~= ds.take(k));
        lemma_contents_refs_error_stays(ds, k + 1, known);
    } else {
        assert(ds.take(k) =~= ds);
    }
}

/// Checks the references of values in order.
fn contents_references(contents: &Vec<&Value>, known: &Vec<String>) -> (r: Result<(), Error>)
    ensures
        match r {
            Ok(()) => spec_contents_refs(contents@.map_values(|v: &Value| data_of(*v)), id_set(known@))
                == Ok::<(), (Seq<char>, Seq<char>)>(()),
            Err(e) => spec_contents_refs(contents@.map_values(|v: &Value| data_of(*v)), id_set(known@))
                == Err::<(), (Seq<char>, Seq<char>)>(error_view(e)),
        },
{
    let ghost ds = contents@.map_values(|v: &Value| data_of(*v));
    let mut i: usize = 0;
    proof {
        assert(ds.take(0) =~= Seq::<Data>::empty());
    }
    while i < contents.len()
        invariant
            i <= contents.len(),
            ds == contents@.map_values(|v: &Value| data_of(*v)),
            spec_contents_refs(ds.take(i as int), id_set(known@)) == Ok::<(), (Seq<char>, Seq<char>)>(()),
        decreases contents.len() - i,
    {
        proof {
            assert(ds.take(i as int + 1).drop_last() =~= ds.take(i as int));
            assert(ds.take(i as int + 1).last() == data_of(*contents@[i as int]));
        }
        match asset_references(contents[i], known) {
            Ok(()) => {},
            Err(e) => {
                proof {
                    lemma_contents_refs_error_stays(ds, i as int + 1, id_set(known@));
                }
                return Err(e);
            },
        }
        i = i + 1;
    }
    proof {
        assert(ds.take(i as int) =~= ds);
    }
    Ok(())
}

/// Checks a message and that its views refer only to `known` assets; an
/// unknown asset is a `resource_error`.
pub fn validate_assets(message: &Message, known: &Vec<String>) -> (r: Result<(), Error>)
    ensures
        match r {
            Ok(()) => spec_validate_assets(*message, id_set(known@)) == Ok::<(), (Seq<char>, Seq<char>)>(()),
            Err(e) => spec_validate_assets(*message, id_set(known@)) == Err::<(), (Seq<char>, Seq<char>)>(
                error_view(e),
            ),
        },
{
    match validate(message) {
        Ok(()) => {},
        Err(e) => {
            return Err(e);
        },
    }
    let mut contents: Vec<&Value> = Vec::new();
    match message {
        Message::ViewSnapshot(snapshot) => {
            let mut i: usize = 0;
            while i < snapshot.blocks.len()
                invariant
                    i <= snapshot.blocks.len(),
                    contents@.map_values(|v: &Value| data_of(*v)) == block_contents(snapshot.blocks@).take(i as int),
                decreases snapshot.blocks.len() - i,
            {
                let ghost before = contents@;
                contents.push(&snapshot.blocks[i].content);
                proof {
                    assert(contents@.map_values(|v: &Value| data_of(*v)) =~= before.map_values(
                        |v: &Value| data_of(*v),
                    ).push(data_of(snapshot.blocks@[i as int].content)));
                    assert(block_contents(snapshot.blocks@).take(i as int + 1) =~= block_contents(
                        snapshot.blocks@,
                    ).take(i as int).push(data_of(snapshot.blocks@[i as int].content)));
                }
                i = i + 1;
            }
            proof {
                assert(block_contents(snapshot.blocks@).take(i as int) =~= block_contents(snapshot.blocks@));
            }
        },
        Message::ViewUpdate(update) => {
            let ghost all = block_contents(update.replace_blocks@) + effect_contents(update.effects@);
            let mut i: usize = 0;
            while i < update.replace_blocks.len()
                invariant
                    i <= update.replace_blocks.len(),
                    all == block_contents(update.replace_blocks@) + effect_contents(update.effects@),
                    contents@.map_values(|v: &Value| data_of(*v)) == all.take(i as int),
                decreases update.replace_blocks.len() - i,
            {
                let ghost before = contents@;
                contents.push(&update.replace_blocks[i].content);
                proof {
                    assert(contents@.map_values(|v: &Value| data_of(*v)) =~= before.map_values(
                        |v: &Value| data_of(*v),
                    ).push(data_of(update.replace_blocks@[i as int].content)));
                    assert(all.take(i as int + 1) =~= all.take(i as int).push(all[i as int]));
                }
                i = i + 1;
            }
            let mut k: usize = 0;
            while k < update.effects.len()
                invariant
                    k <= update.effects.len(),
                    all == block_contents(update.replace_blocks@) + effect_contents(update.effects@),
                    contents@.map_values(|v: &Value| data_of(*v)) == all.take(
                        update.replace_blocks.len() + k,
                    ),
                decreases update.effects.len() - k,
            {
                let ghost before = contents@;
                contents.push(&update.effects[k].content);
                proof {
                    let n = update.replace_blocks.len() + k;
                    assert(all[n as int] == data_of(update.effects@[k as int].content));
                    assert(contents@.map_values(|v: &Value| data_of(*v)) =~= before.map_values(
                        |v: &Value| data_of(*v),
                    ).push(all[n as int]));
                    assert(all.take(n + 1) =~= all.take(n as int).push(all[n as int]));
                }
                k = k + 1;
            }
            proof {
                assert(all.take(all.len() as int) =~= all);
            }
        },
        _ => {
            return Ok(());
        },
    }
    contents_references(&contents, known)
}

/// The message for an envelope written in another protocol version.
pub open spec fn version_message(version: u32) -> Seq<char> {
    "unsupported protocol version: "@ + decimal(version as nat) + " (expected "@ + decimal(
        PROTOCOL_VERSION as nat,
    ) + ")"@
}

/// Opens a decoded envelope: the version must be this protocol's, and the
/// message must pass `validate`.
pub fn open_envelope(protocol_version: u32, message: Message) -> (r: Result<Message, Error>)
    ensures
        protocol_version != PROTOCOL_VERSION ==> (r matches Err(e) && e.code@ == "incompatible_version"@
            && e.message@ == version_message(protocol_version)),
        protocol_version == PROTOCOL_VERSION ==> match r {
            Ok(m) => m == message && spec_validate(message) == Ok::<(), Seq<char>>(()),
            Err(e) => spec_validate(message) matches Err(t) && is_invalid_input(e, t),
        },
{
    if protocol_version != PROTOCOL_VERSION {
        let mut m = chars_of("unsupported protocol version: ");
        push_all(&mut m, &format_u64(protocol_version as u64));
        push_str(&mut m, " (expected ");
        push_all(&mut m, &format_u64(PROTOCOL_VERSION as u64));
        push_str(&mut m, ")");
        return Err(Error { code: String::from_str("incompatible_version"), message: string_of(&m), details: None });
    }
    match validate(&message) {
        Ok(()) => Ok(message),
        Err(e) => Err(e),
    }
}

} // verus!
