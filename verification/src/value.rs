//! Values held by the world store.
//!
//! A value is null, a boolean, an integer, a number, a string, a list, or a
//! record of named fields. Records keep their fields in increasing order of
//! name with no name twice, so two values are equal exactly when they are
//! written the same way.
use vstd::prelude::*;
use crate::text::{chars_eq, chars_of};

verus! {

/// A value of the world store.
#[derive(Debug, PartialEq)]
pub enum Value {
    Null,
    Bool(bool),
    Integer(i64),
    /// A finite number, held as the bits of its IEEE-754 double. Zero is
    /// held as positive zero, so two numbers are equal exactly when their
    /// bits are.
    Number(u64),
    String(String),
    List(Vec<Value>),
    /// Fields in increasing order of name, no name twice.
    Record(Vec<(String, Value)>),
}

/// The mathematical form of a value.
pub enum Data {
    Null,
    Bool(bool),
    Integer(i64),
    Number(u64),
    Text(Seq<char>),
    List(Seq<Data>),
    Record(Seq<(Seq<char>, Data)>),
}

/// The fields of a record: names and values.
pub type Fields = Seq<(Seq<char>, Data)>;

/// The mathematical form of an executable value.
pub open spec fn data_of(v: Value) -> Data
    decreases v,
{
    match v {
        Value::Null => Data::Null,
        Value::Bool(b) => Data::Bool(b),
        Value::Integer(i) => Data::Integer(i),
        Value::Number(n) => Data::Number(n),
        Value::String(s) => Data::Text(s@),
        Value::List(items) => Data::List(
            Seq::new(
                items@.len(),
                |i: int|
                    if 0 <= i < items@.len() {
                        data_of(items@[i])
                    } else {
                        Data::Null
                    },
            ),
        ),
        Value::Record(fields) => Data::Record(
            Seq::new(
                fields@.len(),
                |i: int|
                    if 0 <= i < fields@.len() {
                        (fields@[i].0@, data_of(fields@[i].1))
                    } else {
                        (Seq::empty(), Data::Null)
                    },
            ),
        ),
    }
}

/// The mathematical form of executable fields.
pub open spec fn fields_of(f: Seq<(String, Value)>) -> Fields {
    Seq::new(f.len(), |i: int| (f[i].0@, data_of(f[i].1)))
}

pub proof fn lemma_record_data(f: Vec<(String, Value)>)
    ensures
        data_of(Value::Record(f)) == Data::Record(fields_of(f@)),
{
    let d = data_of(Value::Record(f));
    match d {
        Data::Record(s) => {
            assert(s =~= fields_of(f@));
        },
        _ => {},
    }
}

// ---------------------------------------------------------------------------
// The order of names
// ---------------------------------------------------------------------------
/// `a` comes before `b`: the order of `str`, character by character.
pub open spec fn text_lt(a: Seq<char>, b: Seq<char>) -> bool
    decreases a.len(),
{
    if b.len() == 0 {
        false
    } else if a.len() == 0 {
        true
    } else if a[0] != b[0] {
        (a[0] as int) < (b[0] as int)
    } else {
        text_lt(a.drop_first(), b.drop_first())
    }
}

pub proof fn lemma_text_lt_irreflexive(a: Seq<char>)
    ensures
        !text_lt(a, a),
    decreases a.len(),
{
    if a.len() > 0 {
        lemma_text_lt_irreflexive(a.drop_first());
    }
}

pub proof fn lemma_text_lt_transitive(a: Seq<char>, b: Seq<char>, c: Seq<char>)
    requires
        text_lt(a, b),
        text_lt(b, c),
    ensures
        text_lt(a, c),
    decreases a.len(),
{
    if a.len() > 0 && b.len() > 0 && c.len() > 0 {
        if a[0] == b[0] && b[0] == c[0] {
            lemma_text_lt_transitive(a.drop_first(), b.drop_first(), c.drop_first());
        }
    }
}

pub proof fn lemma_text_lt_total(a: Seq<char>, b: Seq<char>)
    requires
        a != b,
    ensures
        text_lt(a, b) || text_lt(b, a),
    decreases a.len(),
{
    if a.len() > 0 && b.len() > 0 && a[0] == b[0] {
        if a.drop_first() == b.drop_first() {
            assert(a =~= seq![a[0]] + a.drop_first());
            assert(b =~= seq![b[0]] + b.drop_first());
        }
        lemma_text_lt_total(a.drop_first(), b.drop_first());
    } else if a.len() == 0 && b.len() == 0 {
        assert(a =~= b);
    } else if a.len() > 0 && b.len() > 0 {
        assert((a[0] as int) != (b[0] as int));
    }
}

pub proof fn lemma_text_lt_asymmetric(a: Seq<char>, b: Seq<char>)
    requires
        text_lt(a, b),
    ensures
        !text_lt(b, a),
{
    if text_lt(b, a) {
        lemma_text_lt_transitive(a, b, a);
        lemma_text_lt_irreflexive(a);
    }
}

/// Whether `a` comes before `b`.
pub fn text_less(a: &str, b: &str) -> (r: bool)
    ensures
        r == text_lt(a@, b@),
{
    let x = chars_of(a);
    let y = chars_of(b);
    let mut i: usize = 0;
    proof {
        assert(x@.subrange(0, x@.len() as int) =~= x@);
        assert(y@.subrange(0, y@.len() as int) =~= y@);
    }
    while i < x.len() && i < y.len() && x[i] == y[i]
        invariant
            i <= x.len(),
            i <= y.len(),
            x@.subrange(0, i as int) == y@.subrange(0, i as int),
            text_lt(x@, y@) == text_lt(x@.subrange(i as int, x@.len() as int), y@.subrange(
                i as int,
                y@.len() as int,
            )),
        decreases x.len() - i,
    {
        proof {
            let xs = x@.subrange(i as int, x@.len() as int);
            let ys = y@.subrange(i as int, y@.len() as int);
            assert(xs.drop_first() =~= x@.subrange(i as int + 1, x@.len() as int));
            assert(ys.drop_first() =~= y@.subrange(i as int + 1, y@.len() as int));
            assert(x@.subrange(0, i as int + 1) =~= x@.subrange(0, i as int).push(x@[i as int]));
            assert(y@.subrange(0, i as int + 1) =~= y@.subrange(0, i as int).push(y@[i as int]));
        }
        i = i + 1;
    }
    proof {
        assert(x@.subrange(0, x@.len() as int) =~= x@);
        assert(y@.subrange(0, y@.len() as int) =~= y@);
    }
    if i == y.len() {
        false
    } else if i == x.len() {
        true
    } else {
        x[i] < y[i]
    }
}

// ---------------------------------------------------------------------------
// Well-formed values
// ---------------------------------------------------------------------------
/// The bits of a finite double other than negative zero.
pub open spec fn finite_number(bits: u64) -> bool {
    &&& (bits / 0x10_0000_0000_0000) % 0x800 != 0x7ff
    &&& bits != 0x8000_0000_0000_0000
}

/// Names in strictly increasing order.
pub open spec fn names_increase<V>(f: Seq<(Seq<char>, V)>) -> bool {
    forall|i: int, j: int| 0 <= i < j < f.len() ==> text_lt(#[trigger] f[i].0, #[trigger] f[j].0)
}

/// Every number finite and not negative zero, and every record's names in
/// strictly increasing order, at every depth.
pub open spec fn well_formed(d: Data) -> bool
    decreases d,
{
    match d {
        Data::Number(bits) => finite_number(bits),
        Data::List(items) => forall|i: int| 0 <= i < items.len() ==> well_formed(#[trigger] items[i]),
        Data::Record(fields) => {
            &&& names_increase(fields)
            &&& forall|i: int| 0 <= i < fields.len() ==> well_formed(#[trigger] fields[i].1)
        },
        _ => true,
    }
}

/// The bits of a finite double: the exponent is not all ones.
pub open spec fn float_finite(bits: u64) -> bool {
    (bits / 0x10_0000_0000_0000) % 0x800 != 0x7ff
}

/// Every number in a value is finite, at every depth.
pub open spec fn all_finite(d: Data) -> bool
    decreases d, 0int,
{
    match d {
        Data::Number(bits) => float_finite(bits),
        Data::List(items) => items_finite(items, items.len() as int),
        Data::Record(fields) => fields_finite(fields, fields.len() as int),
        _ => true,
    }
}

/// The first `n` items have only finite numbers.
pub open spec fn items_finite(items: Seq<Data>, n: int) -> bool
    decreases items, n,
{
    if n <= 0 || n > items.len() {
        true
    } else {
        items_finite(items, n - 1) && all_finite(items[n - 1])
    }
}

/// The values of the first `n` fields have only finite numbers.
pub open spec fn fields_finite(fields: Fields, n: int) -> bool
    decreases fields, n,
{
    if n <= 0 || n > fields.len() {
        true
    } else {
        fields_finite(fields, n - 1) && all_finite(fields[n - 1].1)
    }
}

/// Finite numbers in the first `n` items are finite in fewer.
pub proof fn lemma_items_finite_prefix(items: Seq<Data>, n: int, m: int)
    requires
        0 <= m <= n <= items.len(),
        items_finite(items, n),
    ensures
        items_finite(items, m),
    decreases n - m,
{
    if m < n {
        lemma_items_finite_prefix(items, n - 1, m);
    }
}

/// Finite numbers in the first `n` fields are finite in fewer.
pub proof fn lemma_fields_finite_prefix(fields: Fields, n: int, m: int)
    requires
        0 <= m <= n <= fields.len(),
        fields_finite(fields, n),
    ensures
        fields_finite(fields, m),
    decreases n - m,
{
    if m < n {
        lemma_fields_finite_prefix(fields, n - 1, m);
    }
}

/// Fields in increasing order of name whose values are well formed.
pub open spec fn fields_well_formed(f: Fields) -> bool {
    well_formed(Data::Record(f))
}

pub proof fn lemma_fields_well_formed(f: Fields)
    ensures
        fields_well_formed(f) <==> (names_increase(f) && forall|i: int|
            0 <= i < f.len() ==> well_formed(#[trigger] f[i].1)),
{
}

// ---------------------------------------------------------------------------
// Fields by name
// ---------------------------------------------------------------------------
/// The names of fields, in order.
pub open spec fn names_of<V>(f: Seq<(Seq<char>, V)>) -> Seq<Seq<char>> {
    f.map_values(|p: (Seq<char>, V)| p.0)
}

/// How many names come before `k`, counted from the front while they do.
pub open spec fn name_position(names: Seq<Seq<char>>, k: Seq<char>) -> int
    decreases names.len(),
{
    if names.len() == 0 || !text_lt(names[0], k) {
        0
    } else {
        1 + name_position(names.drop_first(), k)
    }
}

/// The value of the field named `k`.
pub open spec fn field_get<V>(f: Seq<(Seq<char>, V)>, k: Seq<char>) -> Option<V>
    decreases f.len(),
{
    if f.len() == 0 {
        None
    } else if f[0].0 == k {
        Some(f[0].1)
    } else {
        field_get(f.drop_first(), k)
    }
}

/// The fields with `k` set to `v`: replaced where it is, otherwise added
/// before the first greater name.
pub open spec fn field_put<V>(f: Seq<(Seq<char>, V)>, k: Seq<char>, v: V) -> Seq<(Seq<char>, V)>
    decreases f.len(),
{
    if f.len() == 0 {
        seq![(k, v)]
    } else if f[0].0 == k {
        seq![(k, v)] + f.drop_first()
    } else if text_lt(k, f[0].0) {
        seq![(k, v)] + f
    } else {
        seq![f[0]] + field_put(f.drop_first(), k, v)
    }
}

/// The fields without the one named `k`.
pub open spec fn field_remove<V>(f: Seq<(Seq<char>, V)>, k: Seq<char>) -> Seq<(Seq<char>, V)>
    decreases f.len(),
{
    if f.len() == 0 {
        f
    } else if f[0].0 == k {
        f.drop_first()
    } else {
        seq![f[0]] + field_remove(f.drop_first(), k)
    }
}

pub proof fn lemma_position_bounds(names: Seq<Seq<char>>, k: Seq<char>)
    ensures
        0 <= name_position(names, k) <= names.len(),
        forall|j: int| 0 <= j < name_position(names, k) ==> text_lt(#[trigger] names[j], k),
        name_position(names, k) < names.len() ==> !text_lt(names[name_position(names, k)], k),
    decreases names.len(),
{
    if names.len() > 0 && text_lt(names[0], k) {
        lemma_position_bounds(names.drop_first(), k);
        assert forall|j: int| 0 <= j < name_position(names, k) implies text_lt(
            #[trigger] names[j],
            k,
        ) by {
            if j > 0 {
                assert(names[j] == names.drop_first()[j - 1]);
            }
        }
    }
}

proof fn lemma_none_equal<V>(f: Seq<(Seq<char>, V)>, k: Seq<char>)
    requires
        forall|j: int| 0 <= j < f.len() ==> f[j].0 != k,
    ensures
        field_get(f, k) is None,
    decreases f.len(),
{
    if f.len() > 0 {
        lemma_none_equal(f.drop_first(), k);
    }
}

/// Where the field named `k` is found in increasing names: at its position
/// if a field there has that name.
pub proof fn lemma_get_at<V>(f: Seq<(Seq<char>, V)>, k: Seq<char>)
    requires
        names_increase(f),
    ensures
        ({
            let p = name_position(names_of(f), k);
            field_get(f, k) == if p < f.len() && f[p].0 == k {
                Some(f[p].1)
            } else {
                None::<V>
            }
        }),
    decreases f.len(),
{
    let names = names_of(f);
    lemma_position_bounds(names, k);
    let p = name_position(names, k);
    if f.len() > 0 {
        if p > 0 {
            assert(names[0] == f[0].0);
            lemma_text_lt_irreflexive(k);
            assert(names_of(f.drop_first()) =~= names.drop_first());
            lemma_get_at(f.drop_first(), k);
        } else if f[0].0 != k {
            assert(names[0] == f[0].0);
            lemma_text_lt_total(f[0].0, k);
            assert forall|j: int| 0 <= j < f.len() implies f[j].0 != k by {
                if j > 0 {
                    assert(text_lt(f[0].0, f[j].0));
                    lemma_text_lt_transitive(k, f[0].0, f[j].0);
                    lemma_text_lt_irreflexive(k);
                }
            }
            lemma_none_equal(f, k);
        }
    }
}

/// Setting a field in increasing names replaces it where it is, or adds it
/// at its position.
pub proof fn lemma_put_at<V>(f: Seq<(Seq<char>, V)>, k: Seq<char>, v: V)
    requires
        names_increase(f),
    ensures
        ({
            let p = name_position(names_of(f), k);
            field_put(f, k, v) == if p < f.len() && f[p].0 == k {
                f.update(p, (k, v))
            } else {
                f.insert(p, (k, v))
            }
        }),
    decreases f.len(),
{
    let names = names_of(f);
    lemma_position_bounds(names, k);
    let p = name_position(names, k);
    if f.len() == 0 {
        assert(f.insert(0, (k, v)) =~= seq![(k, v)]);
    } else {
        assert(names[0] == f[0].0);
        if p > 0 {
            lemma_text_lt_irreflexive(k);
            lemma_text_lt_asymmetric(f[0].0, k);
            assert(names_of(f.drop_first()) =~= names.drop_first());
            lemma_put_at(f.drop_first(), k, v);
            let rest = f.drop_first();
            if p < f.len() && f[p].0 == k {
                assert(seq![f[0]] + rest.update(p - 1, (k, v)) =~= f.update(p, (k, v)));
            } else {
                assert(seq![f[0]] + rest.insert(p - 1, (k, v)) =~= f.insert(p, (k, v)));
            }
        } else if f[0].0 == k {
            assert(seq![(k, v)] + f.drop_first() =~= f.update(0, (k, v)));
        } else {
            lemma_text_lt_total(f[0].0, k);
            assert(seq![(k, v)] + f =~= f.insert(0, (k, v)));
        }
    }
}

/// Named entries with each value mapped by `f`.
pub open spec fn map_second<A, B>(s: Seq<(Seq<char>, A)>, f: spec_fn(A) -> B) -> Seq<(Seq<char>, B)> {
    s.map_values(|e: (Seq<char>, A)| (e.0, f(e.1)))
}

/// Setting a field and then mapping the values is mapping and then setting.
pub proof fn lemma_put_map<A, B>(s: Seq<(Seq<char>, A)>, k: Seq<char>, v: A, f: spec_fn(A) -> B)
    ensures
        map_second(field_put(s, k, v), f) == field_put(map_second(s, f), k, f(v)),
    decreases s.len(),
{
    if s.len() == 0 {
        assert(map_second(field_put(s, k, v), f) =~= seq![(k, f(v))]);
    } else if s[0].0 == k {
        assert(map_second(field_put(s, k, v), f) =~= seq![(k, f(v))] + map_second(s, f).drop_first());
    } else if text_lt(k, s[0].0) {
        assert(map_second(field_put(s, k, v), f) =~= seq![(k, f(v))] + map_second(s, f));
    } else {
        lemma_put_map(s.drop_first(), k, v, f);
        assert(map_second(s, f).drop_first() =~= map_second(s.drop_first(), f));
        assert(map_second(field_put(s, k, v), f) =~= seq![map_second(s, f)[0]] + map_second(
            field_put(s.drop_first(), k, v),
            f,
        ));
    }
}

/// Named entries set one after another, the first entry last, each in its
/// place by increasing name.
pub open spec fn sorted_entries<V>(s: Seq<(Seq<char>, V)>) -> Seq<(Seq<char>, V)>
    decreases s.len(),
{
    if s.len() == 0 {
        s
    } else {
        field_put(sorted_entries(s.drop_first()), s[0].0, s[0].1)
    }
}

/// Removing a field from increasing names removes it where it is.
pub proof fn lemma_remove_at<V>(f: Seq<(Seq<char>, V)>, k: Seq<char>)
    requires
        names_increase(f),
    ensures
        ({
            let p = name_position(names_of(f), k);
            field_remove(f, k) == if p < f.len() && f[p].0 == k {
                f.remove(p)
            } else {
                f
            }
        }),
    decreases f.len(),
{
    let names = names_of(f);
    lemma_position_bounds(names, k);
    let p = name_position(names, k);
    if f.len() > 0 {
        assert(names[0] == f[0].0);
        if p > 0 {
            lemma_text_lt_irreflexive(k);
            assert(names_of(f.drop_first()) =~= names.drop_first());
            lemma_remove_at(f.drop_first(), k);
            let rest = f.drop_first();
            if p < f.len() && f[p].0 == k {
                assert(seq![f[0]] + rest.remove(p - 1) =~= f.remove(p));
            } else {
                assert(seq![f[0]] + rest =~= f);
            }
        } else if f[0].0 == k {
            assert(f.drop_first() =~= f.remove(0));
        } else {
            lemma_text_lt_total(f[0].0, k);
            assert forall|j: int| 0 <= j < f.len() implies f[j].0 != k by {
                if j > 0 {
                    assert(text_lt(f[0].0, f[j].0));
                    lemma_text_lt_transitive(k, f[0].0, f[j].0);
                    lemma_text_lt_irreflexive(k);
                }
            }
            lemma_remove_absent(f, k);
        }
    }
}

proof fn lemma_remove_absent<V>(f: Seq<(Seq<char>, V)>, k: Seq<char>)
    requires
        forall|j: int| 0 <= j < f.len() ==> f[j].0 != k,
    ensures
        field_remove(f, k) == f,
    decreases f.len(),
{
    if f.len() > 0 {
        lemma_remove_absent(f.drop_first(), k);
        assert(seq![f[0]] + f.drop_first() =~= f);
    }
}

/// Setting a field keeps names in increasing order.
pub proof fn lemma_put_increases<V>(f: Seq<(Seq<char>, V)>, k: Seq<char>, v: V)
    requires
        names_increase(f),
    ensures
        names_increase(field_put(f, k, v)),
{
    lemma_put_at(f, k, v);
    let names = names_of(f);
    lemma_position_bounds(names, k);
    let p = name_position(names, k);
    let g = field_put(f, k, v);
    if p < f.len() && f[p].0 == k {
        assert forall|i: int, j: int| 0 <= i < j < g.len() implies text_lt(
            #[trigger] g[i].0,
            #[trigger] g[j].0,
        ) by {
            assert(g[i].0 == f[i].0);
            assert(g[j].0 == f[j].0);
        }
    } else {
        assert forall|j: int| p <= j < f.len() implies text_lt(k, #[trigger] f[j].0) by {
            assert(names[p] == f[p].0);
            lemma_text_lt_total(f[p].0, k);
            if j > p {
                lemma_text_lt_transitive(k, f[p].0, f[j].0);
            }
        }
        assert forall|i: int, j: int| 0 <= i < j < g.len() implies text_lt(
            #[trigger] g[i].0,
            #[trigger] g[j].0,
        ) by {
            if j < p {
                assert(g[i] == f[i] && g[j] == f[j]);
            } else if j == p {
                assert(names[i] == f[i].0);
            } else if i < p {
                assert(g[j] == f[j - 1]);
                assert(names[i] == f[i].0);
                lemma_text_lt_transitive(f[i].0, k, f[j - 1].0);
            } else if i == p {
                assert(g[j] == f[j - 1]);
            } else {
                assert(g[i] == f[i - 1] && g[j] == f[j - 1]);
            }
        }
    }
}

/// Removing a field keeps names in increasing order.
pub proof fn lemma_remove_increases<V>(f: Seq<(Seq<char>, V)>, k: Seq<char>)
    requires
        names_increase(f),
    ensures
        names_increase(field_remove(f, k)),
{
    lemma_remove_at(f, k);
    let p = name_position(names_of(f), k);
    lemma_position_bounds(names_of(f), k);
    let g = field_remove(f, k);
    if p < f.len() && f[p].0 == k {
        assert forall|i: int, j: int| 0 <= i < j < g.len() implies text_lt(
            #[trigger] g[i].0,
            #[trigger] g[j].0,
        ) by {
            let a = if i < p {
                i
            } else {
                i + 1
            };
            let b = if j < p {
                j
            } else {
                j + 1
            };
            assert(g[i] == f[a] && g[j] == f[b]);
        }
    }
}

/// What a field reads after it is set.
pub proof fn lemma_get_put<V>(f: Seq<(Seq<char>, V)>, k: Seq<char>, v: V, other: Seq<char>)
    ensures
        field_get(field_put(f, k, v), k) == Some(v),
        other != k ==> field_get(field_put(f, k, v), other) == field_get(f, other),
    decreases f.len(),
{
    if f.len() > 0 && f[0].0 != k && !text_lt(k, f[0].0) {
        lemma_get_put(f.drop_first(), k, v, other);
        let g = seq![f[0]] + field_put(f.drop_first(), k, v);
        assert(g.drop_first() =~= field_put(f.drop_first(), k, v));
        assert(field_put(f, k, v) == g);
        if other != k && f[0].0 != other {
            assert(field_get(g, other) == field_get(g.drop_first(), other));
        }
    } else if f.len() > 0 && f[0].0 == k {
        let g = seq![(k, v)] + f.drop_first();
        assert(g.drop_first() =~= f.drop_first());
        assert(field_put(f, k, v) == g);
        if other != k {
            assert(field_get(g, other) == field_get(g.drop_first(), other));
        }
    } else if f.len() > 0 {
        let g = seq![(k, v)] + f;
        assert(g.drop_first() =~= f);
        assert(field_put(f, k, v) == g);
        if other != k {
            assert(field_get(g, other) == field_get(g.drop_first(), other));
        }
    } else {
        let g = seq![(k, v)];
        assert(g.drop_first() =~= Seq::<(Seq<char>, V)>::empty());
        assert(field_put(f, k, v) == g);
        if other != k {
            assert(field_get(g, other) == field_get(g.drop_first(), other));
        }
    }
}

/// What a field reads after one is removed.
pub proof fn lemma_get_remove<V>(f: Seq<(Seq<char>, V)>, k: Seq<char>, other: Seq<char>)
    requires
        names_increase(f),
    ensures
        field_get(field_remove(f, k), k) is None,
        other != k ==> field_get(field_remove(f, k), other) == field_get(f, other),
{
    lemma_remove_increases(f, k);
    lemma_get_remove_other(f, k, other);
    let g = field_remove(f, k);
    lemma_remove_at(f, k);
    let p = name_position(names_of(f), k);
    lemma_position_bounds(names_of(f), k);
    if p < f.len() && f[p].0 == k {
        assert forall|j: int| 0 <= j < g.len() implies g[j].0 != k by {
            if j < p {
                assert(g[j] == f[j]);
                lemma_text_lt_irreflexive(k);
                assert(names_of(f)[j] == f[j].0);
            } else {
                assert(g[j] == f[j + 1]);
                assert(text_lt(f[p].0, f[j + 1].0));
                lemma_text_lt_irreflexive(k);
            }
        }
        lemma_none_equal(g, k);
    } else {
        lemma_get_at(f, k);
    }
}

proof fn lemma_get_remove_other<V>(f: Seq<(Seq<char>, V)>, k: Seq<char>, other: Seq<char>)
    ensures
        other != k ==> field_get(field_remove(f, k), other) == field_get(f, other),
    decreases f.len(),
{
    if f.len() > 0 && f[0].0 != k {
        lemma_get_remove_other(f.drop_first(), k, other);
        let g = seq![f[0]] + field_remove(f.drop_first(), k);
        assert(g.drop_first() =~= field_remove(f.drop_first(), k));
    }
}

/// The position of `key` among the names of `f`: the number of names
/// before it, counted from the front.
pub fn locate<T>(f: &Vec<(String, T)>, key: &str) -> (r: usize)
    ensures
        r == name_position(f@.map_values(|p: (String, T)| p.0@), key@),
        r <= f.len(),
{
    let ghost names = f@.map_values(|p: (String, T)| p.0@);
    proof {
        lemma_position_bounds(names, key@);
        assert(names.subrange(0, names.len() as int) =~= names);
    }
    let mut i: usize = 0;
    while i < f.len() && text_less(f[i].0.as_str(), key)
        invariant
            i <= f.len(),
            names == f@.map_values(|p: (String, T)| p.0@),
            name_position(names, key@) == i + name_position(names.subrange(i as int, names.len() as int), key@),
        decreases f.len() - i,
    {
        proof {
            let rest = names.subrange(i as int, names.len() as int);
            assert(rest.drop_first() =~= names.subrange(i as int + 1, names.len() as int));
            assert(rest[0] == names[i as int]);
        }
        i = i + 1;
    }
    proof {
        let rest = names.subrange(i as int, names.len() as int);
        if i < f.len() {
            assert(rest[0] == names[i as int]);
        }
    }
    i
}

/// Setting a well-formed value in well-formed fields keeps them well formed.
pub proof fn lemma_put_well_formed(f: Fields, k: Seq<char>, d: Data)
    requires
        fields_well_formed(f),
        well_formed(d),
    ensures
        fields_well_formed(field_put(f, k, d)),
{
    lemma_fields_well_formed(f);
    lemma_put_increases(f, k, d);
    lemma_put_at(f, k, d);
    lemma_position_bounds(names_of(f), k);
    let p = name_position(names_of(f), k);
    let g = field_put(f, k, d);
    assert forall|i: int| 0 <= i < g.len() implies well_formed(#[trigger] g[i].1) by {
        if g[i] != (k, d) {
            if p < f.len() && f[p].0 == k {
                assert(g[i] == f[i]);
            } else if i < p {
                assert(g[i] == f[i]);
            } else {
                assert(g[i] == f[i - 1]);
            }
        }
    }
    lemma_fields_well_formed(g);
}

/// Removing a field from well-formed fields keeps them well formed.
pub proof fn lemma_remove_well_formed(f: Fields, k: Seq<char>)
    requires
        fields_well_formed(f),
    ensures
        fields_well_formed(field_remove(f, k)),
{
    lemma_fields_well_formed(f);
    lemma_remove_increases(f, k);
    lemma_remove_at(f, k);
    lemma_position_bounds(names_of(f), k);
    let p = name_position(names_of(f), k);
    let g = field_remove(f, k);
    assert forall|i: int| 0 <= i < g.len() implies well_formed(#[trigger] g[i].1) by {
        if p < f.len() && f[p].0 == k && i >= p {
            assert(g[i] == f[i + 1]);
        } else {
            assert(g[i] == f[i]);
        }
    }
    lemma_fields_well_formed(g);
}

/// The value of a field of well-formed fields is well formed.
pub proof fn lemma_get_well_formed(f: Fields, k: Seq<char>)
    requires
        fields_well_formed(f),
    ensures
        field_get(f, k) matches Some(d) ==> well_formed(d),
{
    lemma_fields_well_formed(f);
    lemma_get_at(f, k);
    lemma_position_bounds(names_of(f), k);
}

/// A field's value lies inside the fields.
pub proof fn lemma_field_get_inside(f: Fields, k: Seq<char>)
    ensures
        field_get(f, k) matches Some(v) ==> decreases_to!(f => v),
    decreases f.len(),
{
    if f.len() > 0 {
        if f[0].0 == k {
            assert(decreases_to!(f => f[0]));
            assert(decreases_to!(f[0] => f[0].1));
        } else {
            lemma_field_get_inside(f.drop_first(), k);
            if field_get(f, k) is Some {
                let v = field_get(f, k)->Some_0;
                assert(f.drop_first() =~= f.subrange(1, f.len() as int));
                assert(decreases_to!(f => f.subrange(1, f.len() as int)));
                assert(decreases_to!(f.drop_first() => v));
            }
        }
    }
}

/// The first field named `name`, found by looking at every field in turn
/// (so the names need not be in order).
pub fn field_of<'a>(fields: &'a Vec<(String, Value)>, name: &str) -> (r: Option<&'a Value>)
    ensures
        match r {
            Some(v) => field_get(fields_of(fields@), name@) == Some(data_of(*v)) && exists|i: int|
                0 <= i < fields@.len() && *v == (#[trigger] fields@[i]).1,
            None => field_get(fields_of(fields@), name@) is None,
        },
{
    let ghost f = fields_of(fields@);
    proof {
        assert(f.subrange(0, f.len() as int) =~= f);
    }
    let mut i: usize = 0;
    while i < fields.len()
        invariant
            i <= fields.len(),
            f == fields_of(fields@),
            field_get(f, name@) == field_get(f.subrange(i as int, f.len() as int), name@),
        decreases fields.len() - i,
    {
        let ghost rest = f.subrange(i as int, f.len() as int);
        proof {
            assert(rest[0] == f[i as int]);
            assert(rest.drop_first() =~= f.subrange(i as int + 1, f.len() as int));
        }
        if crate::text::str_eq(fields[i].0.as_str(), name) {
            assert(fields@[i as int].1 == fields[i as int].1);
            return Some(&fields[i].1);
        }
        i = i + 1;
    }
    None
}

impl Value {
    /// The fields of a record.
    pub fn as_map(&self) -> (r: Option<&Vec<(String, Value)>>)
        ensures
            match *self {
                Value::Record(f) => r == Some(&f),
                _ => r is None,
            },
    {
        match self {
            Value::Record(f) => Some(f),
            _ => None,
        }
    }

    /// The field named `key` of a record.
    pub fn get(&self, key: &str) -> (r: Option<&Value>)
        requires
            well_formed(data_of(*self)),
        ensures
            match *self {
                Value::Record(f) => match r {
                    Some(x) => field_get(fields_of(f@), key@) == Some(data_of(*x)),
                    None => field_get(fields_of(f@), key@) is None,
                },
                _ => r is None,
            },
    {
        match self {
            Value::Record(f) => {
                let i = locate(f, key);
                proof {
                    lemma_record_data(*f);
                    let m = fields_of(f@);
                    assert(names_of(m) =~= f@.map_values(|p: (String, Value)| p.0@));
                    lemma_get_at(m, key@);
                }
                if i < f.len() && crate::text::str_eq(f[i].0.as_str(), key) {
                    Some(&f[i].1)
                } else {
                    None
                }
            },
            _ => None,
        }
    }

    /// The text of a string.
    pub fn as_str(&self) -> (r: Option<&str>)
        ensures
            match *self {
                Value::String(s) => r matches Some(t) && t@ == s@,
                _ => r is None,
            },
    {
        match self {
            Value::String(s) => Some(s.as_str()),
            _ => None,
        }
    }

    /// The integer of an integer value.
    pub fn as_i64(&self) -> (r: Option<i64>)
        ensures
            match *self {
                Value::Integer(i) => r == Some(i),
                _ => r is None,
            },
    {
        match self {
            Value::Integer(i) => Some(*i),
            _ => None,
        }
    }
}

// ---------------------------------------------------------------------------
// Copying and comparing values
// ---------------------------------------------------------------------------
/// A copy of a value.
pub fn copy_value(v: &Value) -> (r: Value)
    ensures
        data_of(r) == data_of(*v),
    decreases v,
{
    match v {
        Value::Null => Value::Null,
        Value::Bool(b) => Value::Bool(*b),
        Value::Integer(i) => Value::Integer(*i),
        Value::Number(n) => Value::Number(*n),
        Value::String(s) => Value::String(s.clone()),
        Value::List(items) => {
            let mut out: Vec<Value> = Vec::new();
            let mut i: usize = 0;
            while i < items.len()
                invariant
                    *v == Value::List(*items),
                    i <= items.len(),
                    out.len() == i,
                    forall|j: int| 0 <= j < i ==> data_of(#[trigger] out@[j]) == data_of(items@[j]),
                decreases items.len() - i,
            {
                proof {
                    assert(decreases_to!(*v => v->List_0));
                    assert(decreases_to!(v->List_0 => v->List_0@));
                    assert(decreases_to!(v->List_0@ => v->List_0@[i as int]));
                }
                let c = copy_value(&items[i]);
                out.push(c);
                i = i + 1;
            }
            let r = Value::List(out);
            proof {
                let d = data_of(r);
                let e = data_of(*v);
                match (d, e) {
                    (Data::List(x), Data::List(y)) => {
                        assert(x =~= y);
                    },
                    _ => {},
                }
            }
            r
        },
        Value::Record(fields) => {
            let out = copy_fields(fields);
            proof {
                lemma_record_data(out);
                lemma_record_data(*fields);
            }
            Value::Record(out)
        },
    }
}

impl Clone for Value {
    fn clone(&self) -> (r: Value)
        ensures
            data_of(r) == data_of(*self),
    {
        copy_value(self)
    }
}

/// A copy of fields.
pub fn copy_fields(f: &Vec<(String, Value)>) -> (r: Vec<(String, Value)>)
    ensures
        fields_of(r@) == fields_of(f@),
    decreases f,
{
    let mut out: Vec<(String, Value)> = Vec::new();
    let mut i: usize = 0;
    while i < f.len()
        invariant
            i <= f.len(),
            out.len() == i,
            forall|j: int| 0 <= j < i ==> (#[trigger] out@[j]).0@ == f@[j].0@ && data_of(out@[j].1) == data_of(f@[j].1),
        decreases f.len() - i,
    {
        let c = copy_value(&f[i].1);
        out.push((f[i].0.clone(), c));
        i = i + 1;
    }
    assert(fields_of(out@) =~= fields_of(f@));
    out
}

/// Whether two values are equal.
pub fn same_value(a: &Value, b: &Value) -> (r: bool)
    ensures
        r == (data_of(*a) == data_of(*b)),
    decreases a,
{
    match (a, b) {
        (Value::Null, Value::Null) => true,
        (Value::Bool(x), Value::Bool(y)) => *x == *y,
        (Value::Integer(x), Value::Integer(y)) => *x == *y,
        (Value::Number(x), Value::Number(y)) => *x == *y,
        (Value::String(x), Value::String(y)) => {
            let xs = chars_of(x.as_str());
            let ys = chars_of(y.as_str());
            chars_eq(&xs, &ys)
        },
        (Value::List(x), Value::List(y)) => {
            let ghost dx = Seq::new(x@.len(), |i: int| if 0 <= i < x@.len() { data_of(x@[i]) } else { Data::Null });
            let ghost dy = Seq::new(y@.len(), |i: int| if 0 <= i < y@.len() { data_of(y@[i]) } else { Data::Null });
            proof {
                match data_of(*a) {
                    Data::List(sx) => {
                        assert(sx =~= dx);
                    },
                    _ => {},
                }
                match data_of(*b) {
                    Data::List(sy) => {
                        assert(sy =~= dy);
                    },
                    _ => {},
                }
            }
            if x.len() != y.len() {
                assert(dx.len() != dy.len());
                return false;
            }
            let mut i: usize = 0;
            while i < x.len()
                invariant
                    *a == Value::List(*x),
                    *b == Value::List(*y),
                    data_of(*a) == Data::List(dx),
                    data_of(*b) == Data::List(dy),
                    x.len() == y.len(),
                    i <= x.len(),
                    dx == Seq::new(x@.len(), |i: int| if 0 <= i < x@.len() { data_of(x@[i]) } else { Data::Null }),
                    dy == Seq::new(y@.len(), |i: int| if 0 <= i < y@.len() { data_of(y@[i]) } else { Data::Null }),
                    forall|j: int| 0 <= j < i ==> dx[j] == dy[j],
                decreases x.len() - i,
            {
                proof {
                    assert(decreases_to!(*a => a->List_0));
                    assert(decreases_to!(a->List_0 => a->List_0@));
                    assert(decreases_to!(a->List_0@ => a->List_0@[i as int]));
                }
                if !same_value(&x[i], &y[i]) {
                    assert(dx[i as int] != dy[i as int]);
                    return false;
                }
                i = i + 1;
            }
            assert(dx =~= dy);
            true
        },
        (Value::Record(x), Value::Record(y)) => {
            proof {
                lemma_record_data(*x);
                lemma_record_data(*y);
            }
            same_fields(x, y)
        },
        _ => false,
    }
}

/// Whether two sets of fields are equal.
pub fn same_fields(x: &Vec<(String, Value)>, y: &Vec<(String, Value)>) -> (r: bool)
    ensures
        r == (fields_of(x@) == fields_of(y@)),
    decreases x,
{
    let ghost dx = fields_of(x@);
    let ghost dy = fields_of(y@);
    if x.len() != y.len() {
        assert(dx.len() != dy.len());
        return false;
    }
    let mut i: usize = 0;
    while i < x.len()
        invariant
            x.len() == y.len(),
            i <= x.len(),
            dx == fields_of(x@),
            dy == fields_of(y@),
            forall|j: int| 0 <= j < i ==> dx[j] == dy[j],
        decreases x.len() - i,
    {
        let xs = chars_of(x[i].0.as_str());
        let ys = chars_of(y[i].0.as_str());
        if !chars_eq(&xs, &ys) || !same_value(&x[i].1, &y[i].1) {
            assert(dx[i as int] != dy[i as int]);
            return false;
        }
        i = i + 1;
    }
    assert(dx =~= dy);
    true
}

} // verus!
