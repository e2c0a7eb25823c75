//! A stable sort by integer keys compared lexicographically, as the slice
//! method `sort_by_key` of std orders a list: items with equal keys keep the
//! order they came in.
use vstd::prelude::*;

verus! {

/// Whether key `a` sorts no later than key `b`, comparing the components in
/// turn.
pub open spec fn key_le(a: (i128, i128, i128, i128), b: (i128, i128, i128, i128)) -> bool {
    a.0 < b.0 || (a.0 == b.0 && (a.1 < b.1 || (a.1 == b.1 && (a.2 < b.2 || (a.2 == b.2 && a.3
        <= b.3)))))
}

/// `x` placed into the sorted list `s` behind every item whose key sorts no
/// later than its own.
pub open spec fn insert_sorted<T>(
    s: Seq<((i128, i128, i128, i128), T)>,
    x: ((i128, i128, i128, i128), T),
) -> Seq<((i128, i128, i128, i128), T)>
    decreases s.len(),
{
    if s.len() == 0 {
        seq![x]
    } else if key_le(s.last().0, x.0) {
        s.push(x)
    } else {
        insert_sorted(s.drop_last(), x).push(s.last())
    }
}

/// `s` ordered by key; items with equal keys keep their order.
pub open spec fn sorted_by_key<T>(s: Seq<((i128, i128, i128, i128), T)>) -> Seq<
    ((i128, i128, i128, i128), T),
>
    decreases s.len(),
{
    if s.len() == 0 {
        s
    } else {
        insert_sorted(sorted_by_key(s.drop_last()), s.last())
    }
}

/// Whether `s` is in key order.
pub open spec fn in_key_order<T>(s: Seq<((i128, i128, i128, i128), T)>) -> bool {
    forall|i: int, j: int| 0 <= i < j < s.len() ==> key_le(#[trigger] s[i].0, #[trigger] s[j].0)
}

fn key_le_exec(a: (i128, i128, i128, i128), b: (i128, i128, i128, i128)) -> (r: bool)
    ensures
        r == key_le(a, b),
{
    a.0 < b.0 || (a.0 == b.0 && (a.1 < b.1 || (a.1 == b.1 && (a.2 < b.2 || (a.2 == b.2 && a.3
        <= b.3)))))
}

fn insert_item<T>(out: &mut Vec<((i128, i128, i128, i128), T)>, item: ((i128, i128, i128, i128), T))
    ensures
        final(out)@ == insert_sorted(old(out)@, item),
{
    let ghost s = out@;
    let key = item.0;
    let mut j: usize = out.len();
    proof {
        assert(s.take(j as int) =~= s);
        assert(insert_sorted(s, item) + s.skip(j as int) =~= insert_sorted(s, item));
    }
    while j > 0 && !key_le_exec(out[j - 1].0, key)
        invariant
            j <= s.len(),
            out@ == s,
            key == item.0,
            insert_sorted(s, item) == insert_sorted(s.take(j as int), item) + s.skip(j as int),
        decreases j,
    {
        proof {
            let t = s.take(j as int);
            assert(t.drop_last() =~= s.take(j - 1));
            assert(t.last() == s[j - 1]);
            assert(insert_sorted(t, item) == insert_sorted(s.take(j - 1), item).push(s[j - 1]));
            assert(insert_sorted(s.take(j - 1), item).push(s[j - 1]) + s.skip(j as int)
                =~= insert_sorted(s.take(j - 1), item) + s.skip(j - 1));
        }
        j = j - 1;
    }
    proof {
        let t = s.take(j as int);
        if j == 0 {
            assert(insert_sorted(t, item) == seq![item]);
        } else {
            assert(t.last() == s[j - 1]);
            assert(insert_sorted(t, item) == t.push(item));
        }
        assert(insert_sorted(t, item) + s.skip(j as int) =~= s.insert(j as int, item));
    }
    out.insert(j, item);
}

/// The list ordered by key; items with equal keys keep their order.
pub fn sort_by_key<T>(v: Vec<((i128, i128, i128, i128), T)>) -> (r: Vec<((i128, i128, i128, i128), T)>)
    ensures
        r@ == sorted_by_key(v@),
{
    let ghost v0 = v@;
    let mut rest = v;
    let mut out: Vec<((i128, i128, i128, i128), T)> = Vec::new();
    let ghost mut i: int = 0;
    while rest.len() > 0
        invariant
            0 <= i <= v0.len(),
            rest@ == v0.skip(i),
            out@ == sorted_by_key(v0.take(i)),
        decreases rest.len(),
    {
        let item = rest.remove(0);
        proof {
            assert(v0.take(i + 1).drop_last() =~= v0.take(i));
            assert(v0.take(i + 1).last() == item);
            assert(rest@ =~= v0.skip(i + 1));
        }
        insert_item(&mut out, item);
        proof {
            i = i + 1;
        }
    }
    proof {
        assert(v0.take(i) =~= v0);
    }
    out
}

/// The items of a keyed list, in its order.
pub fn items_of<T>(v: Vec<((i128, i128, i128, i128), T)>) -> (r: Vec<T>)
    ensures
        r@ == v@.map_values(|p: ((i128, i128, i128, i128), T)| p.1),
{
    let ghost v0 = v@;
    let mut rest = v;
    let mut out: Vec<T> = Vec::new();
    let ghost mut i: int = 0;
    while rest.len() > 0
        invariant
            0 <= i <= v0.len(),
            rest@ == v0.skip(i),
            out@ == v0.take(i).map_values(|p: ((i128, i128, i128, i128), T)| p.1),
        decreases rest.len(),
    {
        let item = rest.remove(0);
        proof {
            assert(rest@ =~= v0.skip(i + 1));
        }
        out.push(item.1);
        proof {
            assert(out@ =~= v0.take(i + 1).map_values(|p: ((i128, i128, i128, i128), T)| p.1));
            i = i + 1;
        }
    }
    proof {
        assert(v0.take(i) =~= v0);
    }
    out
}

/// Changing the items of a list, keys kept, commutes with placing an item.
pub proof fn lemma_insert_map_items<T, U>(
    s: Seq<((i128, i128, i128, i128), T)>,
    x: ((i128, i128, i128, i128), T),
    f: spec_fn(T) -> U,
)
    ensures
        insert_sorted(s, x).map_values(|p: ((i128, i128, i128, i128), T)| (p.0, f(p.1)))
            == insert_sorted(
            s.map_values(|p: ((i128, i128, i128, i128), T)| (p.0, f(p.1))),
            (x.0, f(x.1)),
        ),
    decreases s.len(),
{
    let g = |p: ((i128, i128, i128, i128), T)| (p.0, f(p.1));
    let ms = s.map_values(g);
    if s.len() == 0 {
        assert(insert_sorted(s, x).map_values(g) =~= seq![g(x)]);
    } else {
        assert(ms.last() == g(s.last()));
        assert(ms.drop_last() =~= s.drop_last().map_values(g));
        if key_le(s.last().0, x.0) {
            assert(s.push(x).map_values(g) =~= ms.push(g(x)));
        } else {
            lemma_insert_map_items(s.drop_last(), x, f);
            assert(insert_sorted(s.drop_last(), x).push(s.last()).map_values(g)
                =~= insert_sorted(s.drop_last(), x).map_values(g).push(g(s.last())));
        }
    }
}

/// Changing the items of a list, keys kept, commutes with sorting it.
pub proof fn lemma_sorted_map_items<T, U>(s: Seq<((i128, i128, i128, i128), T)>, f: spec_fn(T) -> U)
    ensures
        sorted_by_key(s).map_values(|p: ((i128, i128, i128, i128), T)| (p.0, f(p.1)))
            == sorted_by_key(s.map_values(|p: ((i128, i128, i128, i128), T)| (p.0, f(p.1)))),
    decreases s.len(),
{
    let g = |p: ((i128, i128, i128, i128), T)| (p.0, f(p.1));
    if s.len() == 0 {
        assert(s.map_values(g) =~= Seq::<((i128, i128, i128, i128), U)>::empty());
        assert(sorted_by_key(s).map_values(g) =~= Seq::<((i128, i128, i128, i128), U)>::empty());
    } else {
        lemma_sorted_map_items(s.drop_last(), f);
        assert(s.map_values(g).drop_last() =~= s.drop_last().map_values(g));
        assert(s.map_values(g).last() == g(s.last()));
        lemma_insert_map_items(sorted_by_key(s.drop_last()), s.last(), f);
    }
}

/// Placing an item into a list in key order keeps it in key order.
proof fn lemma_insert_in_order<T>(s: Seq<((i128, i128, i128, i128), T)>, x: ((i128, i128, i128, i128), T))
    requires
        in_key_order(s),
    ensures
        in_key_order(insert_sorted(s, x)),
        insert_sorted(s, x).to_multiset() == s.to_multiset().insert(x),
    decreases s.len(),
{
    broadcast use vstd::seq_lib::group_to_multiset_ensures;
    if s.len() == 0 {
        assert(seq![x] =~= Seq::<((i128, i128, i128, i128), T)>::empty().push(x));
    } else if key_le(s.last().0, x.0) {
        let r = s.push(x);
        assert forall|i: int, j: int| 0 <= i < j < r.len() implies key_le(
            #[trigger] r[i].0,
            #[trigger] r[j].0,
        ) by {
            if j == s.len() {
                assert(key_le(s[i].0, s.last().0) || i == s.len() - 1);
            }
        }
    } else {
        let d = s.drop_last();
        assert(in_key_order(d));
        lemma_insert_in_order(d, x);
        let m = insert_sorted(d, x);
        let r = m.push(s.last());
        assert(s =~= d.push(s.last()));
        assert forall|i: int, j: int| 0 <= i < j < r.len() implies key_le(
            #[trigger] r[i].0,
            #[trigger] r[j].0,
        ) by {
            if j == m.len() {
                assert(m.to_multiset().count(r[i]) > 0) by {
                    assert(m.contains(r[i]));
                }
                assert(d.push(x).to_multiset() == m.to_multiset()) by {
                    assert(d.push(x).to_multiset() == d.to_multiset().insert(x));
                }
                assert(d.push(x).contains(r[i]));
                let k = choose|k: int| 0 <= k < d.push(x).len() && d.push(x)[k] == r[i];
                if k < d.len() {
                    assert(key_le(s[k].0, s[s.len() - 1].0));
                } else {
                    assert(!key_le(s.last().0, x.0));
                }
            }
        }
    }
}

/// A sorted list is in key order and holds the same items as the list it
/// came from.
pub proof fn lemma_sorted_by_key_sorts<T>(s: Seq<((i128, i128, i128, i128), T)>)
    ensures
        in_key_order(sorted_by_key(s)),
        sorted_by_key(s).to_multiset() == s.to_multiset(),
    decreases s.len(),
{
    broadcast use vstd::seq_lib::group_to_multiset_ensures;
    if s.len() > 0 {
        lemma_sorted_by_key_sorts(s.drop_last());
        lemma_insert_in_order(sorted_by_key(s.drop_last()), s.last());
        assert(s =~= s.drop_last().push(s.last()));
    }
}


/// Where every key is computed from its item, the items of the sorted list
/// are in the order of their keys, and none is lost or added.
pub proof fn lemma_sorted_items_in_order<T>(
    s: Seq<((i128, i128, i128, i128), T)>,
    key: spec_fn(T) -> (i128, i128, i128, i128),
)
    requires
        forall|i: int| 0 <= i < s.len() ==> (#[trigger] s[i]).0 == key(s[i].1),
    ensures
        sorted_by_key(s).len() == s.len(),
        forall|i: int, j: int|
            0 <= i < j < s.len() ==> key_le(
                key(#[trigger] sorted_by_key(s)[i].1),
                key(#[trigger] sorted_by_key(s)[j].1),
            ),
{
    broadcast use vstd::seq_lib::group_to_multiset_ensures;
    lemma_sorted_by_key_sorts(s);
    let r = sorted_by_key(s);
    assert(r.len() == s.len()) by {
        assert(r.to_multiset().len() == s.to_multiset().len());
    }
    assert forall|i: int| 0 <= i < r.len() implies (#[trigger] r[i]).0 == key(r[i].1) by {
        assert(r.to_multiset().count(r[i]) > 0) by {
            assert(r.contains(r[i]));
        }
        assert(s.contains(r[i]));
        let k = choose|k: int| 0 <= k < s.len() && s[k] == r[i];
        assert(s[k].0 == key(s[k].1));
    }
    assert forall|i: int, j: int| 0 <= i < j < s.len() implies key_le(
        key(#[trigger] r[i].1),
        key(#[trigger] r[j].1),
    ) by {
        assert(key_le(r[i].0, r[j].0));
        assert(r[i].0 == key(r[i].1));
        assert(r[j].0 == key(r[j].1));
    }
}
} // verus!
