//! The pieces of loading a game that read its data files: rule module
//! names, single root nodes, path lists, integer attributes and dialogs.
use vstd::prelude::*;
use crate::data_format::{
    has_name, lookup, missing_attribute, named, node_view, nodes_view, parse, parse_wml, Node,
    WmlNode,
};
use crate::resources::{replace_char, spec_module_path, valid_module_name, is_name_char};
use crate::value::{lemma_put_increases, lemma_put_map, map_second, names_increase, sorted_entries};
use crate::world::{keyed, put_keyed};
use crate::text::{
    chars_of, ends_with, ends_with_str, split, split_from, parse_i64 as parse_i64_chars, parse_signed, push_all,
    push_str, slice_chars, str_eq, string_of,
};

verus! {

/// One line of a dialog.
#[derive(Clone, Debug, PartialEq, Eq)]
pub struct DialogLine {
    pub speaker: String,
    pub text: String,
}

/// The module name of a rule file: `rules/a.lua` is `rules.a`.
pub open spec fn spec_lua_path_to_module(path: Seq<char>) -> Result<Seq<char>, Seq<char>> {
    if ends_with(path, ".lua"@) {
        Ok(
            path.subrange(0, path.len() - 4).map_values(
                |c: char|
                    if c == '/' {
                        '.'
                    } else {
                        c
                    },
            ),
        )
    } else {
        Err("rule module must end with .lua: "@ + path)
    }
}

/// The module name of a rule file.
pub fn lua_path_to_module(path: &str) -> (r: Result<String, String>)
    ensures
        match r {
            Ok(m) => spec_lua_path_to_module(path@) == Ok::<Seq<char>, Seq<char>>(m@),
            Err(m) => spec_lua_path_to_module(path@) == Err::<Seq<char>, Seq<char>>(m@),
        },
{
    let v = chars_of(path);
    if !ends_with_str(&v, ".lua") {
        let mut m: Vec<char> = Vec::new();
        push_str(&mut m, "rule module must end with .lua: ");
        push_all(&mut m, &v);
        return Err(string_of(&m));
    }
    proof {
        reveal_strlit(".lua");
    }
    let stem = slice_chars(&v, 0, v.len() - 4);
    let mut out: Vec<char> = Vec::new();
    let mut i: usize = 0;
    while i < stem.len()
        invariant
            i <= stem.len(),
            out@ == stem@.take(i as int).map_values(
                |c: char|
                    if c == '/' {
                        '.'
                    } else {
                        c
                    },
            ),
        decreases stem.len() - i,
    {
        let c = stem[i];
        out.push(if c == '/' { '.' } else { c });
        assert(stem@.take(i as int + 1).map_values(
            |c: char|
                if c == '/' {
                    '.'
                } else {
                    c
                },
        ) =~= stem@.take(i as int).map_values(
            |c: char|
                if c == '/' {
                    '.'
                } else {
                    c
                },
        ).push(if c == '/' { '.' } else { c }));
        i = i + 1;
    }
    assert(stem@.take(stem.len() as int) =~= stem@);
    Ok(string_of(&out))
}

/// Reads and parses a data file with `read`; a parse error is reported with
/// the path.
pub fn read_wml<F: Fn(&str) -> Result<String, String>>(path: &str, read: &F) -> (r: Result<
    Vec<Node>,
    String,
>)
    requires
        forall|p: &str| read.requires((p,)),
    ensures
        exists|t: Result<String, String>|
            #[trigger] read.ensures((path,), t) && match t {
                Err(e) => r matches Err(m) && m@ == e@,
                Ok(text) => match parse_wml(text@) {
                    Ok(nodes) => r matches Ok(v) && nodes_view(v@) == nodes,
                    Err(e) => r matches Err(m) && m@ == path@ + ": "@ + e,
                },
            },
{
    let t = read(path);
    match t {
        Err(e) => {
            let r: Result<Vec<Node>, String> = Err(e);
            assert(read.ensures((path,), t));
            r
        },
        Ok(text) => match parse(text.as_str()) {
            Ok(nodes) => {
                assert(read.ensures((path,), Ok::<String, String>(text)));
                Ok(nodes)
            },
            Err(e) => {
                let mut m = chars_of(path);
                push_str(&mut m, ": ");
                push_str(&mut m, e.as_str());
                assert(read.ensures((path,), Ok::<String, String>(text)));
                Err(string_of(&m))
            },
        },
    }
}

/// The one node named `name` among `nodes`.
pub fn one_root<'a>(nodes: &'a [Node], name: &str) -> (r: Result<&'a Node, String>)
    ensures
        match r {
            Ok(n) => nodes@.filter(has_name(name@)) == seq![*n],
            Err(m) => (nodes@.filter(has_name(name@)).len() == 0 && m@ == "missing ["@ + name@
                + "]"@) || (nodes@.filter(has_name(name@)).len() > 1 && m@ == "expected one ["@
                + name@ + "]"@),
        },
{
    let ghost f = has_name(name@);
    let mut found: Option<usize> = None;
    let mut i: usize = 0;
    while i < nodes.len()
        invariant
            i <= nodes@.len(),
            f == has_name(name@),
            match found {
                None => nodes@.take(i as int).filter(f).len() == 0,
                Some(k) => k < i && nodes@.take(i as int).filter(f) == seq![nodes@[k as int]],
            },
        decreases nodes@.len() - i,
    {
        proof {
            assert(nodes@.take(i as int + 1).drop_last() =~= nodes@.take(i as int));
            reveal(Seq::filter);
        }
        if str_eq(nodes[i].name.as_str(), name) {
            if found.is_some() {
                proof {
                    lemma_filter_grows(nodes@, f, i as int);
                }
                let mut m: Vec<char> = Vec::new();
                push_str(&mut m, "expected one [");
                push_str(&mut m, name);
                push_str(&mut m, "]");
                return Err(string_of(&m));
            }
            found = Some(i);
            assert(nodes@.take(i as int + 1).filter(f) =~= seq![nodes@[i as int]]);
        }
        i = i + 1;
    }
    assert(nodes@.take(nodes@.len() as int) =~= nodes@);
    match found {
        Some(k) => Ok(&nodes[k]),
        None => {
            let mut m: Vec<char> = Vec::new();
            push_str(&mut m, "missing [");
            push_str(&mut m, name);
            push_str(&mut m, "]");
            Err(string_of(&m))
        },
    }
}

proof fn lemma_filter_grows(s: Seq<Node>, f: spec_fn(Node) -> bool, i: int)
    requires
        0 <= i < s.len(),
        f(s[i]),
        s.take(i).filter(f).len() == 1,
    ensures
        s.filter(f).len() > 1,
{
    reveal(Seq::filter);
    assert(s.take(i + 1).drop_last() =~= s.take(i));
    assert(s.take(i + 1).filter(f).len() == 2);
    lemma_filter_prefix(s, f, i + 1);
}

proof fn lemma_filter_prefix(s: Seq<Node>, f: spec_fn(Node) -> bool, k: int)
    requires
        0 <= k <= s.len(),
    ensures
        s.filter(f).len() >= s.take(k).filter(f).len(),
    decreases s.len() - k,
{
    if k < s.len() {
        lemma_filter_prefix(s, f, k + 1);
        reveal(Seq::filter);
        assert(s.take(k + 1).drop_last() =~= s.take(k));
    } else {
        assert(s.take(k) =~= s);
    }
}

/// The non-empty trimmed comma-separated paths of a value.
pub fn split_paths(value: &str) -> (r: Vec<String>)
    ensures
        r@.map_values(|s: String| s@) == crate::text::csv(value@),
{
    crate::terrain_rules::csv(value)
}

/// The `i64` attribute `name` of a node.
pub fn parse_i64(node: &Node, name: &str) -> (r: Result<i64, String>)
    ensures
        match r {
            Ok(d) => lookup(node_view(*node).attributes, name@) matches Some(v) && parse_signed(
                v,
                i64::MIN as int,
                i64::MAX as int,
            ) == Some(d as int),
            Err(m) => match lookup(node_view(*node).attributes, name@) {
                None => m@ == missing_attribute(node.name@, name@),
                Some(v) => parse_signed(v, i64::MIN as int, i64::MAX as int) is None && m@ == "["@
                    + node.name@ + "]."@ + name@ + " must be an integer"@,
            },
        },
{
    let value = match node.attribute(name) {
        Ok(v) => v,
        Err(e) => {
            return Err(e);
        },
    };
    let v = chars_of(value);
    match parse_i64_chars(&v) {
        Some(d) => Ok(d),
        None => {
            let mut m: Vec<char> = Vec::new();
            push_str(&mut m, "[");
            push_str(&mut m, node.name.as_str());
            push_str(&mut m, "].");
            push_str(&mut m, name);
            push_str(&mut m, " must be an integer");
            Err(string_of(&m))
        },
    }
}

// ---------------------------------------------------------------------------
// Dialogs
// ---------------------------------------------------------------------------
/// A `[line]` node read as a dialog line.
pub open spec fn spec_dialog_line(n: WmlNode) -> Result<(Seq<char>, Seq<char>), Seq<char>> {
    match lookup(n.attributes, "speaker"@) {
        None => Err(missing_attribute(n.name, "speaker"@)),
        Some(s) => match lookup(n.attributes, "text"@) {
            None => Err(missing_attribute(n.name, "text"@)),
            Some(t) => Ok((s, t)),
        },
    }
}

/// The lines of a dialog, stopping at the first bad line.
pub open spec fn spec_dialog_lines(ns: Seq<WmlNode>) -> Result<Seq<(Seq<char>, Seq<char>)>, Seq<char>>
    decreases ns.len(),
{
    if ns.len() == 0 {
        Ok(seq![])
    } else {
        match spec_dialog_line(ns[0]) {
            Err(e) => Err(e),
            Ok(l) => match spec_dialog_lines(ns.drop_first()) {
                Err(e) => Err(e),
                Ok(ls) => Ok(seq![l] + ls),
            },
        }
    }
}

pub struct DialogSpec {
    pub id: Seq<char>,
    pub lines: Seq<(Seq<char>, Seq<char>)>,
}

/// The dialogs of the `[dialog]` nodes among `ns`, given those read so far.
pub open spec fn spec_dialogs(ns: Seq<WmlNode>, done: Seq<DialogSpec>) -> Result<
    Seq<DialogSpec>,
    Seq<char>,
>
    decreases ns.len(),
{
    if ns.len() == 0 {
        Ok(done)
    } else if ns[0].name != "dialog"@ {
        spec_dialogs(ns.drop_first(), done)
    } else {
        let d = ns[0];
        match lookup(d.attributes, "id"@) {
            None => Err(missing_attribute(d.name, "id"@)),
            Some(id) => match spec_dialog_lines(named(d.children, "line"@)) {
                Err(e) => Err(e),
                Ok(lines) => if lines.len() == 0 {
                    Err("dialog "@ + id + " has no lines"@)
                } else if exists|k: int| 0 <= k < done.len() && (#[trigger] done[k]).id == id {
                    Err("duplicate dialog id: "@ + id)
                } else {
                    spec_dialogs(ns.drop_first(), done.push(DialogSpec { id, lines }))
                },
            },
        }
    }
}

pub open spec fn dialog_is(d: (String, Vec<DialogLine>), s: DialogSpec) -> bool {
    &&& d.0@ == s.id
    &&& d.1@.len() == s.lines.len()
    &&& forall|j: int|
        0 <= j < s.lines.len() ==> (#[trigger] d.1@[j]).speaker@ == s.lines[j].0 && d.1@[j].text@
            == s.lines[j].1
}

pub open spec fn dialogs_are(v: Seq<(String, Vec<DialogLine>)>, s: Seq<DialogSpec>) -> bool {
    &&& v.len() == s.len()
    &&& forall|j: int| 0 <= j < s.len() ==> dialog_is(#[trigger] v[j], s[j])
}

fn dialog_lines(dialog: &Node) -> (r: Result<Vec<DialogLine>, String>)
    ensures
        match r {
            Ok(v) => spec_dialog_lines(named(node_view(*dialog).children, "line"@)) matches Ok(ls)
                && v@.len() == ls.len() && forall|j: int|
                0 <= j < ls.len() ==> (#[trigger] v@[j]).speaker@ == ls[j].0 && v@[j].text@
                    == ls[j].1,
            Err(m) => spec_dialog_lines(named(node_view(*dialog).children, "line"@)) == Err::<
                Seq<(Seq<char>, Seq<char>)>,
                Seq<char>,
            >(m@),
        },
{
    let children = dialog.children_named("line");
    let ghost cn = children@.map_values(|c: &Node| node_view(*c));
    let mut out: Vec<DialogLine> = Vec::new();
    let ghost mut done: Seq<(Seq<char>, Seq<char>)> = seq![];
    let mut i: usize = 0;
    assert(cn.subrange(0, cn.len() as int) =~= cn);
    while i < children.len()
        invariant
            i <= children.len(),
            cn == children@.map_values(|c: &Node| node_view(*c)),
            cn == named(node_view(*dialog).children, "line"@),
            cn.len() == children@.len(),
            spec_dialog_lines(cn) == match spec_dialog_lines(
                cn.subrange(i as int, cn.len() as int),
            ) {
                Ok(ls) => Ok(done + ls),
                Err(e) => Err(e),
            },
            out@.len() == done.len(),
            forall|j: int|
                0 <= j < done.len() ==> (#[trigger] out@[j]).speaker@ == done[j].0 && out@[j].text@
                    == done[j].1,
        decreases children.len() - i,
    {
        let ghost rest = cn.subrange(i as int, cn.len() as int);
        assert(rest[0] == node_view(*children@[i as int]));
        assert(rest.drop_first() =~= cn.subrange(i + 1, cn.len() as int));
        let line = children[i];
        let speaker = match line.attribute("speaker") {
            Ok(s) => s,
            Err(e) => {
                return Err(e);
            },
        };
        let text = match line.attribute("text") {
            Ok(t) => t,
            Err(e) => {
                return Err(e);
            },
        };
        proof {
            match spec_dialog_lines(cn.subrange(i + 1, cn.len() as int)) {
                Ok(more) => {
                    assert(done + (seq![(speaker@, text@)] + more) =~= done.push((speaker@, text@))
                        + more);
                },
                Err(e) => {},
            }
            done = done.push((speaker@, text@));
        }
        out.push(DialogLine { speaker: String::from_str(speaker), text: String::from_str(text) });
        i = i + 1;
    }
    assert(cn.subrange(cn.len() as int, cn.len() as int).len() == 0);
    assert(done + seq![] =~= done);
    Ok(out)
}

/// The lines of a dialog as plain values.
pub open spec fn lines_view(v: Vec<DialogLine>) -> Seq<(Seq<char>, Seq<char>)> {
    v@.map_values(|l: DialogLine| (l.speaker@, l.text@))
}

pub open spec fn lines_of() -> spec_fn(Vec<DialogLine>) -> Seq<(Seq<char>, Seq<char>)> {
    |v: Vec<DialogLine>| lines_view(v)
}

/// Dialogs as ids and lines.
pub open spec fn dialog_entries(ds: Seq<DialogSpec>) -> Seq<(Seq<char>, Seq<(Seq<char>, Seq<char>)>)> {
    ds.map_values(|d: DialogSpec| (d.id, d.lines))
}

proof fn lemma_sorted_entries_increase<V>(s: Seq<(Seq<char>, V)>)
    ensures
        names_increase(sorted_entries(s)),
    decreases s.len(),
{
    if s.len() > 0 {
        lemma_sorted_entries_increase(s.drop_first());
        lemma_put_increases(sorted_entries(s.drop_first()), s[0].0, s[0].1);
    }
}

/// The dialogs of a file: each `[dialog]` node with an `id` and at least one
/// `[line]`; an id may occur once. The dialogs come in increasing order of
/// id.
#[verifier::loop_isolation(false)]
pub fn load_dialogs(nodes: &[Node]) -> (r: Result<Vec<(String, Vec<DialogLine>)>, String>)
    ensures
        match r {
            Ok(v) => spec_dialogs(nodes_view(nodes@), seq![]) matches Ok(ds) && map_second(
                keyed(v@),
                lines_of(),
            ) == sorted_entries(dialog_entries(ds)) && names_increase(map_second(keyed(v@), lines_of())),
            Err(m) => spec_dialogs(nodes_view(nodes@), seq![]) == Err::<Seq<DialogSpec>, Seq<char>>(
                m@,
            ),
        },
{
    let ghost nv = nodes_view(nodes@);
    let mut out: Vec<(String, Vec<DialogLine>)> = Vec::new();
    let ghost mut done: Seq<DialogSpec> = seq![];
    let mut i: usize = 0;
    assert(nv.subrange(0, nv.len() as int) =~= nv);
    while i < nodes.len()
        invariant
            i <= nodes@.len(),
            nv == nodes_view(nodes@),
            nv.len() == nodes@.len(),
            spec_dialogs(nv, seq![]) == spec_dialogs(nv.subrange(i as int, nv.len() as int), done),
            dialogs_are(out@, done),
        decreases nodes@.len() - i,
    {
        let ghost rest = nv.subrange(i as int, nv.len() as int);
        assert(rest[0] == node_view(nodes@[i as int]));
        assert(rest.drop_first() =~= nv.subrange(i + 1, nv.len() as int));
        let node = &nodes[i];
        if str_eq(node.name.as_str(), "dialog") {
            let id = match node.attribute("id") {
                Ok(v) => v,
                Err(e) => {
                    return Err(e);
                },
            };
            let lines = match dialog_lines(node) {
                Ok(l) => l,
                Err(e) => {
                    return Err(e);
                },
            };
            if lines.len() == 0 {
                let mut m: Vec<char> = Vec::new();
                push_str(&mut m, "dialog ");
                push_str(&mut m, id);
                push_str(&mut m, " has no lines");
                return Err(string_of(&m));
            }
            let mut k: usize = 0;
            while k < out.len()
                invariant
                    k <= out@.len(),
                    dialogs_are(out@, done),
                    forall|j: int| 0 <= j < k ==> (#[trigger] done[j]).id != id@,
                decreases out@.len() - k,
            {
                if str_eq(out[k].0.as_str(), id) {
                    assert(done[k as int].id == id@);
                    let mut m: Vec<char> = Vec::new();
                    push_str(&mut m, "duplicate dialog id: ");
                    push_str(&mut m, id);
                    return Err(string_of(&m));
                }
                k = k + 1;
            }
            let ghost ls = spec_dialog_lines(named(node_view(*node).children, "line"@))->Ok_0;
            let ghost before = out@;
            out.push((String::from_str(id), lines));
            proof {
                let d = DialogSpec { id: id@, lines: ls };
                assert forall|j: int| 0 <= j < done.len() + 1 implies dialog_is(
                    #[trigger] out@[j],
                    done.push(d)[j],
                ) by {
                    if j < done.len() {
                        assert(out@[j] == before[j]);
                    }
                }
                done = done.push(d);
            }
        }
        i = i + 1;
    }
    let ghost doc = out@;
    let ghost e = map_second(keyed(doc), lines_of());
    proof {
        assert(e =~= dialog_entries(done)) by {
            assert forall|j: int| 0 <= j < e.len() implies e[j] == dialog_entries(done)[j] by {
                assert(dialog_is(doc[j], done[j]));
                assert(lines_view(doc[j].1) =~= done[j].lines);
            }
        }
    }
    let mut sorted: Vec<(String, Vec<DialogLine>)> = Vec::new();
    proof {
        assert(keyed(sorted@) =~= Seq::<(Seq<char>, Vec<DialogLine>)>::empty());
        assert(map_second(keyed(sorted@), lines_of()) =~= Seq::<(Seq<char>, Seq<(Seq<char>, Seq<char>)>)>::empty());
        assert(e.skip(e.len() as int) =~= Seq::<(Seq<char>, Seq<(Seq<char>, Seq<char>)>)>::empty());
    }
    while out.len() > 0
        invariant
            e == map_second(keyed(doc), lines_of()),
            out@.len() <= doc.len(),
            out@ == doc.take(out@.len() as int),
            names_increase(keyed(sorted@)),
            map_second(keyed(sorted@), lines_of()) == sorted_entries(e.skip(out@.len() as int)),
        decreases out@.len(),
    {
        let ghost m = out@.len() as int;
        let ghost before = keyed(sorted@);
        let (id, lines) = out.pop().unwrap();
        proof {
            assert(doc[m - 1] == (id, lines));
            lemma_put_map(before, id@, lines, lines_of());
            assert(e.skip(m - 1).drop_first() =~= e.skip(m));
            assert(e.skip(m - 1)[0] == e[m - 1]);
            assert(out@ =~= doc.take(m - 1));
        }
        put_keyed(&mut sorted, id, lines);
    }
    proof {
        assert(e.skip(0) =~= e);
        lemma_sorted_entries_increase(e);
    }
    Ok(sorted)
}


/// Every character of `s[start..]` other than `sep` lies in one of the
/// pieces that `split_from` cuts.
proof fn lemma_split_covers(s: Seq<char>, sep: char, start: int, i: int, k: int)
    requires
        0 <= start <= i,
        start <= k < s.len(),
        s[k] != sep,
        forall|m: int| start <= m < i && m < s.len() ==> s[m] != sep,
    ensures
        exists|a: int, b: int|
            0 <= a < split_from(s, sep, start, i).len() && 0 <= b < split_from(
                s,
                sep,
                start,
                i,
            )[a].len() && #[trigger] split_from(s, sep, start, i)[a][b] == s[k],
    decreases s.len() - i,
{
    let pieces = split_from(s, sep, start, i);
    if i >= s.len() {
        assert(pieces[0][k - start] == s[k]);
    } else if s[i] == sep {
        if k < i {
            assert(pieces[0] == s.subrange(start, i));
            assert(pieces[0][k - start] == s[k]);
        } else {
            lemma_split_covers(s, sep, i + 1, i + 1, k);
            let rest = split_from(s, sep, i + 1, i + 1);
            let (a, b) = choose|a: int, b: int|
                0 <= a < rest.len() && 0 <= b < rest[a].len() && #[trigger] rest[a][b] == s[k];
            assert(pieces[a + 1] == rest[a]);
            assert(pieces[a + 1][b] == s[k]);
        }
    } else {
        lemma_split_covers(s, sep, start, i + 1, k);
    }
}

proof fn lemma_module_name_has_no_slash(name: Seq<char>)
    requires
        valid_module_name(name),
    ensures
        !name.contains('/'),
{
    if name.contains('/') {
        let k = choose|k: int| 0 <= k < name.len() && name[k] == '/';
        lemma_split_covers(name, '.', 0, 0, k);
        let pieces = split(name, '.');
        let (a, b) = choose|a: int, b: int|
            0 <= a < pieces.len() && 0 <= b < pieces[a].len() && #[trigger] pieces[a][b] == name[k];
        assert(is_name_char(pieces[a][b]));
    }
}

/// The file of a valid module name is read back as that module name.
pub proof fn lemma_module_round_trip(name: Seq<char>)
    requires
        valid_module_name(name),
    ensures
        spec_module_path(name) matches Ok(p) && spec_lua_path_to_module(p) == Ok::<
            Seq<char>,
            Seq<char>,
        >(name),
{
    lemma_module_name_has_no_slash(name);
    reveal_strlit(".lua");
    let r = replace_char(name, '.', '/');
    let p = r + ".lua"@;
    assert(p.subrange(p.len() - 4, p.len() as int) =~= ".lua"@);
    assert(p.subrange(0, p.len() - 4) =~= r);
    let back = r.map_values(
        |c: char|
            if c == '/' {
                '.'
            } else {
                c
            },
    );
    assert forall|i: int| 0 <= i < name.len() implies back[i] == name[i] by {
        assert(name[i] != '/') by {
            if name[i] == '/' {
                assert(name.contains('/'));
            }
        }
    }
    assert(back =~= name);
}
} // verus!
