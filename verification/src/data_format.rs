//! Syntax-only parsing for declarative game-package data (WML).
//!
//! A document is a sequence of lines. `[tag]` opens a node, `[/tag]` closes
//! it, `key=value` sets an attribute of the innermost open node, and
//! `key=<<` starts a value that runs until a line holding only `>>`.
//! Blank lines and lines starting with `#` are ignored. Unknown tags are
//! valid: the meaning of a node is decided by its reader.
use vstd::prelude::*;
use crate::text::{
    chars_eq, chars_of, decimal, format_u64, is_whitespace, is_ws, join, join_chars, lines, lines_chars, push_all,
    push_str, slice_chars, split_once, split_once_chars, str_eq, string_of, trim, trim_chars, trim_start,
    lacks, lemma_split_once_at,
};

use crate::value::{field_put, lemma_position_bounds, lemma_put_at, lemma_put_increases, name_position, names_increase, names_of};
use crate::world::{debug_quoted, key_names, put_key, quoted};

verus! {

/// One parsed node: its tag, its attributes in increasing order of key (no
/// key occurs twice) and its child nodes.
#[derive(Debug, PartialEq)]
pub struct Node {
    pub name: String,
    pub attributes: Vec<(String, String)>,
    pub children: Vec<Node>,
}

/// The mathematical form of a node.
pub struct WmlNode {
    pub name: Seq<char>,
    pub attributes: Seq<(Seq<char>, Seq<char>)>,
    pub children: Seq<WmlNode>,
}

pub open spec fn attr_view(a: (String, String)) -> (Seq<char>, Seq<char>) {
    (a.0@, a.1@)
}

/// The mathematical form of an executable node.
pub open spec fn node_view(n: Node) -> WmlNode
    decreases n,
{
    WmlNode {
        name: n.name@,
        attributes: n.attributes@.map_values(|a: (String, String)| attr_view(a)),
        children: Seq::new(
            n.children@.len(),
            |i: int|
                if 0 <= i < n.children@.len() {
                    node_view(n.children@[i])
                } else {
                    WmlNode { name: seq![], attributes: seq![], children: seq![] }
                },
        ),
    }
}

pub open spec fn nodes_view(ns: Seq<Node>) -> Seq<WmlNode> {
    ns.map_values(|n: Node| node_view(n))
}

/// The predicate "is named `name`" on executable nodes.
pub open spec fn has_name(name: Seq<char>) -> spec_fn(Node) -> bool {
    |c: Node| c.name@ == name
}

/// The predicate "is named `name`" on nodes.
pub open spec fn wml_has_name(name: Seq<char>) -> spec_fn(WmlNode) -> bool {
    |c: WmlNode| c.name == name
}

/// The value of attribute `key`, if present.
pub open spec fn lookup(attrs: Seq<(Seq<char>, Seq<char>)>, key: Seq<char>) -> Option<Seq<char>>
    decreases attrs.len(),
{
    if attrs.len() == 0 {
        None
    } else if attrs[0].0 == key {
        Some(attrs[0].1)
    } else {
        lookup(attrs.drop_first(), key)
    }
}

/// The error for a node `[node]` without the attribute `key`.
pub open spec fn missing_attribute(node: Seq<char>, key: Seq<char>) -> Seq<char> {
    "["@ + node + "] has no required attribute "@ + key
}

/// The error for a node `[node]` without a child `[name]`.
pub open spec fn missing_child(node: Seq<char>, name: Seq<char>) -> Seq<char> {
    "["@ + node + "] has no required child ["@ + name + "]"@
}

/// The first node named `name`.
pub open spec fn first_named(nodes: Seq<WmlNode>, name: Seq<char>) -> Option<WmlNode>
    decreases nodes.len(),
{
    if nodes.len() == 0 {
        None
    } else if nodes[0].name == name {
        Some(nodes[0])
    } else {
        first_named(nodes.drop_first(), name)
    }
}

/// The nodes named `name`, in order.
pub open spec fn named(nodes: Seq<WmlNode>, name: Seq<char>) -> Seq<WmlNode> {
    nodes.filter(wml_has_name(name))
}

/// A tag or attribute name: non-empty, without whitespace, `[`, `]` or `=`.
pub open spec fn valid_name(n: Seq<char>) -> bool {
    &&& n.len() > 0
    &&& forall|i: int|
        0 <= i < n.len() ==> !is_ws(#[trigger] n[i]) && n[i] != '[' && n[i] != ']' && n[i]
            != '='
}

/// The tag named by a closing line `[/name]`.
pub open spec fn closing_name(line: Seq<char>) -> Option<Seq<char>> {
    if line.len() >= 3 && line[0] == '[' && line[1] == '/' && line.last() == ']' {
        Some(line.subrange(2, line.len() - 1))
    } else {
        None
    }
}

/// The tag named by an opening line `[name]` (checked after closing lines).
pub open spec fn opening_name(line: Seq<char>) -> Option<Seq<char>> {
    if line.len() >= 2 && line[0] == '[' && line.last() == ']' {
        Some(line.subrange(1, line.len() - 1))
    } else {
        None
    }
}

/// The first line at or after `j` whose trimmed text is `>>`.
pub open spec fn block_end(lines: Seq<Seq<char>>, j: int) -> Option<int>
    decreases lines.len() - j,
{
    if j < 0 || j >= lines.len() {
        None
    } else if trim(lines[j]) == seq!['>', '>'] {
        Some(j)
    } else {
        block_end(lines, j + 1)
    }
}

pub proof fn lemma_block_end_range(lines: Seq<Seq<char>>, j: int)
    ensures
        block_end(lines, j) matches Some(k) ==> j <= k < lines.len() && trim(lines[k]) == seq![
            '>',
            '>',
        ],
    decreases lines.len() - j,
{
    if 0 <= j < lines.len() && trim(lines[j]) != seq!['>', '>'] {
        lemma_block_end_range(lines, j + 1);
    }
}

/// A one-line value without the quotes that enclose it.
pub open spec fn unquote(v: Seq<char>) -> Seq<char> {
    if v.len() >= 2 && v[0] == '"' && v.last() == '"' {
        v.subrange(1, v.len() - 1)
    } else {
        v
    }
}

pub open spec fn empty_node(name: Seq<char>) -> WmlNode {
    WmlNode { name, attributes: seq![], children: seq![] }
}

pub open spec fn with_child(parent: WmlNode, child: WmlNode) -> WmlNode {
    WmlNode { children: parent.children.push(child), ..parent }
}

/// The node with an attribute added in its place by increasing key.
pub open spec fn with_attribute(node: WmlNode, key: Seq<char>, value: Seq<char>) -> WmlNode {
    WmlNode { attributes: field_put(node.attributes, key, value), ..node }
}

pub open spec fn is_skipped(line: Seq<char>) -> bool {
    line.len() == 0 || line[0] == '#'
}

/// An error message about line `i` (counted from zero): `line N: ` and
/// `rest`.
pub open spec fn at_line(i: int, rest: Seq<char>) -> Seq<char> {
    "line "@ + decimal((i + 1) as nat) + ": "@ + rest
}

/// The error for an invalid tag or attribute name, written as `Debug`
/// writes a string.
pub open spec fn name_error(i: int, kind: Seq<char>, name: Seq<char>) -> Seq<char> {
    at_line(i, "invalid "@ + kind + " name: "@ + debug_quoted(name))
}

/// The parse of `lines[i..]` given the finished top-level nodes and the
/// stack of open nodes, or the message of the first error.
pub open spec fn parse_from(
    lines: Seq<Seq<char>>,
    i: int,
    roots: Seq<WmlNode>,
    stack: Seq<WmlNode>,
) -> Result<Seq<WmlNode>, Seq<char>>
    decreases lines.len() - i,
{
    if i < 0 || i >= lines.len() {
        if stack.len() > 0 {
            Err("unclosed tag ["@ + stack.last().name + "]"@)
        } else {
            Ok(roots)
        }
    } else {
        let line = trim(lines[i]);
        if is_skipped(line) {
            parse_from(lines, i + 1, roots, stack)
        } else if closing_name(line) is Some {
            let name = closing_name(line).unwrap();
            if !valid_name(name) {
                Err(name_error(i, "tag"@, name))
            } else if stack.len() == 0 {
                Err(at_line(i, "unexpected closing tag ["@ + line + "]"@))
            } else if stack.last().name != name {
                Err(at_line(i, "expected closing tag [/"@ + stack.last().name + "], got [/"@ + name + "]"@))
            } else {
                let node = stack.last();
                let rest = stack.drop_last();
                if rest.len() > 0 {
                    parse_from(
                        lines,
                        i + 1,
                        roots,
                        rest.update(rest.len() - 1, with_child(rest.last(), node)),
                    )
                } else {
                    parse_from(lines, i + 1, roots.push(node), rest)
                }
            }
        } else if opening_name(line) is Some {
            let name = opening_name(line).unwrap();
            if !valid_name(name) {
                Err(name_error(i, "tag"@, name))
            } else {
                parse_from(lines, i + 1, roots, stack.push(empty_node(name)))
            }
        } else {
            match split_once(line, '=') {
                None => Err(at_line(i, "expected key=value, got "@ + line)),
                Some((raw_key, raw_value)) => {
                    let key = trim(raw_key);
                    let first = trim(raw_value);
                    if stack.len() == 0 {
                        Err(at_line(i, "attribute outside a tag"@))
                    } else if !valid_name(key) {
                        Err(name_error(i, "attribute"@, key))
                    } else {
                        let top = stack.last();
                        let (value, next) = if first == seq!['<', '<'] {
                            match block_end(lines, i + 1) {
                                Some(k) => (
                                    trim(join(lines.subrange(i + 1, k), seq!['\n'])),
                                    k + 1,
                                ),
                                None => (seq![], -1),
                            }
                        } else {
                            (unquote(first), i + 1)
                        };
                        if next < 0 {
                            Err(at_line(i, "unclosed << value"@))
                        } else if lookup(top.attributes, key) is Some {
                            Err(at_line(i, "duplicate attribute "@ + key))
                        } else {
                            proof {
                                lemma_block_end_range(lines, i + 1);
                            }
                            parse_from(
                                lines,
                                next,
                                roots,
                                stack.update(stack.len() - 1, with_attribute(top, key, value)),
                            )
                        }
                    }
                },
            }
        }
    }
}

/// Text whose first and last characters are not whitespace is its own trim.
proof fn lemma_trim_ends(t: Seq<char>)
    requires
        t.len() > 0,
        !is_ws(t[0]),
        !is_ws(t.last()),
    ensures
        trim(t) == t,
{
    assert(trim_start(t) == t);
}

/// A line `key="value"` inside an open node sets `key` to `value` without
/// its quotes, whatever `value` holds, and the document goes on at the next
/// line.
pub proof fn lemma_quoted_value(
    lines: Seq<Seq<char>>,
    i: int,
    roots: Seq<WmlNode>,
    stack: Seq<WmlNode>,
    key: Seq<char>,
    value: Seq<char>,
)
    requires
        0 <= i < lines.len(),
        lines[i] == key + seq!['='] + (seq!['"'] + value + seq!['"']),
        valid_name(key),
        key[0] != '#',
        stack.len() > 0,
        lookup(stack.last().attributes, key) is None,
    ensures
        parse_from(lines, i, roots, stack) == parse_from(
            lines,
            i + 1,
            roots,
            stack.update(stack.len() - 1, with_attribute(stack.last(), key, value)),
        ),
{
    let quoted = seq!['"'] + value + seq!['"'];
    let line = lines[i];
    assert(line[0] == key[0]);
    assert(!is_ws(key[0]));
    assert(line.last() == '"');
    assert(!is_ws('"'));
    lemma_trim_ends(line);
    assert(!is_skipped(line));
    assert(line[0] != '[');
    assert(closing_name(line) is None);
    assert(opening_name(line) is None);
    assert(lacks(key, '=')) by {
        assert forall|k: int| 0 <= k < key.len() implies key[k] != '=' by {
            assert(!is_ws(key[k]) && key[k] != '=');
        }
    }
    assert(key + seq!['='] + quoted == line);
    lemma_split_once_at(key, quoted, '=');
    assert(forall|k: int| 0 <= k < key.len() ==> !is_ws(#[trigger] key[k]));
    lemma_trim_ends(key);
    assert(quoted[0] == '"' && quoted.last() == '"');
    lemma_trim_ends(quoted);
    assert(quoted != seq!['<', '<']) by {
        if quoted == seq!['<', '<'] {
            assert(quoted[0] == '<');
        }
    }
    assert(quoted.subrange(1, quoted.len() - 1) =~= value);
    assert(unquote(quoted) == value);
}

/// The nodes of a whole document, or the message of its first error.
pub open spec fn parse_wml(input: Seq<char>) -> Result<Seq<WmlNode>, Seq<char>> {
    parse_from(lines(input), 0, seq![], seq![])
}


proof fn lemma_named_views(ns: Seq<Node>, name: Seq<char>)
    ensures
        nodes_view(ns.filter(has_name(name))) == named(
            nodes_view(ns),
            name,
        ),
    decreases ns.len(),
{
    reveal(Seq::filter);
    let f = has_name(name);
    let g = wml_has_name(name);
    if ns.len() > 0 {
        lemma_named_views(ns.drop_last(), name);
        assert(nodes_view(ns.drop_last()) =~= nodes_view(ns).drop_last());
        if f(ns.last()) {
            assert(nodes_view(ns.filter(f)) =~= nodes_view(ns.drop_last().filter(f)).push(
                node_view(ns.last()),
            ));
        }
    } else {
        assert(nodes_view(ns.filter(f)) =~= Seq::<WmlNode>::empty());
        assert(nodes_view(ns).filter(g) =~= Seq::<WmlNode>::empty());
    }
}

// ---------------------------------------------------------------------------
// Node access
// ---------------------------------------------------------------------------
impl Node {
    /// The value of a required attribute.
    pub fn attribute(&self, name: &str) -> (result: Result<&str, String>)
        ensures
            match result {
                Ok(v) => lookup(node_view(*self).attributes, name@) == Some(v@),
                Err(m) => lookup(node_view(*self).attributes, name@) is None && m@
                    == missing_attribute(self.name@, name@),
            },
    {
        match self.find_attribute(name) {
            Some(i) => Ok(self.attributes[i].1.as_str()),
            None => {
                let mut m: Vec<char> = Vec::new();
                push_str(&mut m, "[");
                push_str(&mut m, self.name.as_str());
                push_str(&mut m, "] has no required attribute ");
                push_str(&mut m, name);
                assert(m@ =~= missing_attribute(self.name@, name@));
                Err(string_of(&m))
            },
        }
    }

    /// The value of an optional attribute.
    pub fn get_attribute(&self, name: &str) -> (result: Option<&str>)
        ensures
            match result {
                Some(v) => lookup(node_view(*self).attributes, name@) == Some(v@),
                None => lookup(node_view(*self).attributes, name@) is None,
            },
    {
        match self.find_attribute(name) {
            Some(i) => Some(self.attributes[i].1.as_str()),
            None => None,
        }
    }

    /// The index of the first attribute named `name`.
    fn find_attribute(&self, name: &str) -> (result: Option<usize>)
        ensures
            match result {
                Some(i) => i < self.attributes.len() && lookup(node_view(*self).attributes, name@)
                    == Some(self.attributes@[i as int].1@),
                None => lookup(node_view(*self).attributes, name@) is None,
            },
    {
        let key = chars_of(name);
        let ghost attrs = node_view(*self).attributes;
        assert(attrs.subrange(0, attrs.len() as int) =~= attrs);
        let mut i: usize = 0;
        while i < self.attributes.len()
            invariant
                i <= self.attributes.len(),
                attrs == self.attributes@.map_values(|a: (String, String)| attr_view(a)),
                lookup(attrs, name@) == lookup(attrs.subrange(i as int, attrs.len() as int), name@),
                key@ == name@,
            decreases self.attributes.len() - i,
        {
            let k = chars_of(self.attributes[i].0.as_str());
            proof {
                let rest = attrs.subrange(i as int, attrs.len() as int);
                assert(rest[0] == attr_view(self.attributes@[i as int]));
                assert(rest.drop_first() =~= attrs.subrange(i + 1, attrs.len() as int));
            }
            if chars_eq(&k, &key) {
                return Some(i);
            }
            i = i + 1;
        }
        proof {
            assert(attrs.subrange(i as int, attrs.len() as int).len() == 0);
        }
        None
    }

    /// The first child with the given tag.
    pub fn child(&self, name: &str) -> (result: Result<&Node, String>)
        ensures
            match result {
                Ok(c) => exists|i: int|
                    #![trigger self.children@[i]]
                    0 <= i < self.children@.len() && self.children@[i] == *c && c.name@ == name@
                        && forall|j: int|
                        0 <= j < i ==> (#[trigger] self.children@[j]).name@ != name@,
                Err(_) => forall|j: int|
                    0 <= j < self.children@.len() ==> (#[trigger] self.children@[j]).name@
                        != name@,
            },
            match result {
                Ok(c) => first_named(node_view(*self).children, name@) == Some(node_view(*c)),
                Err(m) => first_named(node_view(*self).children, name@) is None && m@ == missing_child(
                    self.name@,
                    name@,
                ),
            },
    {
        let ghost vc = node_view(*self).children;
        assert(vc.subrange(0, vc.len() as int) =~= vc);
        let mut i: usize = 0;
        while i < self.children.len()
            invariant
                i <= self.children.len(),
                vc == node_view(*self).children,
                vc.len() == self.children@.len(),
                forall|j: int| 0 <= j < i ==> (#[trigger] self.children@[j]).name@ != name@,
                first_named(vc, name@) == first_named(vc.subrange(i as int, vc.len() as int), name@),
            decreases self.children.len() - i,
        {
            proof {
                let rest = vc.subrange(i as int, vc.len() as int);
                assert(rest[0] == node_view(self.children@[i as int]));
                assert(rest.drop_first() =~= vc.subrange(i + 1, vc.len() as int));
            }
            if str_eq(self.children[i].name.as_str(), name) {
                return Ok(&self.children[i]);
            }
            i = i + 1;
        }
        let mut m: Vec<char> = Vec::new();
        push_str(&mut m, "[");
        push_str(&mut m, self.name.as_str());
        push_str(&mut m, "] has no required child [");
        push_str(&mut m, name);
        push_str(&mut m, "]");
        assert(m@ =~= missing_child(self.name@, name@));
        Err(string_of(&m))
    }

    /// The children with the given tag, in document order.
    pub fn children_named(&self, name: &str) -> (result: Vec<&Node>)
        ensures
            result@ == self.children@.filter(has_name(name@)).map_values(|c: Node| &c),
            result@.map_values(|c: &Node| node_view(*c)) == named(
                node_view(*self).children,
                name@,
            ),
    {
        let ghost f = has_name(name@);
        let mut out: Vec<&Node> = Vec::new();
        let mut i: usize = 0;
        while i < self.children.len()
            invariant
                i <= self.children.len(),
                out@ == self.children@.take(i as int).filter(f).map_values(|c: Node| &c),
                f == has_name(name@),
            decreases self.children.len() - i,
        {
            proof {
                assert(self.children@.take(i as int + 1).drop_last() =~= self.children@.take(
                    i as int,
                ));
                reveal(Seq::filter);
            }
            if str_eq(self.children[i].name.as_str(), name) {
                let ghost before = self.children@.take(i as int).filter(f);
                out.push(&self.children[i]);
                assert(self.children@.take(i as int + 1).filter(f) =~= before.push(
                    self.children@[i as int],
                ));
                assert(out@ =~= before.push(self.children@[i as int]).map_values(|c: Node| &c));
            } else {
                assert(self.children@.take(i as int + 1).filter(f) =~= self.children@.take(
                    i as int,
                ).filter(f));
            }
            i = i + 1;
        }
        assert(self.children@.take(self.children.len() as int) =~= self.children@);
        proof {
            lemma_named_views(self.children@, name@);
            assert(node_view(*self).children =~= nodes_view(self.children@));
            assert(out@.map_values(|c: &Node| node_view(*c)) =~= nodes_view(
                self.children@.filter(f),
            ));
        }
        out
    }
}

} // verus!

verus! {

// ---------------------------------------------------------------------------
// Parsing
// ---------------------------------------------------------------------------
proof fn lemma_view_with_child(parent: Node, child: Node, after: Node)
    requires
        after.name == parent.name,
        after.attributes == parent.attributes,
        after.children@ == parent.children@.push(child),
    ensures
        node_view(after) == with_child(node_view(parent), node_view(child)),
{
    let a = node_view(after);
    let w = with_child(node_view(parent), node_view(child));
    assert(a.children =~= w.children);
}

proof fn lemma_nodes_view_push(ns: Seq<Node>, n: Node)
    ensures
        nodes_view(ns.push(n)) == nodes_view(ns).push(node_view(n)),
{
    assert(nodes_view(ns.push(n)) =~= nodes_view(ns).push(node_view(n)));
}

proof fn lemma_nodes_view_drop_last(ns: Seq<Node>)
    requires
        ns.len() > 0,
    ensures
        nodes_view(ns.drop_last()) == nodes_view(ns).drop_last(),
        nodes_view(ns).last() == node_view(ns.last()),
{
    assert(nodes_view(ns.drop_last()) =~= nodes_view(ns).drop_last());
}

/// Checks a tag or attribute name.
fn validate_name(name: &Vec<char>, kind: &str, line: usize) -> (result: Result<(), String>)
    ensures
        result is Ok <==> valid_name(name@),
        result matches Err(m) ==> m@ == line_prefix_text(line) + ("invalid "@ + kind@ + " name: "@
            + debug_quoted(name@)),
{
    let mut ok = name.len() > 0;
    let mut i: usize = 0;
    while i < name.len()
        invariant
            i <= name.len(),
            ok == (name.len() > 0 && forall|j: int|
                0 <= j < i ==> !is_ws(#[trigger] name@[j]) && name@[j] != '[' && name@[j] != ']'
                    && name@[j] != '='),
        decreases name.len() - i,
    {
        let c = name[i];
        if is_whitespace(c) || c == '[' || c == ']' || c == '=' {
            ok = false;
        }
        i = i + 1;
    }
    if ok {
        Ok(())
    } else {
        let text = string_of(name);
        let shown = quoted(text.as_str());
        let mut m = line_prefix(line);
        push_str(&mut m, "invalid ");
        push_str(&mut m, kind);
        push_str(&mut m, " name: ");
        push_str(&mut m, shown.as_str());
        assert(m@ =~= line_prefix_text(line) + ("invalid "@ + kind@ + " name: "@ + debug_quoted(name@)));
        Err(string_of(&m))
    }
}

/// The text `line N: ` that starts an error message.
pub open spec fn line_prefix_text(line: usize) -> Seq<char> {
    "line "@ + decimal(line as nat) + ": "@
}

/// The text `line N: ` that starts an error message.
fn line_prefix(line: usize) -> (r: Vec<char>)
    ensures
        r@ == line_prefix_text(line),
{
    let mut m: Vec<char> = Vec::new();
    push_str(&mut m, "line ");
    let digits = format_u64(line as u64);
    push_all(&mut m, &digits);
    push_str(&mut m, ": ");
    assert(m@ =~= line_prefix_text(line));
    m
}

/// Collects the lines of a `<<` value that starts after line `i`; returns the
/// joined, trimmed value and the index of the line after `>>`.
fn read_block(lines: &Vec<Vec<char>>, i: usize) -> (result: Option<(Vec<char>, usize)>)
    requires
        i < lines.len(),
    ensures
        ({
            let ls = lines@.map_values(|p: Vec<char>| p@);
            match result {
                Some((v, next)) => block_end(ls, i + 1) == Some(next - 1) && v@ == trim(
                    join(ls.subrange(i + 1, next - 1), seq!['\n']),
                ),
                None => block_end(ls, i + 1) is None,
            }
        }),
{
    let ghost ls = lines@.map_values(|p: Vec<char>| p@);
    let mut parts: Vec<Vec<char>> = Vec::new();
    let mut j = i + 1;
    while j < lines.len()
        invariant
            i + 1 <= j <= lines.len(),
            ls == lines@.map_values(|p: Vec<char>| p@),
            block_end(ls, i + 1) == block_end(ls, j as int),
            parts@.map_values(|p: Vec<char>| p@) == ls.subrange(i + 1, j as int),
        decreases lines.len() - j,
    {
        let t = trim_chars(&lines[j]);
        if t.len() == 2 && t[0] == '>' && t[1] == '>' {
            assert(t@ =~= seq!['>', '>']);
            let joined = join_chars(&parts, '\n');
            let value = trim_chars(&joined);
            return Some((value, j + 1));
        }
        assert(t@ != seq!['>', '>']) by {
            if t@ == seq!['>', '>'] {
                assert(t@[0] == '>' && t@[1] == '>');
            }
        }
        let copy = slice_chars(&lines[j], 0, lines[j].len());
        assert(copy@ =~= lines@[j as int]@);
        let ghost before = parts@.map_values(|p: Vec<char>| p@);
        parts.push(copy);
        assert(parts@.map_values(|p: Vec<char>| p@) =~= before.push(ls[j as int]));
        assert(ls.subrange(i + 1, j + 1) =~= ls.subrange(i + 1, j as int).push(ls[j as int]));
        j = j + 1;
    }
    None
}

/// Closes the innermost open node, attaching it to its parent or to the
/// finished top-level nodes; `text` is the closing line.
fn close_node(
    roots: &mut Vec<Node>,
    stack: &mut Vec<Node>,
    name: &Vec<char>,
    text: &Vec<char>,
    line: usize,
) -> (result: Result<(), String>)
    requires
        valid_name(name@),
    ensures
        ({
            let rs = nodes_view(old(roots)@);
            let st = nodes_view(old(stack)@);
            if st.len() == 0 {
                result matches Err(m) && m@ == line_prefix_text(line) + ("unexpected closing tag ["@ + text@
                    + "]"@)
            } else if st.last().name != name@ {
                result matches Err(m) && m@ == line_prefix_text(line) + ("expected closing tag [/"@
                    + st.last().name + "], got [/"@ + name@ + "]"@)
            } else {
                let node = st.last();
                let rest = st.drop_last();
                &&& result is Ok
                &&& if rest.len() > 0 {
                    nodes_view(final(roots)@) == rs && nodes_view(final(stack)@) == rest.update(
                        rest.len() - 1,
                        with_child(rest.last(), node),
                    )
                } else {
                    nodes_view(final(roots)@) == rs.push(node) && nodes_view(final(stack)@)
                        == rest
                }
            }
        }),
{
    if stack.len() == 0 {
        let mut m = line_prefix(line);
        push_str(&mut m, "unexpected closing tag [");
        push_all(&mut m, text);
        push_str(&mut m, "]");
        assert(m@ =~= line_prefix_text(line) + ("unexpected closing tag ["@ + text@ + "]"@));
        return Err(string_of(&m));
    }
    proof {
        lemma_nodes_view_drop_last(stack@);
    }
    let node = stack.pop().unwrap();
    let node_name = chars_of(node.name.as_str());
    if !chars_eq(&node_name, name) {
        let mut m = line_prefix(line);
        push_str(&mut m, "expected closing tag [/");
        push_all(&mut m, &node_name);
        push_str(&mut m, "], got [/");
        push_all(&mut m, name);
        push_str(&mut m, "]");
        assert(m@ =~= line_prefix_text(line) + ("expected closing tag [/"@ + node.name@ + "], got [/"@
            + name@ + "]"@));
        stack.push(node);
        return Err(string_of(&m));
    }
    if stack.len() > 0 {
        let ghost rest = stack@;
        proof {
            lemma_nodes_view_drop_last(stack@);
        }
        let mut parent = stack.pop().unwrap();
        let ghost old_parent = parent;
        let ghost child = node;
        parent.children.push(node);
        proof {
            lemma_view_with_child(old_parent, child, parent);
        }
        stack.push(parent);
        proof {
            lemma_nodes_view_push(rest.drop_last(), parent);
            assert(nodes_view(stack@) =~= nodes_view(rest).update(
                rest.len() - 1,
                with_child(nodes_view(rest).last(), node_view(child)),
            ));
        }
    } else {
        let ghost before = roots@;
        roots.push(node);
        proof {
            lemma_nodes_view_push(before, node);
        }
    }
    Ok(())
}

pub open spec fn attrs_view(a: Seq<(String, String)>) -> Seq<(Seq<char>, Seq<char>)> {
    a.map_values(|x: (String, String)| attr_view(x))
}

/// Adds an attribute to a node at its place by increasing key.
fn insert_attribute(node: &mut Node, key: String, value: String)
    requires
        names_increase(node_view(*old(node)).attributes),
    ensures
        node_view(*final(node)) == with_attribute(node_view(*old(node)), key@, value@),
{
    let ghost before = node.attributes@;
    let ghost old_node = *node;
    let ghost k = key@;
    let ghost v = value@;
    put_key(&mut node.attributes, key, value);
    proof {
        let m = attrs_view(before);
        assert(names_of(m) =~= key_names(before));
        lemma_put_at(m, k, v);
        lemma_position_bounds(names_of(m), k);
        let p = name_position(names_of(m), k);
        if p < before.len() && before[p].0@ == k {
            assert(attrs_view(node.attributes@) =~= m.update(p, (k, v)));
        } else {
            assert(attrs_view(node.attributes@) =~= m.insert(p, (k, v)));
        }
        let a = node_view(*node);
        let w = with_attribute(node_view(old_node), k, v);
        assert(a.attributes =~= w.attributes);
        assert(a.children =~= w.children);
    }
}

/// Sets an attribute of the innermost open node; a repeated key is an error.
fn set_attribute(stack: &mut Vec<Node>, key: &Vec<char>, value: &Vec<char>, line: usize) -> (result:
    Result<(), String>)
    requires
        old(stack).len() > 0,
        names_increase(nodes_view(old(stack)@).last().attributes),
    ensures
        ({
            let st = nodes_view(old(stack)@);
            let top = st.last();
            if lookup(top.attributes, key@) is Some {
                result matches Err(m) && m@ == line_prefix_text(line) + ("duplicate attribute "@ + key@)
            } else {
                result is Ok && nodes_view(final(stack)@) == st.update(
                    st.len() - 1,
                    with_attribute(top, key@, value@),
                )
            }
        }),
{
    let ghost before = stack@;
    proof {
        lemma_nodes_view_drop_last(stack@);
    }
    let mut top = stack.pop().unwrap();
    let key_text = string_of(key);
    if top.find_attribute(key_text.as_str()).is_some() {
        let mut m = line_prefix(line);
        push_str(&mut m, "duplicate attribute ");
        push_all(&mut m, key);
        assert(m@ =~= line_prefix_text(line) + ("duplicate attribute "@ + key@));
        stack.push(top);
        return Err(string_of(&m));
    }
    let value_text = string_of(value);
    insert_attribute(&mut top, key_text, value_text);
    stack.push(top);
    proof {
        lemma_nodes_view_push(before.drop_last(), top);
        assert(nodes_view(stack@) =~= nodes_view(before).update(
            before.len() - 1,
            with_attribute(nodes_view(before).last(), key@, value@),
        ));
    }
    Ok(())
}

/// Each open node's attribute keys increase strictly.
pub open spec fn all_sorted(st: Seq<WmlNode>) -> bool {
    forall|k: int| 0 <= k < st.len() ==> names_increase(#[trigger] st[k].attributes)
}

proof fn lemma_sorted_after_close(st: Seq<WmlNode>)
    requires
        all_sorted(st),
        st.len() > 0,
    ensures
        all_sorted(st.drop_last()),
        st.len() > 1 ==> all_sorted(
            st.drop_last().update(st.len() - 2, with_child(st.drop_last().last(), st.last())),
        ),
{
    let rest = st.drop_last();
    assert forall|k: int| 0 <= k < rest.len() implies names_increase(#[trigger] rest[k].attributes) by {
        assert(rest[k] == st[k]);
    }
    if st.len() > 1 {
        let next = rest.update(rest.len() - 1, with_child(rest.last(), st.last()));
        assert forall|k: int| 0 <= k < next.len() implies names_increase(#[trigger] next[k].attributes) by {
            if k < rest.len() - 1 {
                assert(next[k] == st[k]);
            } else {
                assert(next[k].attributes == rest.last().attributes);
                assert(rest.last() == st[k]);
            }
        }
    }
}

/// Parses a document into its top-level nodes; each error names its line.
pub fn parse(input: &str) -> (result: Result<Vec<Node>, String>)
    ensures
        match result {
            Ok(nodes) => parse_wml(input@) == Ok::<Seq<WmlNode>, Seq<char>>(nodes_view(nodes@)),
            Err(m) => parse_wml(input@) == Err::<Seq<WmlNode>, Seq<char>>(m@),
        },
{
    let chars = chars_of(input);
    let all_lines = lines_chars(&chars);
    let ghost ls = all_lines@.map_values(|p: Vec<char>| p@);
    let mut roots: Vec<Node> = Vec::new();
    let mut stack: Vec<Node> = Vec::new();
    let mut i: usize = 0;
    assert(nodes_view(roots@) =~= Seq::<WmlNode>::empty());
    assert(nodes_view(stack@) =~= Seq::<WmlNode>::empty());
    while i < all_lines.len()
        invariant
            i <= all_lines.len(),
            ls == all_lines@.map_values(|p: Vec<char>| p@),
            ls == lines(input@),
            all_sorted(nodes_view(stack@)),
            parse_from(ls, i as int, nodes_view(roots@), nodes_view(stack@)) == parse_wml(input@),
        decreases all_lines.len() - i,
    {
        let line_number = i + 1;
        let line = trim_chars(&all_lines[i]);
        proof {
            assert(line_prefix_text(line_number) + seq![] =~= line_prefix_text(line_number));
        }
        let n = line.len();
        if n == 0 || line[0] == '#' {
            i = i + 1;
            continue;
        }
        if n >= 3 && line[0] == '[' && line[1] == '/' && line[n - 1] == ']' {
            let name = slice_chars(&line, 2, n - 1);
            match validate_name(&name, "tag", line_number) {
                Ok(()) => {},
                Err(m) => {
                    assert(m@ =~= name_error(i as int, "tag"@, name@));
                    return Err(m);
                },
            }
            let ghost st = nodes_view(stack@);
            match close_node(&mut roots, &mut stack, &name, &line, line_number) {
                Ok(()) => {},
                Err(m) => {
                    proof {
                        if st.len() == 0 {
                            assert(m@ =~= at_line(i as int, "unexpected closing tag ["@ + line@ + "]"@));
                        } else {
                            assert(m@ =~= at_line(
                                i as int,
                                "expected closing tag [/"@ + st.last().name + "], got [/"@ + name@ + "]"@,
                            ));
                        }
                    }
                    return Err(m);
                },
            }
            proof {
                lemma_sorted_after_close(st);
            }
            i = i + 1;
            continue;
        }
        if n >= 2 && line[0] == '[' && line[n - 1] == ']' {
            let name = slice_chars(&line, 1, n - 1);
            match validate_name(&name, "tag", line_number) {
                Ok(()) => {},
                Err(m) => {
                    assert(m@ =~= name_error(i as int, "tag"@, name@));
                    return Err(m);
                },
            }
            let ghost before = stack@;
            stack.push(Node { name: string_of(&name), attributes: Vec::new(), children: Vec::new() });
            proof {
                let fresh = stack@.last();
                assert(node_view(fresh).attributes =~= Seq::<(Seq<char>, Seq<char>)>::empty());
                assert(node_view(fresh).children =~= Seq::<WmlNode>::empty());
                lemma_nodes_view_push(before, fresh);
                let sv = nodes_view(stack@);
                assert forall|k: int| 0 <= k < sv.len() implies names_increase(#[trigger] sv[k].attributes) by {
                    if k < before.len() {
                        assert(sv[k] == nodes_view(before)[k]);
                    }
                }
            }
            i = i + 1;
            continue;
        }
        let (raw_key, raw_value) = match split_once_chars(&line, '=') {
            Some(pair) => pair,
            None => {
                let mut m = line_prefix(line_number);
                push_str(&mut m, "expected key=value, got ");
                push_all(&mut m, &line);
                assert(m@ =~= at_line(i as int, "expected key=value, got "@ + line@));
                return Err(string_of(&m));
            },
        };
        if stack.len() == 0 {
            let mut m = line_prefix(line_number);
            push_str(&mut m, "attribute outside a tag");
            assert(m@ =~= at_line(i as int, "attribute outside a tag"@));
            return Err(string_of(&m));
        }
        let key = trim_chars(&raw_key);
        match validate_name(&key, "attribute", line_number) {
            Ok(()) => {},
            Err(m) => {
                assert(m@ =~= name_error(i as int, "attribute"@, key@));
                return Err(m);
            },
        }
        let first = trim_chars(&raw_value);
        let ghost first_view = first@;
        let mut next = i + 1;
        let value = if first.len() == 2 && first[0] == '<' && first[1] == '<' {
            assert(first@ =~= seq!['<', '<']);
            match read_block(&all_lines, i) {
                Some((v, after)) => {
                    next = after;
                    v
                },
                None => {
                    let mut m = line_prefix(line_number);
                    push_str(&mut m, "unclosed << value");
                    assert(m@ =~= at_line(i as int, "unclosed << value"@));
                    return Err(string_of(&m));
                },
            }
        } else {
            assert(first@ != seq!['<', '<']) by {
                if first@ == seq!['<', '<'] {
                    assert(first@[0] == '<' && first@[1] == '<');
                }
            }
            let m = first.len();
            if m >= 2 && first[0] == '"' && first[m - 1] == '"' {
                slice_chars(&first, 1, m - 1)
            } else {
                first
            }
        };
        proof {
            lemma_block_end_range(ls, i + 1);
        }
        let ghost st = nodes_view(stack@);
        match set_attribute(&mut stack, &key, &value, line_number) {
            Ok(()) => {},
            Err(m) => {
                assert(m@ =~= at_line(i as int, "duplicate attribute "@ + key@));
                return Err(m);
            },
        }
        proof {
            lemma_put_increases(st.last().attributes, key@, value@);
            let sv = nodes_view(stack@);
            assert forall|k: int| 0 <= k < sv.len() implies names_increase(#[trigger] sv[k].attributes) by {
                if k < st.len() - 1 {
                    assert(sv[k] == st[k]);
                }
            }
        }
        i = next;
    }
    if stack.len() > 0 {
        let mut m: Vec<char> = Vec::new();
        push_str(&mut m, "unclosed tag [");
        let top = &stack[stack.len() - 1];
        push_str(&mut m, top.name.as_str());
        push_str(&mut m, "]");
        proof {
            lemma_nodes_view_drop_last(stack@);
            assert(m@ =~= "unclosed tag ["@ + nodes_view(stack@).last().name + "]"@);
        }
        return Err(string_of(&m));
    }
    Ok(roots)
}

// ---------------------------------------------------------------------------
// Well-formed documents
// ---------------------------------------------------------------------------
/// A node whose tag and attribute names are valid, whose attribute keys
/// increase strictly, and whose children are well-formed too.
pub open spec fn wf_node(n: WmlNode) -> bool
    decreases n,
{
    &&& valid_name(n.name)
    &&& forall|i: int| 0 <= i < n.attributes.len() ==> valid_name(#[trigger] n.attributes[i].0)
    &&& names_increase(n.attributes)
    &&& forall|i: int|
        0 <= i < n.children.len() ==> {
            proof {
                assert(decreases_to!(n => n.children));
                assert(decreases_to!(n.children => n.children[i]));
            }
            wf_node(#[trigger] n.children[i])
        }
}

pub open spec fn all_wf(ns: Seq<WmlNode>) -> bool {
    forall|i: int| 0 <= i < ns.len() ==> wf_node(#[trigger] ns[i])
}

/// Adding an attribute with a valid key keeps keys valid and increasing.
proof fn lemma_put_attribute(attrs: Seq<(Seq<char>, Seq<char>)>, key: Seq<char>, value: Seq<char>)
    requires
        names_increase(attrs),
        forall|i: int| 0 <= i < attrs.len() ==> valid_name(#[trigger] attrs[i].0),
        valid_name(key),
    ensures
        names_increase(field_put(attrs, key, value)),
        forall|i: int|
            0 <= i < field_put(attrs, key, value).len() ==> valid_name(
                #[trigger] field_put(attrs, key, value)[i].0,
            ),
{
    lemma_put_increases(attrs, key, value);
    lemma_put_at(attrs, key, value);
    lemma_position_bounds(names_of(attrs), key);
    let p = name_position(names_of(attrs), key);
    let r = field_put(attrs, key, value);
    assert forall|i: int| 0 <= i < r.len() implies valid_name(#[trigger] r[i].0) by {
        if p < attrs.len() && attrs[p].0 == key {
            if i != p {
                assert(r[i] == attrs[i]);
            }
        } else {
            if i < p {
                assert(r[i] == attrs[i]);
            } else if i > p {
                assert(r[i] == attrs[i - 1]);
            }
        }
    }
}

proof fn lemma_parse_from_wf(
    lines: Seq<Seq<char>>,
    i: int,
    roots: Seq<WmlNode>,
    stack: Seq<WmlNode>,
)
    requires
        all_wf(roots),
        all_wf(stack),
    ensures
        parse_from(lines, i, roots, stack) matches Ok(ns) ==> all_wf(ns),
    decreases lines.len() - i,
{
    if i < 0 || i >= lines.len() {
    } else {
        let line = trim(lines[i]);
        if is_skipped(line) {
            lemma_parse_from_wf(lines, i + 1, roots, stack);
        } else if closing_name(line) is Some {
            let name = closing_name(line).unwrap();
            if !valid_name(name) || stack.len() == 0 || stack.last().name != name {
            } else {
                let node = stack.last();
                let rest = stack.drop_last();
                assert(wf_node(node));
                if rest.len() > 0 {
                    let parent = with_child(rest.last(), node);
                    assert(wf_node(rest.last()));
                    assert(wf_node(parent)) by {
                        assert forall|k: int| 0 <= k < parent.children.len() implies wf_node(
                            #[trigger] parent.children[k],
                        ) by {
                            if k < rest.last().children.len() {
                                assert(parent.children[k] == rest.last().children[k]);
                            }
                        }
                    }
                    let next = rest.update(rest.len() - 1, parent);
                    assert(all_wf(next)) by {
                        assert forall|k: int| 0 <= k < next.len() implies wf_node(#[trigger] next[k]) by {
                            if k < rest.len() - 1 {
                                assert(next[k] == stack[k]);
                            }
                        }
                    }
                    lemma_parse_from_wf(lines, i + 1, roots, next);
                } else {
                    let more = roots.push(node);
                    assert(all_wf(more)) by {
                        assert forall|k: int| 0 <= k < more.len() implies wf_node(#[trigger] more[k]) by {
                            if k < roots.len() {
                                assert(more[k] == roots[k]);
                            }
                        }
                    }
                    assert(all_wf(rest)) by {
                        assert forall|k: int| 0 <= k < rest.len() implies wf_node(#[trigger] rest[k]) by {
                            assert(rest[k] == stack[k]);
                        }
                    }
                    lemma_parse_from_wf(lines, i + 1, more, rest);
                }
            }
        } else if opening_name(line) is Some {
            let name = opening_name(line).unwrap();
            if valid_name(name) {
                let more = stack.push(empty_node(name));
                assert(all_wf(more)) by {
                    assert forall|k: int| 0 <= k < more.len() implies wf_node(#[trigger] more[k]) by {
                        if k < stack.len() {
                            assert(more[k] == stack[k]);
                        }
                    }
                }
                lemma_parse_from_wf(lines, i + 1, roots, more);
            }
        } else {
            match split_once(line, '=') {
                None => {},
                Some((raw_key, raw_value)) => {
                    let key = trim(raw_key);
                    let first = trim(raw_value);
                    if stack.len() == 0 || !valid_name(key) {
                    } else {
                        let top = stack.last();
                        assert(wf_node(top));
                        let (value, next) = if first == seq!['<', '<'] {
                            match block_end(lines, i + 1) {
                                Some(k) => (
                                    trim(join(lines.subrange(i + 1, k), seq!['\n'])),
                                    k + 1,
                                ),
                                None => (seq![], -1),
                            }
                        } else {
                            (unquote(first), i + 1)
                        };
                        if next < 0 || lookup(top.attributes, key) is Some {
                        } else {
                            lemma_block_end_range(lines, i + 1);
                            assert(wf_node(top));
                            lemma_put_attribute(top.attributes, key, value);
                            let updated = with_attribute(top, key, value);
                            assert(wf_node(updated)) by {
                                assert forall|k: int| 0 <= k < updated.children.len() implies wf_node(
                                    #[trigger] updated.children[k],
                                ) by {
                                    assert(updated.children[k] == top.children[k]);
                                }
                            }
                            let more = stack.update(stack.len() - 1, updated);
                            assert(all_wf(more)) by {
                                assert forall|k: int| 0 <= k < more.len() implies wf_node(#[trigger] more[k]) by {
                                    if k < stack.len() - 1 {
                                        assert(more[k] == stack[k]);
                                    }
                                }
                            }
                            lemma_parse_from_wf(lines, next, roots, more);
                        }
                    }
                },
            }
        }
    }
}

/// Every node of a parsed document is well-formed: valid tag and attribute
/// names, and attribute keys in strictly increasing order.
pub proof fn lemma_parsed_nodes_well_formed(input: Seq<char>)
    ensures
        parse_wml(input) matches Ok(nodes) ==> all_wf(nodes),
{
    lemma_parse_from_wf(lines(input), 0, seq![], seq![]);
}
} // verus!
