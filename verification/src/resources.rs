//! Immutable access to a replaceable game package.
//!
//! A package is described by its manifest: its identity, the Lua modules it
//! declares, the resource roots its files lie under, and its assets. Paths
//! are logical package paths: `\` counts as `/`, `.` segments and repeated
//! separators are dropped, and no path may be absolute or climb with `..`.
//! Reading a file is left to the caller, who hands in a reader.
use vstd::prelude::*;
use crate::data_format::{node_view, nodes_view, parse, parse_wml, Node};
use crate::value::{field_put, names_increase};
use crate::world::{keyed, put_keyed};
use crate::text::{
    chars_eq, chars_of, eq_str, is_whitespace, join, lacks, lemma_join_chars, lemma_split_join, lemma_split_pieces, push_all, push_str, split, split_chars,
    starts_with, str_eq, string_of, trim, trim_str,
};

verus! {

/// The manifest of a package.
#[derive(Clone, Debug, PartialEq, Eq)]
pub struct Manifest {
    pub package_id: String,
    pub package_version: String,
    pub entry: String,
    pub resource_roots: Vec<String>,
    pub protocol_version: u32,
    pub modules: Vec<String>,
    /// The assets by id, in the order of their ids.
    pub assets: Vec<(String, AssetDescriptor)>,
}

/// Where an asset lies and what it holds.
#[derive(Clone, Debug, PartialEq, Eq)]
pub struct AssetDescriptor {
    pub path: String,
    pub media_type: String,
}

/// What identifies a package.
#[derive(Clone, Debug, PartialEq, Eq)]
pub struct PackageIdentity {
    pub package_id: String,
    pub package_version: String,
    pub protocol_version: u32,
}

impl Manifest {
    /// The identity of the package.
    pub fn identity(&self) -> (r: PackageIdentity)
        ensures
            r.package_id@ == self.package_id@,
            r.package_version@ == self.package_version@,
            r.protocol_version == self.protocol_version,
    {
        PackageIdentity {
            package_id: self.package_id.clone(),
            package_version: self.package_version.clone(),
            protocol_version: self.protocol_version,
        }
    }
}

// ---------------------------------------------------------------------------
// Paths
// ---------------------------------------------------------------------------
pub open spec fn strings_view(v: Seq<String>) -> Seq<Seq<char>> {
    v.map_values(|s: String| s@)
}

/// `s` with every `from` replaced by `to`.
pub open spec fn replace_char(s: Seq<char>, from: char, to: char) -> Seq<char> {
    s.map_values(|c: char| if c == from { to } else { c })
}

/// The segments of a path that name something: neither empty nor `.`.
pub open spec fn named_segments(p: Seq<char>) -> Seq<Seq<char>> {
    split(p, '/').filter(|s: Seq<char>| s.len() > 0 && s != "."@)
}

/// The logical form of a package path, or the error for an invalid one.
pub open spec fn spec_normalize(path: Seq<char>) -> Result<Seq<char>, Seq<char>> {
    let p = replace_char(path, '\\', '/');
    let bad = "invalid package path: "@ + p;
    if p.len() == 0 || p[0] == '/' || split(p, '/').contains(".."@) {
        Err(bad)
    } else {
        let n = join(named_segments(p), "/"@);
        if n.len() == 0 {
            Err(bad)
        } else {
            Ok(n)
        }
    }
}

proof fn lemma_filter_all(s: Seq<Seq<char>>, pred: spec_fn(Seq<char>) -> bool)
    requires
        forall|k: int| 0 <= k < s.len() ==> pred(#[trigger] s[k]),
    ensures
        s.filter(pred) == s,
    decreases s.len(),
{
    reveal(Seq::filter);
    if s.len() > 0 {
        lemma_filter_all(s.drop_last(), pred);
        assert(pred(s[s.len() - 1]));
        assert(s.drop_last().push(s.last()) =~= s);
    }
}

/// Normalizing a path twice gives what normalizing it once gives: the
/// logical form is non-empty, holds no backslash, does not start with `/`,
/// and has no empty, `.` or `..` segment.
pub proof fn lemma_normalize_idempotent(path: Seq<char>)
    ensures
        spec_normalize(path) matches Ok(n) ==> {
            &&& spec_normalize(n) == Ok::<Seq<char>, Seq<char>>(n)
            &&& n.len() > 0
            &&& lacks(n, '\\')
            &&& n[0] != '/'
            &&& forall|k: int|
                0 <= k < split(n, '/').len() ==> (#[trigger] split(n, '/')[k]).len() > 0 && split(n, '/')[k]
                    != "."@ && split(n, '/')[k] != ".."@
        },
{
    let p = replace_char(path, '\\', '/');
    if let Ok(n) = spec_normalize(path) {
        reveal_strlit("/");
        let pred = |s: Seq<char>| s.len() > 0 && s != "."@;
        let parts = split(p, '/');
        let ns = named_segments(p);
        assert(ns == parts.filter(pred));
        assert(lacks(p, '\\'));
        lemma_split_pieces(p, '/', '\\', 0, 0);
        assert(!parts.contains(".."@));
        assert forall|k: int| 0 <= k < ns.len() implies lacks(#[trigger] ns[k], '/') && lacks(ns[k], '\\')
            && pred(ns[k]) && ns[k] != ".."@ by {
            parts.lemma_filter_pred(pred, k);
            assert(ns.contains(ns[k]));
            parts.lemma_filter_contains_rev(pred, ns[k]);
            let j = choose|j: int| 0 <= j < parts.len() && parts[j] == ns[k];
            assert(lacks(parts[j], '/') && lacks(parts[j], '\\'));
        }
        assert(n == join(ns, "/"@));
        assert(ns.len() >= 1);
        assert("/"@ =~= seq!['/']);
        assert(lacks("/"@, '\\'));
        lemma_join_chars(ns, "/"@, '\\');
        assert(n[0] == ns[0][0]);
        assert(lacks(ns[0], '/'));
        lemma_split_join(ns, '/');
        assert(split(n, '/') == ns);
        assert(replace_char(n, '\\', '/') =~= n);
        lemma_filter_all(ns, pred);
        assert(named_segments(n) == ns);
        assert forall|k: int| 0 <= k < split(n, '/').len() implies (#[trigger] split(n, '/')[k]).len() > 0
            && split(n, '/')[k] != "."@ && split(n, '/')[k] != ".."@ by {
            assert(split(n, '/')[k] == ns[k]);
        }
        assert(!split(n, '/').contains(".."@)) by {
            if split(n, '/').contains(".."@) {
                let k = choose|k: int| 0 <= k < ns.len() && ns[k] == ".."@;
            }
        }
    }
}

pub open spec fn is_name_char(c: char) -> bool {
    ('a' <= c <= 'z') || ('A' <= c <= 'Z') || ('0' <= c <= '9') || c == '_'
}

/// A dotted module name whose segments are non-empty and made of ASCII
/// letters, digits and `_`.
pub open spec fn valid_module_name(name: Seq<char>) -> bool {
    &&& name.len() > 0
    &&& forall|i: int|
        0 <= i < split(name, '.').len() ==> (#[trigger] split(name, '.')[i]).len() > 0 && forall|
            j: int,
        |
            0 <= j < split(name, '.')[i].len() ==> is_name_char(#[trigger] split(name, '.')[i][j])
}

/// The file of a module: `a.b` is `a/b.lua`.
pub open spec fn spec_module_path(name: Seq<char>) -> Result<Seq<char>, Seq<char>> {
    if valid_module_name(name) {
        Ok(replace_char(name, '.', '/') + ".lua"@)
    } else {
        Err("invalid module name: "@ + name)
    }
}

/// `path` is `root` or lies under it.
pub open spec fn under_root(path: Seq<char>, root: Seq<char>) -> bool {
    path == root || starts_with(path, root + "/"@)
}

pub open spec fn in_roots(path: Seq<char>, roots: Seq<Seq<char>>) -> bool {
    exists|i: int| 0 <= i < roots.len() && under_root(path, #[trigger] roots[i])
}

fn replace_chars(v: &Vec<char>, from: char, to: char) -> (r: Vec<char>)
    ensures
        r@ == replace_char(v@, from, to),
{
    let mut out: Vec<char> = Vec::new();
    let mut i: usize = 0;
    while i < v.len()
        invariant
            i <= v.len(),
            out@ == replace_char(v@.take(i as int), from, to),
        decreases v.len() - i,
    {
        let c = v[i];
        out.push(if c == from { to } else { c });
        assert(replace_char(v@.take(i as int + 1), from, to) =~= replace_char(
            v@.take(i as int),
            from,
            to,
        ).push(if c == from { to } else { c }));
        i = i + 1;
    }
    assert(v@.take(v.len() as int) =~= v@);
    out
}

fn message(prefix: &str, tail: &Vec<char>) -> (m: String)
    ensures
        m@ == prefix@ + tail@,
{
    let mut v = chars_of(prefix);
    push_all(&mut v, tail);
    string_of(&v)
}

/// The logical form of a package path.
pub fn normalize_path(path: &str) -> (r: Result<String, String>)
    ensures
        match r {
            Ok(n) => spec_normalize(path@) == Ok::<Seq<char>, Seq<char>>(n@),
            Err(m) => spec_normalize(path@) == Err::<Seq<char>, Seq<char>>(m@),
        },
{
    let raw = chars_of(path);
    let p = replace_chars(&raw, '\\', '/');
    let segments = split_chars(&p, '/');
    let ghost sv = segments@.map_values(|s: Vec<char>| s@);
    let mut climbs = false;
    let mut i: usize = 0;
    while i < segments.len()
        invariant
            i <= segments.len(),
            sv == segments@.map_values(|s: Vec<char>| s@),
            climbs == exists|j: int| 0 <= j < i && #[trigger] sv[j] == ".."@,
        decreases segments.len() - i,
    {
        if eq_str(&segments[i], "..") {
            assert(sv[i as int] == ".."@);
            climbs = true;
        }
        i = i + 1;
    }
    proof {
        if climbs {
            let j = choose|j: int| 0 <= j < sv.len() && #[trigger] sv[j] == ".."@;
            assert(sv.contains(".."@));
        }
        if sv.contains(".."@) {
            let j = choose|j: int| 0 <= j < sv.len() && sv[j] == ".."@;
            assert(sv[j] == ".."@);
        }
    }
    if p.len() == 0 || p[0] == '/' || climbs {
        return Err(message("invalid package path: ", &p));
    }
    let ghost keep = |s: Seq<char>| s.len() > 0 && s != "."@;
    let mut parts: Vec<Vec<char>> = Vec::new();
    let mut i: usize = 0;
    while i < segments.len()
        invariant
            i <= segments.len(),
            sv == segments@.map_values(|s: Vec<char>| s@),
            keep == (|s: Seq<char>| s.len() > 0 && s != "."@),
            parts@.map_values(|s: Vec<char>| s@) == sv.take(i as int).filter(keep),
        decreases segments.len() - i,
    {
        proof {
            assert(sv.take(i as int + 1).drop_last() =~= sv.take(i as int));
            reveal(Seq::filter);
        }
        let s = &segments[i];
        if s.len() > 0 && !eq_str(s, ".") {
            let ghost before = parts@.map_values(|s: Vec<char>| s@);
            let copy = crate::text::slice_chars(s, 0, s.len());
            assert(copy@ =~= s@);
            parts.push(copy);
            assert(parts@.map_values(|s: Vec<char>| s@) =~= before.push(sv[i as int]));
        }
        i = i + 1;
    }
    assert(sv.take(sv.len() as int) =~= sv);
    let joined = crate::text::join_chars(&parts, '/');
    proof {
        reveal_strlit("/");
        assert("/"@ =~= seq!['/']);
    }
    if joined.len() == 0 {
        return Err(message("invalid package path: ", &p));
    }
    Ok(string_of(&joined))
}

/// The file of a module.
pub fn module_file(name: &str) -> (r: Result<String, String>)
    ensures
        match r {
            Ok(p) => spec_module_path(name@) == Ok::<Seq<char>, Seq<char>>(p@),
            Err(m) => spec_module_path(name@) == Err::<Seq<char>, Seq<char>>(m@),
        },
{
    let v = chars_of(name);
    let segments = split_chars(&v, '.');
    let ghost sv = segments@.map_values(|s: Vec<char>| s@);
    let mut ok = v.len() > 0;
    let mut i: usize = 0;
    while i < segments.len()
        invariant
            i <= segments.len(),
            sv == segments@.map_values(|s: Vec<char>| s@),
            sv == split(name@, '.'),
            ok == (name@.len() > 0 && forall|k: int|
                0 <= k < i ==> (#[trigger] sv[k]).len() > 0 && forall|j: int|
                    0 <= j < sv[k].len() ==> is_name_char(#[trigger] sv[k][j])),
        decreases segments.len() - i,
    {
        let s = &segments[i];
        let mut good = s.len() > 0;
        let mut j: usize = 0;
        while j < s.len()
            invariant
                j <= s.len(),
                good == (s@.len() > 0 && forall|t: int| 0 <= t < j ==> is_name_char(#[trigger] s@[t])),
            decreases s.len() - j,
        {
            let c = s[j];
            if !(('a' <= c && c <= 'z') || ('A' <= c && c <= 'Z') || ('0' <= c && c <= '9') || c
                == '_') {
                good = false;
            }
            j = j + 1;
        }
        assert(sv[i as int] == s@);
        ok = ok && good;
        i = i + 1;
    }
    if !ok {
        return Err(message("invalid module name: ", &v));
    }
    let mut path = replace_chars(&v, '.', '/');
    push_str(&mut path, ".lua");
    Ok(string_of(&path))
}

fn under_root_exec(path: &Vec<char>, root: &str) -> (r: bool)
    ensures
        r == under_root(path@, root@),
{
    let mut prefix = chars_of(root);
    let whole = chars_eq(path, &prefix);
    prefix.push('/');
    proof {
        reveal_strlit("/");
    }
    assert(prefix@ =~= root@ + "/"@);
    whole || crate::text::starts_with_chars(path, &prefix)
}

fn in_roots_exec(path: &Vec<char>, roots: &Vec<String>) -> (r: bool)
    ensures
        r == in_roots(path@, strings_view(roots@)),
{
    let mut i: usize = 0;
    while i < roots.len()
        invariant
            i <= roots.len(),
            forall|j: int| 0 <= j < i ==> !under_root(path@, #[trigger] strings_view(roots@)[j]),
        decreases roots.len() - i,
    {
        if under_root_exec(path, roots[i].as_str()) {
            assert(strings_view(roots@)[i as int] == roots@[i as int]@);
            return true;
        }
        i = i + 1;
    }
    false
}

// ---------------------------------------------------------------------------
// Manifest checks
// ---------------------------------------------------------------------------
/// The first resource root that is not a single normalized segment.
pub open spec fn check_roots(roots: Seq<Seq<char>>) -> Result<(), Seq<char>>
    decreases roots.len(),
{
    if roots.len() == 0 {
        Ok(())
    } else {
        let root = roots[0];
        match spec_normalize(root) {
            Err(e) => Err(e),
            Ok(n) => if n != root || root.contains('/') {
                Err("resource root must be one path segment: "@ + root)
            } else {
                check_roots(roots.drop_first())
            },
        }
    }
}

/// The first module with an invalid name.
pub open spec fn check_modules(modules: Seq<Seq<char>>) -> Result<(), Seq<char>>
    decreases modules.len(),
{
    if modules.len() == 0 {
        Ok(())
    } else {
        match spec_module_path(modules[0]) {
            Err(e) => Err(e),
            Ok(_) => check_modules(modules.drop_first()),
        }
    }
}

pub open spec fn asset_view(a: (String, AssetDescriptor)) -> (Seq<char>, Seq<char>, Seq<char>) {
    (a.0@, a.1.path@, a.1.media_type@)
}

/// The first asset without an id or media type, or outside the roots.
pub open spec fn check_assets(
    assets: Seq<(Seq<char>, Seq<char>, Seq<char>)>,
    roots: Seq<Seq<char>>,
) -> Result<(), Seq<char>>
    decreases assets.len(),
{
    if assets.len() == 0 {
        Ok(())
    } else {
        let a = assets[0];
        if trim(a.0).len() == 0 || trim(a.2).len() == 0 {
            Err("asset id and media_type must not be empty"@)
        } else {
            match spec_normalize(a.1) {
                Err(e) => Err(e),
                Ok(p) => if p != a.1 || !in_roots(p, roots) {
                    Err("asset path is outside declared roots: "@ + p)
                } else {
                    check_assets(assets.drop_first(), roots)
                },
            }
        }
    }
}

/// What checking a manifest gives: the first failing check.
pub open spec fn spec_validate(m: Manifest) -> Result<(), Seq<char>> {
    let modules = strings_view(m.modules@);
    let roots = strings_view(m.resource_roots@);
    if trim(m.package_id@).len() == 0 || trim(m.package_version@).len() == 0 || m.protocol_version
        == 0 || roots.len() == 0 || modules.len() == 0 {
        Err("package manifest has empty required fields"@)
    } else if !modules.contains(m.entry@) {
        Err("package entry is not declared in modules"@)
    } else {
        match check_roots(roots) {
            Err(e) => Err(e),
            Ok(_) => match check_modules(modules) {
                Err(e) => Err(e),
                Ok(_) => check_assets(m.assets@.map_values(|a: (String, AssetDescriptor)| asset_view(a)), roots),
            },
        }
    }
}

fn contains_string(v: &Vec<String>, s: &str) -> (r: bool)
    ensures
        r == strings_view(v@).contains(s@),
{
    let mut i: usize = 0;
    while i < v.len()
        invariant
            i <= v.len(),
            forall|j: int| 0 <= j < i ==> #[trigger] strings_view(v@)[j] != s@,
        decreases v.len() - i,
    {
        if str_eq(v[i].as_str(), s) {
            assert(strings_view(v@)[i as int] == s@);
            return true;
        }
        i = i + 1;
    }
    false
}

fn contains_slash(v: &Vec<char>) -> (r: bool)
    ensures
        r == v@.contains('/'),
{
    crate::text::contains_char(v, '/')
}

/// Checks a manifest: its required fields, its entry, its roots, its module
/// names and its assets, in that order.
#[verifier::loop_isolation(false)]
pub fn validate_manifest(manifest: &Manifest) -> (r: Result<(), String>)
    ensures
        match r {
            Ok(_) => spec_validate(*manifest) is Ok,
            Err(m) => spec_validate(*manifest) == Err::<(), Seq<char>>(m@),
        },
{
    let ghost modules = strings_view(manifest.modules@);
    let ghost roots = strings_view(manifest.resource_roots@);
    if trim_str(manifest.package_id.as_str()).len() == 0 || trim_str(
        manifest.package_version.as_str(),
    ).len() == 0 || manifest.protocol_version == 0 || manifest.resource_roots.len() == 0
        || manifest.modules.len() == 0 {
        return Err(String::from_str("package manifest has empty required fields"));
    }
    if !contains_string(&manifest.modules, manifest.entry.as_str()) {
        return Err(String::from_str("package entry is not declared in modules"));
    }
    let mut i: usize = 0;
    assert(roots.subrange(0, roots.len() as int) =~= roots);
    while i < manifest.resource_roots.len()
        invariant
            i <= manifest.resource_roots.len(),
            roots == strings_view(manifest.resource_roots@),
            check_roots(roots) == check_roots(roots.subrange(i as int, roots.len() as int)),
        decreases manifest.resource_roots.len() - i,
    {
        let root = manifest.resource_roots[i].as_str();
        let ghost rest = roots.subrange(i as int, roots.len() as int);
        assert(rest[0] == root@);
        assert(rest.drop_first() =~= roots.subrange(i + 1, roots.len() as int));
        let normalized = match normalize_path(root) {
            Ok(n) => n,
            Err(e) => {
                return Err(e);
            },
        };
        let rv = chars_of(root);
        if !str_eq(normalized.as_str(), root) || contains_slash(&rv) {
            return Err(message("resource root must be one path segment: ", &rv));
        }
        i = i + 1;
    }
    let mut i: usize = 0;
    assert(modules.subrange(0, modules.len() as int) =~= modules);
    while i < manifest.modules.len()
        invariant
            i <= manifest.modules.len(),
            modules == strings_view(manifest.modules@),
            check_modules(modules) == check_modules(modules.subrange(i as int, modules.len() as int)),
        decreases manifest.modules.len() - i,
    {
        let ghost rest = modules.subrange(i as int, modules.len() as int);
        assert(rest[0] == manifest.modules@[i as int]@);
        assert(rest.drop_first() =~= modules.subrange(i + 1, modules.len() as int));
        match module_file(manifest.modules[i].as_str()) {
            Ok(_) => {},
            Err(e) => {
                return Err(e);
            },
        }
        i = i + 1;
    }
    let ghost av = manifest.assets@.map_values(|a: (String, AssetDescriptor)| asset_view(a));
    let mut i: usize = 0;
    assert(av.subrange(0, av.len() as int) =~= av);
    while i < manifest.assets.len()
        invariant
            i <= manifest.assets.len(),
            av == manifest.assets@.map_values(|a: (String, AssetDescriptor)| asset_view(a)),
            roots == strings_view(manifest.resource_roots@),
            check_assets(av, roots) == check_assets(av.subrange(i as int, av.len() as int), roots),
        decreases manifest.assets.len() - i,
    {
        let ghost rest = av.subrange(i as int, av.len() as int);
        assert(rest[0] == asset_view(manifest.assets@[i as int]));
        assert(rest.drop_first() =~= av.subrange(i + 1, av.len() as int));
        let (id, asset) = &manifest.assets[i];
        if trim_str(id.as_str()).len() == 0 || trim_str(asset.media_type.as_str()).len() == 0 {
            return Err(String::from_str("asset id and media_type must not be empty"));
        }
        let path = match normalize_path(asset.path.as_str()) {
            Ok(p) => p,
            Err(e) => {
                return Err(e);
            },
        };
        let pv = chars_of(path.as_str());
        if !str_eq(path.as_str(), asset.path.as_str()) || !in_roots_exec(
            &pv,
            &manifest.resource_roots,
        ) {
            return Err(message("asset path is outside declared roots: ", &pv));
        }
        i = i + 1;
    }
    Ok(())
}

// ---------------------------------------------------------------------------
// Packages
// ---------------------------------------------------------------------------
/// A package whose manifest has been checked.
pub struct Package {
    manifest: Manifest,
}

/// What reading the text at `path` gives, for a reader whose answers are
/// `read`'s: an invalid path or one outside the roots is an error;
/// otherwise the reader is asked for the logical path.
pub open spec fn text_result<F: Fn(&str) -> Result<String, String>>(
    roots: Seq<Seq<char>>,
    path: Seq<char>,
    read: F,
    r: Result<String, String>,
) -> bool {
    match spec_normalize(path) {
        Err(e) => r matches Err(m) && m@ == e,
        Ok(n) => if !in_roots(n, roots) {
            r matches Err(m) && m@ == "resource path is outside declared roots: "@ + n
        } else {
            exists|p: &str| p@ == n && #[trigger] read.ensures((p,), r)
        },
    }
}

/// What loading module `name` gives.
pub open spec fn module_result<F: Fn(&str) -> Result<String, String>>(
    m: Manifest,
    name: Seq<char>,
    read: F,
    r: Result<String, String>,
) -> bool {
    if !strings_view(m.modules@).contains(name) {
        r matches Err(e) && e@ == "unknown package module: "@ + name
    } else {
        match spec_module_path(name) {
            Err(e) => r matches Err(x) && x@ == e,
            Ok(p) => text_result(strings_view(m.resource_roots@), p, read, r),
        }
    }
}

impl Package {
    /// The manifest of the package.
    pub closed spec fn manifest_view(&self) -> Manifest {
        self.manifest
    }

    /// A package with a checked manifest.
    pub fn from_manifest(manifest: Manifest) -> (r: Result<Package, String>)
        ensures
            match r {
                Ok(p) => spec_validate(manifest) is Ok && p.manifest_view() == manifest,
                Err(m) => spec_validate(manifest) == Err::<(), Seq<char>>(m@),
            },
    {
        match validate_manifest(&manifest) {
            Ok(_) => Ok(Package { manifest }),
            Err(e) => Err(e),
        }
    }

    /// The manifest of the package.
    pub fn manifest(&self) -> (r: &Manifest)
        ensures
            *r == self.manifest_view(),
    {
        &self.manifest
    }

    /// The text of a file under one of the resource roots, read by `read`.
    pub fn read_text<F: Fn(&str) -> Result<String, String>>(&self, path: &str, read: &F) -> (r:
        Result<String, String>)
        requires
            forall|p: &str| read.requires((p,)),
        ensures
            text_result(strings_view(self.manifest_view().resource_roots@), path@, *read, r),
    {
        let path = match normalize_path(path) {
            Ok(p) => p,
            Err(e) => {
                return Err(e);
            },
        };
        let pv = chars_of(path.as_str());
        if !in_roots_exec(&pv, &self.manifest.resource_roots) {
            return Err(message("resource path is outside declared roots: ", &pv));
        }
        let p = path.as_str();
        let r = read(p);
        assert(read.ensures((p,), r));
        r
    }

    /// The parsed data file at `path`; a parse error is reported with the
    /// path.
    pub fn read_data<F: Fn(&str) -> Result<String, String>>(&self, path: &str, read: &F) -> (r:
        Result<Vec<Node>, String>)
        requires
            forall|p: &str| read.requires((p,)),
        ensures
            exists|t: Result<String, String>|
                #[trigger] text_result(
                    strings_view(self.manifest_view().resource_roots@),
                    path@,
                    *read,
                    t,
                ) && match t {
                    Err(e) => r matches Err(m) && m@ == e@,
                    Ok(text) => match parse_wml(text@) {
                        Ok(nodes) => r matches Ok(v) && nodes_view(v@) == nodes,
                        Err(e) => r matches Err(m) && m@ == path@ + ": "@ + e,
                    },
                },
    {
        let text = self.read_text(path, read);
        match text {
            Err(e) => {
                let r: Result<Vec<Node>, String> = Err(e);
                assert(text_result(
                    strings_view(self.manifest_view().resource_roots@),
                    path@,
                    *read,
                    text,
                ));
                r
            },
            Ok(t) => match parse(t.as_str()) {
                Ok(nodes) => {
                    assert(text_result(
                        strings_view(self.manifest_view().resource_roots@),
                        path@,
                        *read,
                        Ok::<String, String>(t),
                    ));
                    Ok(nodes)
                },
                Err(e) => {
                    let mut m = chars_of(path);
                    push_str(&mut m, ": ");
                    push_str(&mut m, e.as_str());
                    let r: Result<Vec<Node>, String> = Err(string_of(&m));
                    assert(text_result(
                        strings_view(self.manifest_view().resource_roots@),
                        path@,
                        *read,
                        Ok::<String, String>(t),
                    ));
                    r
                },
            },
        }
    }

    /// The source of a declared module.
    pub fn module<F: Fn(&str) -> Result<String, String>>(&self, name: &str, read: &F) -> (r:
        Result<String, String>)
        requires
            forall|p: &str| read.requires((p,)),
        ensures
            module_result(self.manifest_view(), name@, *read, r),
    {
        if !contains_string(&self.manifest.modules, name) {
            let v = chars_of(name);
            return Err(message("unknown package module: ", &v));
        }
        let path = match module_file(name) {
            Ok(p) => p,
            Err(e) => {
                return Err(e);
            },
        };
        self.read_text(path.as_str(), read)
    }

    /// The descriptor of an asset.
    pub fn asset(&self, id: &str) -> (r: Result<&AssetDescriptor, String>)
        ensures
            match r {
                Ok(a) => exists|i: int|
                    0 <= i < self.manifest_view().assets@.len() && (#[trigger] self.manifest_view().assets@[i]).0@
                        == id@ && self.manifest_view().assets@[i].1 == *a && forall|j: int|
                        0 <= j < i ==> (#[trigger] self.manifest_view().assets@[j]).0@ != id@,
                Err(m) => m@ == "unknown package asset: "@ + id@ && forall|j: int|
                    0 <= j < self.manifest_view().assets@.len() ==> (
                    #[trigger] self.manifest_view().assets@[j]).0@ != id@,
            },
    {
        let mut i: usize = 0;
        while i < self.manifest.assets.len()
            invariant
                i <= self.manifest.assets.len(),
                forall|j: int| 0 <= j < i ==> (#[trigger] self.manifest.assets@[j]).0@ != id@,
            decreases self.manifest.assets.len() - i,
        {
            if str_eq(self.manifest.assets[i].0.as_str(), id) {
                assert(self.manifest_view().assets@[i as int].0@ == id@);
                return Ok(&self.manifest.assets[i].1);
            }
            i = i + 1;
        }
        let v = chars_of(id);
        Err(message("unknown package asset: ", &v))
    }

    /// The sources of all declared modules, read in the order they are
    /// declared and kept by increasing name; a module declared twice keeps
    /// its later reading. The first module that cannot be read ends the
    /// reading with its error.
    pub fn module_sources<F: Fn(&str) -> Result<String, String>>(&self, read: &F) -> (r: Result<
        Vec<(String, String)>,
        String,
    >)
        requires
            forall|p: &str| read.requires((p,)),
        ensures
            match r {
                Ok(v) => exists|got: Seq<(Seq<char>, String)>|
                    #[trigger] readings(self.manifest_view(), *read, got) && got.len()
                        == self.manifest_view().modules@.len() && keyed(v@) == collected(got)
                        && names_increase(keyed(v@)),
                Err(m) => exists|got: Seq<(Seq<char>, String)>|
                    #[trigger] readings(self.manifest_view(), *read, got) && got.len()
                        < self.manifest_view().modules@.len() && module_result(
                        self.manifest_view(),
                        self.manifest_view().modules@[got.len() as int]@,
                        *read,
                        Err::<String, String>(m),
                    ),
            },
    {
        let mut out: Vec<(String, String)> = Vec::new();
        let ghost mut got: Seq<(Seq<char>, String)> = seq![];
        let mut i: usize = 0;
        proof {
            assert(keyed(out@) =~= Seq::<(Seq<char>, String)>::empty());
        }
        while i < self.manifest.modules.len()
            invariant
                i <= self.manifest.modules.len(),
                forall|p: &str| read.requires((p,)),
                got.len() == i,
                readings(self.manifest_view(), *read, got),
                keyed(out@) == collected(got),
                names_increase(keyed(out@)),
            decreases self.manifest.modules.len() - i,
        {
            let name = self.manifest.modules[i].as_str();
            match self.module(name, read) {
                Ok(source) => {
                    let ghost before = keyed(out@);
                    proof {
                        let next = got.push((name@, source));
                        assert(next.drop_last() =~= got);
                        assert(readings(self.manifest_view(), *read, next)) by {
                            assert forall|k: int| 0 <= k < next.len() implies #[trigger] next[k].0
                                == self.manifest_view().modules@[k]@ && module_result(
                                self.manifest_view(),
                                next[k].0,
                                *read,
                                Ok::<String, String>(next[k].1),
                            ) by {
                                if k < got.len() {
                                    assert(next[k] == got[k]);
                                }
                            }
                        }
                        got = next;
                    }
                    put_keyed(&mut out, self.manifest.modules[i].clone(), source);
                },
                Err(e) => {
                    assert(module_result(
                        self.manifest_view(),
                        self.manifest_view().modules@[got.len() as int]@,
                        *read,
                        Err::<String, String>(e),
                    ));
                    return Err(e);
                },
            }
            i = i + 1;
        }
        Ok(out)
    }
}

/// Modules read in declared order: the name and source of each of the first
/// `got.len()` modules.
pub open spec fn readings<F: Fn(&str) -> Result<String, String>>(
    m: Manifest,
    read: F,
    got: Seq<(Seq<char>, String)>,
) -> bool {
    &&& got.len() <= m.modules@.len()
    &&& forall|k: int|
        0 <= k < got.len() ==> #[trigger] got[k].0 == m.modules@[k]@ && module_result(
            m,
            got[k].0,
            read,
            Ok::<String, String>(got[k].1),
        )
}

/// Named values gathered in order into a map kept by increasing name: a
/// later value for a name replaces an earlier one.
pub open spec fn collected<V>(s: Seq<(Seq<char>, V)>) -> Seq<(Seq<char>, V)>
    decreases s.len(),
{
    if s.len() == 0 {
        s
    } else {
        field_put(collected(s.drop_last()), s.last().0, s.last().1)
    }
}

} // verus!
