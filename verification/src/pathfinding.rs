//! Batched weighted hex search with no game-rule callbacks or terrain
//! semantics: the caller supplies the cost of entering each cell, the cells
//! that cannot be entered and the cells where movement must stop.
use vstd::prelude::*;
use crate::hex::{spec_contains, spec_neighbors, Bounds, Position};
use crate::text::{format_i64, format_int, owned, push_all, push_str, string_of};

verus! {

/// A search from `origin` with a movement `budget`. `costs` gives the cost
/// of entering each cell (a later entry for the same cell replaces an
/// earlier one); every cell of the map that is not `blocked` needs one.
pub struct SearchRequest {
    pub bounds: Bounds,
    pub origin: Position,
    pub budget: i64,
    pub costs: Vec<(Position, i64)>,
    pub blocked: Vec<Position>,
    pub stop_cells: Vec<Position>,
}

/// The reached cells with their least cost, in the order the search settled
/// them, and the predecessor of every reached cell except the origin,
/// ordered by cell.
#[derive(Debug, PartialEq)]
pub struct SearchResult {
    pub costs: Vec<(Position, i64)>,
    pub predecessors: Vec<(Position, Position)>,
}

// ---------------------------------------------------------------------------
// Specification
// ---------------------------------------------------------------------------
/// The cost given for `p`: the last entry for it wins.
pub open spec fn lookup_cost(costs: Seq<(Position, i64)>, p: Position) -> Option<i64>
    decreases costs.len(),
{
    if costs.len() == 0 {
        None
    } else if costs.last().0 == p {
        Some(costs.last().1)
    } else {
        lookup_cost(costs.drop_last(), p)
    }
}

/// The requests the search accepts.
pub open spec fn request_valid(r: SearchRequest) -> bool {
    &&& r.budget >= 0
    &&& spec_contains(r.bounds, r.origin)
    &&& forall|p: Position|
        #![trigger lookup_cost(r.costs@, p)]
        spec_contains(r.bounds, p) ==> r.blocked@.contains(p) || (lookup_cost(r.costs@, p) matches Some(
            c,
        ) && c >= 0)
    &&& forall|p: Position| r.blocked@.contains(p) ==> spec_contains(r.bounds, p)
    &&& forall|p: Position| r.stop_cells@.contains(p) ==> spec_contains(r.bounds, p)
}

/// The map fits the machine: coordinates can be stepped in `i64` and the
/// cells can be counted in `usize`.
pub open spec fn map_fits(b: Bounds) -> bool {
    &&& b.width < i64::MAX
    &&& b.height < i64::MAX
    &&& (b.width as int) * (b.height as int) < usize::MAX
}

pub open spec fn step(r: SearchRequest, p: Position) -> int {
    lookup_cost(r.costs@, p).unwrap() as int
}

/// The cost after entering `p` with `c` already spent, capped at the budget.
pub open spec fn advance(r: SearchRequest, c: int, p: Position) -> int {
    let next = c + step(r, p);
    if next < r.budget {
        next
    } else {
        r.budget as int
    }
}

/// The cost of following `path` from its first cell.
pub open spec fn path_cost(r: SearchRequest, path: Seq<Position>) -> int
    decreases path.len(),
{
    if path.len() <= 1 {
        0
    } else {
        advance(r, path_cost(r, path.drop_last()), path.last())
    }
}

pub open spec fn enterable(r: SearchRequest, p: Position) -> bool {
    spec_contains(r.bounds, p) && !r.blocked@.contains(p)
}

/// Movement may continue from `p` reached with cost `c`.
pub open spec fn expandable(r: SearchRequest, p: Position, c: int) -> bool {
    !r.stop_cells@.contains(p) && c < r.budget
}

pub open spec fn is_neighbor(a: Position, b: Position) -> bool {
    spec_neighbors(a).contains(b)
}

/// A route the search may take: it starts at the origin, steps between
/// neighbouring enterable cells, and leaves a cell only if that cell is no
/// stop cell and was reached below the budget.
pub open spec fn valid_path(r: SearchRequest, path: Seq<Position>) -> bool {
    &&& path.len() >= 1
    &&& path[0] == r.origin
    &&& forall|j: int|
        1 <= j < path.len() ==> enterable(r, #[trigger] path[j]) && is_neighbor(path[j - 1], path[j])
    &&& forall|j: int|
        0 <= j < path.len() - 1 ==> expandable(r, #[trigger] path[j], path_cost(r, path.take(j + 1)))
}

/// `p` can be reached with cost `c`.
pub open spec fn reaches(r: SearchRequest, p: Position, c: int) -> bool {
    exists|path: Seq<Position>|
        valid_path(r, path) && path.last() == p && #[trigger] path_cost(r, path) == c
}

/// `c` is the least cost of reaching `p`.
pub open spec fn least_cost(r: SearchRequest, p: Position, c: int) -> bool {
    &&& reaches(r, p, c)
    &&& forall|path: Seq<Position>|
        valid_path(r, path) && path.last() == p ==> #[trigger] path_cost(r, path) >= c
}

pub open spec fn position_lt(a: Position, b: Position) -> bool {
    a.x < b.x || (a.x == b.x && a.y < b.y)
}

/// What a successful search returns for a valid request.
pub open spec fn search_result_ok(r: SearchRequest, res: SearchResult) -> bool {
    let costs = res.costs@;
    let preds = res.predecessors@;
    &&& costs.len() >= 1
    &&& costs[0] == (r.origin, 0i64)
    &&& forall|k: int, l: int| 0 <= k < l < costs.len() ==> costs[k].0 != costs[l].0
    &&& forall|k: int, l: int| 0 <= k < l < costs.len() ==> costs[k].1 <= costs[l].1
    &&& forall|k: int|
        0 <= k < costs.len() ==> least_cost(r, (#[trigger] costs[k]).0, costs[k].1 as int)
    &&& forall|p: Position, c: int|
        reaches(r, p, c) ==> exists|k: int| 0 <= k < costs.len() && (#[trigger] costs[k]).0 == p
    &&& forall|k: int, l: int| 0 <= k < l < preds.len() ==> position_lt(preds[k].0, preds[l].0)
    &&& forall|k: int| 1 <= k < costs.len() ==> has_predecessor(preds, (#[trigger] costs[k]).0)
    &&& forall|l: int| 0 <= l < preds.len() ==> justified(r, costs, #[trigger] preds[l])
}

/// Some entry of `preds` is for the cell `p`.
pub open spec fn has_predecessor(preds: Seq<(Position, Position)>, p: Position) -> bool {
    exists|l: int| 0 <= l < preds.len() && (#[trigger] preds[l]).0 == p
}

/// The entry `e` names a neighbour reported before its cell, from which
/// movement continues and from which the reported cost of its cell follows.
pub open spec fn justified(
    r: SearchRequest,
    costs: Seq<(Position, i64)>,
    e: (Position, Position),
) -> bool {
    exists|k: int, m: int|
        #![trigger costs[k], costs[m]]
        1 <= k < costs.len() && 0 <= m < k && costs[k].0 == e.0 && costs[m].0 == e.1
            && is_neighbor(e.1, e.0) && expandable(r, e.1, costs[m].1 as int) && costs[k].1
            == advance(r, costs[m].1 as int, e.0)
}

} // verus!

verus! {

// ---------------------------------------------------------------------------
// Cells as array indices (row-major)
// ---------------------------------------------------------------------------
pub open spec fn cell_count(b: Bounds) -> int {
    (b.width as int) * (b.height as int)
}

pub open spec fn cell_at(b: Bounds, i: int) -> Position {
    Position { x: (i % (b.width as int) + 1) as i64, y: (i / (b.width as int) + 1) as i64 }
}

pub open spec fn index_of(b: Bounds, p: Position) -> int {
    (p.y - 1) * (b.width as int) + (p.x - 1)
}

proof fn lemma_index_of(b: Bounds, p: Position)
    requires
        map_fits(b),
        spec_contains(b, p),
    ensures
        0 <= index_of(b, p) < cell_count(b),
        cell_at(b, index_of(b, p)) == p,
{
    let w = b.width as int;
    let h = b.height as int;
    let x = p.x - 1;
    let y = p.y - 1;
    assert(0 <= x < w && 0 <= y < h);
    assert(0 <= y * w + x < w * h) by (nonlinear_arith)
        requires
            0 <= x < w,
            0 <= y < h,
    ;
    assert((y * w + x) % w == x && (y * w + x) / w == y) by (nonlinear_arith)
        requires
            0 <= x < w,
            0 <= y,
    ;
}

proof fn lemma_cell_at(b: Bounds, i: int)
    requires
        map_fits(b),
        0 <= i < cell_count(b),
    ensures
        spec_contains(b, cell_at(b, i)),
        index_of(b, cell_at(b, i)) == i,
        0 <= i % (b.width as int) < b.width,
        0 <= i / (b.width as int) < b.height,
{
    let w = b.width as int;
    let h = b.height as int;
    assert(w > 0 && h > 0) by (nonlinear_arith)
        requires
            0 <= i < w * h,
            w >= 0,
            h >= 0,
    ;
    assert(0 <= i % w < w && 0 <= i / w < h && (i / w) * w + i % w == i) by (nonlinear_arith)
        requires
            0 <= i < w * h,
            w > 0,
    ;
}

fn index_exec(b: Bounds, p: Position) -> (i: usize)
    requires
        map_fits(b),
        spec_contains(b, p),
    ensures
        i == index_of(b, p),
        i < cell_count(b),
{
    proof {
        lemma_index_of(b, p);
    }
    let y = (p.y - 1) as usize;
    let x = (p.x - 1) as usize;
    assert(y * b.width + x == index_of(b, p));
    y * b.width + x
}

fn cell_exec(b: Bounds, i: usize) -> (p: Position)
    requires
        map_fits(b),
        i < cell_count(b),
    ensures
        p == cell_at(b, i as int),
        spec_contains(b, p),
{
    proof {
        lemma_cell_at(b, i as int);
    }
    let x = (i % b.width) as i64 + 1;
    let y = (i / b.width) as i64 + 1;
    assert(x == (i as int % (b.width as int) + 1) as i64);
    assert(y == (i as int / (b.width as int) + 1) as i64);
    Position { x, y }
}

fn new_flags(n: usize) -> (v: Vec<bool>)
    ensures
        v@ == Seq::new(n as nat, |i: int| false),
{
    let mut v: Vec<bool> = Vec::new();
    let mut i: usize = 0;
    while i < n
        invariant
            i <= n,
            v@ == Seq::new(i as nat, |j: int| false),
        decreases n - i,
    {
        v.push(false);
        assert(v@ =~= Seq::new(i as nat + 1, |j: int| false));
        i = i + 1;
    }
    v
}

fn new_numbers(n: usize) -> (v: Vec<i64>)
    ensures
        v@ == Seq::new(n as nat, |i: int| 0i64),
{
    let mut v: Vec<i64> = Vec::new();
    let mut i: usize = 0;
    while i < n
        invariant
            i <= n,
            v@ == Seq::new(i as nat, |j: int| 0i64),
        decreases n - i,
    {
        v.push(0);
        assert(v@ =~= Seq::new(i as nat + 1, |j: int| 0i64));
        i = i + 1;
    }
    v
}

fn new_indices(n: usize) -> (v: Vec<usize>)
    ensures
        v@ == Seq::new(n as nat, |i: int| 0usize),
{
    let mut v: Vec<usize> = Vec::new();
    let mut i: usize = 0;
    while i < n
        invariant
            i <= n,
            v@ == Seq::new(i as nat, |j: int| 0usize),
        decreases n - i,
    {
        v.push(0);
        assert(v@ =~= Seq::new(i as nat + 1, |j: int| 0usize));
        i = i + 1;
    }
    v
}

/// Flags the cells named in `list`, which must all lie on the map.
fn mark_cells(b: Bounds, list: &Vec<Position>) -> (flags: Vec<bool>)
    requires
        map_fits(b),
    ensures
        flags@.len() == cell_count(b),
        forall|i: int|
            0 <= i < cell_count(b) ==> (#[trigger] flags@[i] <==> list@.contains(cell_at(b, i))),
{
    let n = b.width * b.height;
    let mut flags = new_flags(n);
    let mut k: usize = 0;
    while k < list.len()
        invariant
            map_fits(b),
            n == cell_count(b),
            k <= list.len(),
            flags@.len() == n,
            forall|i: int|
                0 <= i < n ==> (#[trigger] flags@[i] <==> list@.take(k as int).contains(
                    cell_at(b, i),
                )),
        decreases list.len() - k,
    {
        let p = list[k];
        proof {
            assert(list@.take(k as int + 1) =~= list@.take(k as int).push(p));
        }
        if b.contains(p) {
            let i = index_exec(b, p);
            flags.set(i, true);
            proof {
                lemma_index_of(b, p);
                assert forall|j: int| 0 <= j < n implies (#[trigger] flags@[j] <==> list@.take(
                    k as int + 1,
                ).contains(cell_at(b, j))) by {
                    lemma_cell_at(b, j);
                    if j == i {
                        assert(list@.take(k as int + 1).last() == p);
                    } else {
                        if list@.take(k as int + 1).contains(cell_at(b, j)) {
                            let t = choose|t: int|
                                0 <= t < k + 1 && #[trigger] list@.take(k as int + 1)[t] == cell_at(b, j);
                            if t == k {
                                assert(index_of(b, cell_at(b, j)) == index_of(b, p));
                            } else {
                                assert(list@.take(k as int)[t] == cell_at(b, j));
                            }
                        }
                    }
                }
            }
        } else {
            proof {
                assert forall|j: int| 0 <= j < n implies (#[trigger] flags@[j] <==> list@.take(
                    k as int + 1,
                ).contains(cell_at(b, j))) by {
                    lemma_cell_at(b, j);
                    if list@.take(k as int + 1).contains(cell_at(b, j)) {
                        let t = choose|t: int|
                            0 <= t < k + 1 && #[trigger] list@.take(k as int + 1)[t] == cell_at(b, j);
                        if t == k {
                            assert(cell_at(b, j) == p);
                        } else {
                            assert(list@.take(k as int)[t] == cell_at(b, j));
                        }
                    }
                }
            }
        }
        k = k + 1;
    }
    assert(list@.take(list.len() as int) =~= list@);
    flags
}

proof fn lemma_lookup_cost_push(costs: Seq<(Position, i64)>, e: (Position, i64), p: Position)
    ensures
        lookup_cost(costs.push(e), p) == if e.0 == p {
            Some(e.1)
        } else {
            lookup_cost(costs, p)
        },
{
    assert(costs.push(e).drop_last() =~= costs);
}

/// The given cost of each cell of the map.
fn cost_table(b: Bounds, costs: &Vec<(Position, i64)>) -> (table: (Vec<bool>, Vec<i64>))
    requires
        map_fits(b),
    ensures
        table.0@.len() == cell_count(b),
        table.1@.len() == cell_count(b),
        forall|i: int|
            0 <= i < cell_count(b) ==> (#[trigger] table.0@[i] <==> lookup_cost(
                costs@,
                cell_at(b, i),
            ) is Some),
        forall|i: int|
            0 <= i < cell_count(b) && table.0@[i] ==> lookup_cost(costs@, cell_at(b, i)) == Some(
                #[trigger] table.1@[i],
            ),
{
    let n = b.width * b.height;
    let mut has = new_flags(n);
    let mut values = new_numbers(n);
    let mut k: usize = 0;
    while k < costs.len()
        invariant
            map_fits(b),
            n == cell_count(b),
            k <= costs.len(),
            has@.len() == n,
            values@.len() == n,
            forall|i: int|
                0 <= i < n ==> (#[trigger] has@[i] <==> lookup_cost(
                    costs@.take(k as int),
                    cell_at(b, i),
                ) is Some),
            forall|i: int|
                0 <= i < n && has@[i] ==> lookup_cost(costs@.take(k as int), cell_at(b, i))
                    == Some(#[trigger] values@[i]),
        decreases costs.len() - k,
    {
        let (p, c) = costs[k];
        proof {
            assert(costs@.take(k as int + 1) =~= costs@.take(k as int).push((p, c)));
            assert forall|j: int| 0 <= j < n implies lookup_cost(
                costs@.take(k as int + 1),
                cell_at(b, j),
            ) == if cell_at(b, j) == p {
                Some(c)
            } else {
                lookup_cost(costs@.take(k as int), cell_at(b, j))
            } by {
                lemma_lookup_cost_push(costs@.take(k as int), (p, c), cell_at(b, j));
            }
        }
        if b.contains(p) {
            let i = index_exec(b, p);
            has.set(i, true);
            values.set(i, c);
            proof {
                lemma_index_of(b, p);
                assert forall|j: int| 0 <= j < n && cell_at(b, j) == p implies j == i by {
                    lemma_cell_at(b, j);
                }
            }
        } else {
            proof {
                assert forall|j: int| 0 <= j < n implies cell_at(b, j) != p by {
                    lemma_cell_at(b, j);
                }
            }
        }
        k = k + 1;
    }
    assert(costs@.take(costs.len() as int) =~= costs@);
    (has, values)
}

/// Whether every listed cell lies on the map.
fn all_on_map(b: Bounds, list: &Vec<Position>) -> (r: bool)
    ensures
        r == forall|p: Position| list@.contains(p) ==> spec_contains(b, p),
{
    let mut k: usize = 0;
    while k < list.len()
        invariant
            k <= list.len(),
            forall|t: int| 0 <= t < k ==> spec_contains(b, #[trigger] list@[t]),
        decreases list.len() - k,
    {
        if !b.contains(list[k]) {
            assert(list@.contains(list@[k as int]));
            return false;
        }
        k = k + 1;
    }
    true
}

} // verus!

verus! {

// ---------------------------------------------------------------------------
// Paths
// ---------------------------------------------------------------------------
proof fn lemma_step_nonnegative(r: SearchRequest, p: Position)
    requires
        request_valid(r),
        enterable(r, p),
    ensures
        step(r, p) >= 0,
{
    assert(lookup_cost(r.costs@, p) is Some);
}

proof fn lemma_path_extend(r: SearchRequest, path: Seq<Position>, q: Position)
    requires
        valid_path(r, path),
        expandable(r, path.last(), path_cost(r, path)),
        enterable(r, q),
        is_neighbor(path.last(), q),
    ensures
        valid_path(r, path.push(q)),
        path_cost(r, path.push(q)) == advance(r, path_cost(r, path), q),
        path.push(q).last() == q,
{
    let longer = path.push(q);
    assert(longer.drop_last() =~= path);
    assert forall|j: int| 0 <= j < longer.len() - 1 implies expandable(
        r,
        #[trigger] longer[j],
        path_cost(r, longer.take(j + 1)),
    ) by {
        assert(longer.take(j + 1) =~= path.take(j + 1));
        if j == path.len() - 1 {
            assert(path.take(j + 1) =~= path);
        }
    }
    assert forall|j: int| 1 <= j < longer.len() implies enterable(r, #[trigger] longer[j])
        && is_neighbor(longer[j - 1], longer[j]) by {
        if j < path.len() {
            assert(longer[j] == path[j] && longer[j - 1] == path[j - 1]);
        }
    }
}

proof fn lemma_path_prefix(r: SearchRequest, path: Seq<Position>)
    requires
        valid_path(r, path),
        path.len() >= 2,
    ensures
        valid_path(r, path.drop_last()),
        expandable(r, path.drop_last().last(), path_cost(r, path.drop_last())),
        enterable(r, path.last()),
        is_neighbor(path.drop_last().last(), path.last()),
        path_cost(r, path) == advance(r, path_cost(r, path.drop_last()), path.last()),
{
    let shorter = path.drop_last();
    let k = path.len() - 2;
    assert(path.take(k + 1) =~= shorter);
    assert(expandable(r, path[k], path_cost(r, path.take(k + 1))));
    assert forall|j: int| 0 <= j < shorter.len() - 1 implies expandable(
        r,
        #[trigger] shorter[j],
        path_cost(r, shorter.take(j + 1)),
    ) by {
        assert(shorter.take(j + 1) =~= path.take(j + 1));
        assert(expandable(r, path[j], path_cost(r, path.take(j + 1))));
    }
    assert forall|j: int| 1 <= j < shorter.len() implies enterable(r, #[trigger] shorter[j])
        && is_neighbor(shorter[j - 1], shorter[j]) by {
        assert(enterable(r, path[j]) && is_neighbor(path[j - 1], path[j]));
    }
    assert(enterable(r, path[path.len() - 1]));
}

proof fn lemma_cost_in_budget(r: SearchRequest, path: Seq<Position>)
    requires
        request_valid(r),
        valid_path(r, path),
    ensures
        0 <= path_cost(r, path) <= r.budget,
    decreases path.len(),
{
    if path.len() >= 2 {
        lemma_path_prefix(r, path);
        lemma_cost_in_budget(r, path.drop_last());
        lemma_step_nonnegative(r, path.last());
    }
}

// ---------------------------------------------------------------------------
// Search state
// ---------------------------------------------------------------------------
/// What the search knows about its state: every reached cell has a
/// witnessing route of its recorded cost; settled cells hold their least
/// cost, no more than `level`; unsettled reached cells cost at least
/// `level`; and every settled cell from which movement continues has
/// relaxed each unsettled neighbour.
#[verifier::opaque]
pub open spec fn search_state(
    r: SearchRequest,
    origin_i: int,
    best: Seq<i64>,
    reached: Seq<bool>,
    settled: Seq<bool>,
    routes: Seq<Seq<Position>>,
    level: int,
) -> bool {
    let b = r.bounds;
    let n = cell_count(b);
    &&& best.len() == n && reached.len() == n && settled.len() == n && routes.len() == n
    &&& 0 <= origin_i < n
    &&& cell_at(b, origin_i) == r.origin
    &&& reached[origin_i]
    &&& best[origin_i] == 0
    &&& forall|i: int|
        0 <= i < n && #[trigger] reached[i] ==> valid_path(r, routes[i]) && routes[i].last()
            == cell_at(b, i) && path_cost(r, routes[i]) == best[i]
    &&& forall|i: int| 0 <= i < n && #[trigger] settled[i] ==> reached[i] && best[i] <= level
    &&& forall|i: int, path: Seq<Position>|
        0 <= i < n && #[trigger] settled[i] && valid_path(r, path) && path.last() == cell_at(b, i)
            ==> #[trigger] path_cost(r, path) >= best[i]
    &&& forall|i: int| 0 <= i < n && #[trigger] reached[i] && !settled[i] ==> best[i] >= level
}

/// Every settled cell except `pending` from which movement continues has
/// relaxed each unsettled neighbour.
#[verifier::opaque]
pub open spec fn relaxed_except(
    r: SearchRequest,
    best: Seq<i64>,
    reached: Seq<bool>,
    settled: Seq<bool>,
    pending: int,
) -> bool {
    let b = r.bounds;
    let n = cell_count(b);
    forall|i: int, j: int|
        0 <= i < n && 0 <= j < n && j != pending && #[trigger] settled[j] && !settled[i]
            && enterable(r, cell_at(b, i)) && is_neighbor(cell_at(b, j), cell_at(b, i))
            && expandable(r, cell_at(b, j), best[j] as int) ==> #[trigger] reached[i] && best[i]
            <= advance(r, best[j] as int, cell_at(b, i))
}

/// Any route to an unsettled cell costs at least `m` when every unsettled
/// reached cell costs at least `m`.
#[verifier::rlimit(60)]
proof fn lemma_unsettled_cost_bound(
    r: SearchRequest,
    origin_i: int,
    best: Seq<i64>,
    reached: Seq<bool>,
    settled: Seq<bool>,
    routes: Seq<Seq<Position>>,
    level: int,
    m: int,
    path: Seq<Position>,
)
    requires
        request_valid(r),
        map_fits(r.bounds),
        search_state(r, origin_i, best, reached, settled, routes, level),
        relaxed_except(r, best, reached, settled, -1),
        forall|i: int|
            0 <= i < cell_count(r.bounds) && #[trigger] reached[i] && !settled[i] ==> best[i]
                >= m,
        valid_path(r, path),
        !settled[index_of(r.bounds, path.last())],
    ensures
        path_cost(r, path) >= m,
    decreases path.len(),
{
    reveal(search_state);
    reveal(relaxed_except);
    let b = r.bounds;
    if path.len() == 1 {
        lemma_index_of(b, r.origin);
        assert(index_of(b, r.origin) == origin_i) by {
            lemma_cell_at(b, origin_i);
        }
    } else {
        lemma_path_prefix(r, path);
        let shorter = path.drop_last();
        let u = shorter.last();
        let w = path.last();
        assert(spec_contains(b, u)) by {
            if shorter.len() == 1 {
            } else {
                assert(enterable(r, shorter[shorter.len() - 1]));
            }
        }
        lemma_index_of(b, u);
        lemma_index_of(b, w);
        let ui = index_of(b, u);
        let wi = index_of(b, w);
        lemma_cost_in_budget(r, shorter);
        lemma_step_nonnegative(r, w);
        if settled[ui] {
            assert(path_cost(r, shorter) >= best[ui]);
            assert(settled[ui] && !settled[wi]);
            assert(reached[wi]);
            assert(best[wi] <= advance(r, best[ui] as int, cell_at(b, wi)));
        } else {
            lemma_unsettled_cost_bound(r, origin_i, best, reached, settled, routes, level, m, shorter);
        }
    }
}

/// When no reached cell is unsettled, every route ends at a settled cell.
proof fn lemma_routes_end_settled(
    r: SearchRequest,
    origin_i: int,
    best: Seq<i64>,
    reached: Seq<bool>,
    settled: Seq<bool>,
    routes: Seq<Seq<Position>>,
    level: int,
    path: Seq<Position>,
)
    requires
        request_valid(r),
        map_fits(r.bounds),
        search_state(r, origin_i, best, reached, settled, routes, level),
        relaxed_except(r, best, reached, settled, -1),
        forall|i: int| 0 <= i < cell_count(r.bounds) && #[trigger] reached[i] ==> settled[i],
        valid_path(r, path),
    ensures
        settled[index_of(r.bounds, path.last())],
    decreases path.len(),
{
    reveal(search_state);
    reveal(relaxed_except);
    let b = r.bounds;
    if path.len() == 1 {
        lemma_cell_at(b, origin_i);
    } else {
        lemma_path_prefix(r, path);
        let shorter = path.drop_last();
        let u = shorter.last();
        let w = path.last();
        assert(spec_contains(b, u)) by {
            if shorter.len() > 1 {
                assert(enterable(r, shorter[shorter.len() - 1]));
            }
        }
        lemma_index_of(b, u);
        lemma_index_of(b, w);
        let ui = index_of(b, u);
        let wi = index_of(b, w);
        lemma_routes_end_settled(r, origin_i, best, reached, settled, routes, level, shorter);
        assert(path_cost(r, shorter) >= best[ui]);
        if !settled[wi] {
            assert(settled[ui] && !settled[wi]);
            assert(reached[wi]);
        }
    }
}

} // verus!

verus! {

pub open spec fn count_false(s: Seq<bool>) -> nat
    decreases s.len(),
{
    if s.len() == 0 {
        0
    } else {
        count_false(s.drop_last()) + if s.last() {
            0nat
        } else {
            1nat
        }
    }
}

proof fn lemma_count_false_set(s: Seq<bool>, i: int)
    requires
        0 <= i < s.len(),
        !s[i],
    ensures
        count_false(s.update(i, true)) + 1 == count_false(s),
    decreases s.len(),
{
    let t = s.update(i, true);
    if i == s.len() - 1 {
        assert(t.drop_last() =~= s.drop_last());
    } else {
        assert(t.drop_last() =~= s.drop_last().update(i, true));
        lemma_count_false_set(s.drop_last(), i);
    }
}

/// The cell at position `k` of the column-major order, the order of cells.
pub open spec fn column_cell(b: Bounds, k: int) -> Position {
    Position { x: (k / (b.height as int) + 1) as i64, y: (k % (b.height as int) + 1) as i64 }
}

proof fn lemma_column_cell(b: Bounds, k: int)
    requires
        map_fits(b),
        0 <= k < cell_count(b),
    ensures
        spec_contains(b, column_cell(b, k)),
        column_cell(b, k).x - 1 == k / (b.height as int),
        column_cell(b, k).y - 1 == k % (b.height as int),
{
    let w = b.width as int;
    let h = b.height as int;
    assert(w > 0 && h > 0) by (nonlinear_arith)
        requires
            0 <= k < w * h,
            w >= 0,
            h >= 0,
    ;
    assert(0 <= k % h < h && 0 <= k / h < w) by (nonlinear_arith)
        requires
            0 <= k < w * h,
            h > 0,
    ;
}

proof fn lemma_column_order(b: Bounds, k: int, l: int)
    requires
        map_fits(b),
        0 <= k < l < cell_count(b),
    ensures
        position_lt(column_cell(b, k), column_cell(b, l)),
{
    let h = b.height as int;
    lemma_column_cell(b, k);
    lemma_column_cell(b, l);
    assert(k / h < l / h || (k / h == l / h && k % h < l % h)) by (nonlinear_arith)
        requires
            0 <= k < l,
            h > 0,
    ;
}

proof fn lemma_column_index(b: Bounds, p: Position)
    requires
        map_fits(b),
        spec_contains(b, p),
    ensures
        0 <= (p.x - 1) * (b.height as int) + (p.y - 1) < cell_count(b),
        column_cell(b, (p.x - 1) * (b.height as int) + (p.y - 1)) == p,
{
    let w = b.width as int;
    let h = b.height as int;
    let x = p.x - 1;
    let y = p.y - 1;
    assert(0 <= x * h + y < w * h) by (nonlinear_arith)
        requires
            0 <= x < w,
            0 <= y < h,
    ;
    assert((x * h + y) / h == x && (x * h + y) % h == y) by (nonlinear_arith)
        requires
            0 <= y < h,
            0 <= x,
    ;
}

/// The cost after entering a cell of cost `step` with `spent` already spent,
/// capped at `budget`.
fn advance_exec(spent: i64, step: i64, budget: i64) -> (c: i64)
    requires
        0 <= spent <= budget,
        step >= 0,
    ensures
        c == if spent + step < budget {
            spent + step
        } else {
            budget as int
        },
{
    if step >= budget - spent {
        budget
    } else {
        spent + step
    }
}

/// The error for a cell that is neither blocked nor has a cost of at least
/// zero.
pub open spec fn missing_cost_text(p: Position) -> Seq<char> {
    "missing or negative cost at ("@ + format_int(p.x as int) + ", "@ + format_int(p.y as int) + ")"@
}

fn missing_cost_message(p: Position) -> (r: String)
    ensures
        r@ == missing_cost_text(p),
{
    let mut m: Vec<char> = Vec::new();
    push_str(&mut m, "missing or negative cost at (");
    let x = format_i64(p.x);
    push_all(&mut m, &x);
    push_str(&mut m, ", ");
    let y = format_i64(p.y);
    push_all(&mut m, &y);
    m.push(')');
    proof {
        reveal_strlit(")");
    }
    assert(m@ =~= missing_cost_text(p));
    string_of(&m)
}

/// The per-cell tables built from a valid request.
pub open spec fn tables_ok(
    r: SearchRequest,
    blocked: Seq<bool>,
    stop: Seq<bool>,
    has_cost: Seq<bool>,
    steps: Seq<i64>,
) -> bool {
    let b = r.bounds;
    let n = cell_count(b);
    &&& blocked.len() == n && stop.len() == n && has_cost.len() == n && steps.len() == n
    &&& forall|i: int|
        0 <= i < n ==> (#[trigger] blocked[i] <==> r.blocked@.contains(cell_at(b, i)))
    &&& forall|i: int|
        0 <= i < n ==> (#[trigger] stop[i] <==> r.stop_cells@.contains(cell_at(b, i)))
    &&& forall|i: int|
        0 <= i < n && has_cost[i] ==> lookup_cost(r.costs@, cell_at(b, i)) == Some(
            #[trigger] steps[i],
        )
    &&& forall|i: int| 0 <= i < n && !blocked[i] ==> #[trigger] has_cost[i] && steps[i] >= 0
}

/// Every reached cell but the origin records a settled predecessor from
/// which its cost follows.
#[verifier::opaque]
pub open spec fn preds_ok(
    r: SearchRequest,
    origin_i: int,
    best: Seq<i64>,
    reached: Seq<bool>,
    settled: Seq<bool>,
    pred: Seq<usize>,
) -> bool {
    let b = r.bounds;
    let n = cell_count(b);
    &&& pred.len() == n
    &&& forall|i: int| 0 <= i < n && #[trigger] reached[i] ==> 0 <= best[i] <= r.budget
    &&& forall|i: int|
        0 <= i < n && #[trigger] reached[i] && i != origin_i ==> pred[i] < n && settled[pred[i] as int]
            && is_neighbor(cell_at(b, pred[i] as int), cell_at(b, i)) && expandable(
            r,
            cell_at(b, pred[i] as int),
            best[pred[i] as int] as int,
        ) && best[i] == advance(r, best[pred[i] as int] as int, cell_at(b, i))
}

/// The reported cells are the settled cells in the order they were settled,
/// with nondecreasing costs no higher than `level`.
#[verifier::opaque]
pub open spec fn output_ok(
    r: SearchRequest,
    origin_i: int,
    best: Seq<i64>,
    reached: Seq<bool>,
    settled: Seq<bool>,
    order: Seq<int>,
    slot: Seq<int>,
    out: Seq<(Position, i64)>,
    level: int,
) -> bool {
    let b = r.bounds;
    let n = cell_count(b);
    &&& out.len() == order.len()
    &&& slot.len() == n
    &&& forall|k: int|
        0 <= k < order.len() ==> 0 <= #[trigger] order[k] < n && settled[order[k]] && slot[order[k]]
            == k && out[k] == (cell_at(b, order[k]), best[order[k]])
    &&& forall|i: int|
        0 <= i < n && #[trigger] settled[i] ==> 0 <= slot[i] < order.len() && order[slot[i]] == i
    &&& forall|k: int, l: int| 0 <= k < l < out.len() ==> out[k].1 <= out[l].1
    &&& forall|k: int| 0 <= k < out.len() ==> out[k].1 <= level
    &&& order.len() == 0 ==> forall|i: int| 0 <= i < n && #[trigger] reached[i] ==> i == origin_i
    &&& order.len() > 0 ==> order[0] == origin_i
}

/// The whole invariant of the settling loop.
pub open spec fn loop_state(
    r: SearchRequest,
    origin_i: int,
    best: Seq<i64>,
    reached: Seq<bool>,
    settled: Seq<bool>,
    pred: Seq<usize>,
    routes: Seq<Seq<Position>>,
    order: Seq<int>,
    slot: Seq<int>,
    out: Seq<(Position, i64)>,
    level: int,
) -> bool {
    &&& search_state(r, origin_i, best, reached, settled, routes, level)
    &&& relaxed_except(r, best, reached, settled, -1)
    &&& preds_ok(r, origin_i, best, reached, settled, pred)
    &&& output_ok(r, origin_i, best, reached, settled, order, slot, out, level)
}

/// Every settled cell but the origin was settled after its predecessor.
pub open spec fn pred_order(n: int, origin_i: int, settled: Seq<bool>, pred: Seq<usize>, slot: Seq<int>) -> bool {
    forall|i: int|
        0 <= i < n && #[trigger] settled[i] && i != origin_i ==> slot[pred[i] as int] < slot[i]
}

/// Settling a cell keeps every predecessor settled before its cell.
proof fn lemma_pred_order_settle(
    r: SearchRequest,
    origin_i: int,
    best: Seq<i64>,
    reached: Seq<bool>,
    settled: Seq<bool>,
    pred: Seq<usize>,
    order: Seq<int>,
    slot: Seq<int>,
    out: Seq<(Position, i64)>,
    level: int,
    cand: int,
)
    requires
        settled.len() == cell_count(r.bounds),
        0 <= cand < cell_count(r.bounds),
        reached[cand],
        !settled[cand],
        reached.len() == cell_count(r.bounds),
        forall|i: int| 0 <= i < cell_count(r.bounds) && #[trigger] settled[i] ==> reached[i],
        preds_ok(r, origin_i, best, reached, settled, pred),
        output_ok(r, origin_i, best, reached, settled, order, slot, out, level),
        pred_order(cell_count(r.bounds), origin_i, settled, pred, slot),
    ensures
        pred_order(
            cell_count(r.bounds),
            origin_i,
            settled.update(cand, true),
            pred,
            slot.update(cand, order.len() as int),
        ),
{
    reveal(preds_ok);
    reveal(output_ok);
    let n = cell_count(r.bounds);
    let s2 = settled.update(cand, true);
    let t2 = slot.update(cand, order.len() as int);
    assert forall|i: int| 0 <= i < n && #[trigger] s2[i] && i != origin_i implies t2[pred[i] as int] < t2[i] by {
        if i == cand {
            assert(settled[pred[i] as int]);
            assert(pred[i] as int != cand);
        } else {
            assert(settled[i]);
            assert(reached[i]);
            assert(settled[pred[i] as int]);
            assert(pred[i] as int != cand);
        }
    }
}

/// The cheapest unsettled reached cell (the earliest reached among equals),
/// or `n` when there is none.
fn find_candidate(
    n: usize,
    best: &Vec<i64>,
    reached: &Vec<bool>,
    settled: &Vec<bool>,
    serial_of: &Vec<usize>,
) -> (cand: usize)
    requires
        best@.len() == n && reached@.len() == n && settled@.len() == n && serial_of@.len() == n,
    ensures
        cand == n ==> forall|j: int| 0 <= j < n ==> !(#[trigger] reached@[j] && !settled@[j]),
        cand < n ==> reached@[cand as int] && !settled@[cand as int] && forall|j: int|
            0 <= j < n && #[trigger] reached@[j] && !settled@[j] ==> best@[cand as int]
                <= best@[j],
        cand <= n,
{
    let mut cand: usize = n;
    let mut k: usize = 0;
    while k < n
        invariant
            best@.len() == n && reached@.len() == n && settled@.len() == n && serial_of@.len()
                == n,
            k <= n,
            cand == n || (cand < k && reached@[cand as int] && !settled@[cand as int]),
            forall|j: int|
                0 <= j < k && #[trigger] reached@[j] && !settled@[j] ==> cand < n
                    && best@[cand as int] <= best@[j],
        decreases n - k,
    {
        if reached[k] && !settled[k] {
            if cand == n || best[k] < best[cand] || (best[k] == best[cand] && serial_of[k]
                < serial_of[cand]) {
                cand = k;
            }
        }
        k = k + 1;
    }
    cand
}

/// Settling the cheapest unsettled cell keeps the invariant, except that the
/// new cell has not yet relaxed its neighbours.
proof fn lemma_settle(
    r: SearchRequest,
    origin_i: int,
    best: Seq<i64>,
    reached: Seq<bool>,
    settled: Seq<bool>,
    pred: Seq<usize>,
    routes: Seq<Seq<Position>>,
    order: Seq<int>,
    slot: Seq<int>,
    out: Seq<(Position, i64)>,
    level: int,
    cand: int,
)
    requires
        request_valid(r),
        map_fits(r.bounds),
        loop_state(r, origin_i, best, reached, settled, pred, routes, order, slot, out, level),
        0 <= cand < cell_count(r.bounds),
        reached[cand] && !settled[cand],
        forall|j: int|
            0 <= j < cell_count(r.bounds) && #[trigger] reached[j] && !settled[j] ==> best[cand]
                <= best[j],
    ensures
        ({
            let settled2 = settled.update(cand, true);
            let order2 = order.push(cand);
            let slot2 = slot.update(cand, order.len() as int);
            let out2 = out.push((cell_at(r.bounds, cand), best[cand]));
            let level2 = best[cand] as int;
            &&& search_state(r, origin_i, best, reached, settled2, routes, level2)
            &&& relaxed_except(r, best, reached, settled2, cand)
            &&& preds_ok(r, origin_i, best, reached, settled2, pred)
            &&& output_ok(r, origin_i, best, reached, settled2, order2, slot2, out2, level2)
        }),
        count_false(settled.update(cand, true)) + 1 == count_false(settled),
{
    reveal(search_state);
    reveal(relaxed_except);
    reveal(preds_ok);
    reveal(output_ok);
    let b = r.bounds;
    let n = cell_count(b);
    let m = best[cand] as int;
    lemma_cell_at(b, cand);
    assert forall|path: Seq<Position>|
        valid_path(r, path) && path.last() == cell_at(b, cand) implies #[trigger] path_cost(
        r,
        path,
    ) >= m by {
        lemma_index_of(b, path.last());
        lemma_unsettled_cost_bound(r, origin_i, best, reached, settled, routes, level, m, path);
    }
    lemma_count_false_set(settled, cand);
    let settled2 = settled.update(cand, true);
    let order2 = order.push(cand);
    let slot2 = slot.update(cand, order.len() as int);
    let out2 = out.push((cell_at(b, cand), best[cand]));
    assert forall|i: int, path: Seq<Position>|
        0 <= i < n && #[trigger] settled2[i] && valid_path(r, path) && path.last() == cell_at(b, i)
            implies #[trigger] path_cost(r, path) >= best[i] by {
        if i != cand {
            assert(settled[i]);
        }
    }
    assert forall|k: int|
        0 <= k < order2.len() implies 0 <= #[trigger] order2[k] < n && settled2[order2[k]]
            && slot2[order2[k]] == k && out2[k] == (cell_at(b, order2[k]), best[order2[k]]) by {
        if k < order.len() {
            assert(order2[k] == order[k]);
            assert(order[k] != cand);
        }
    }
    if order.len() == 0 {
        assert(cand == origin_i);
    }
}


/// Every unsettled enterable cell among `done` has been reached at no more
/// than the cost of entering it from `cand`.
pub open spec fn handled(
    r: SearchRequest,
    best: Seq<i64>,
    reached: Seq<bool>,
    settled: Seq<bool>,
    cand: int,
    done: Seq<Position>,
) -> bool {
    forall|i: int|
        0 <= i < cell_count(r.bounds) && !settled[i] && enterable(r, cell_at(r.bounds, i))
            && done.contains(cell_at(r.bounds, i)) ==> #[trigger] reached[i] && best[i] <= advance(
            r,
            best[cand] as int,
            cell_at(r.bounds, i),
        )
}

/// A neighbour that needs no relaxation joins the handled neighbours.
proof fn lemma_done_extend(
    r: SearchRequest,
    best: Seq<i64>,
    reached: Seq<bool>,
    settled: Seq<bool>,
    cand: int,
    ni: int,
    done: Seq<Position>,
)
    requires
        map_fits(r.bounds),
        0 <= ni < cell_count(r.bounds),
        !settled[ni] && enterable(r, cell_at(r.bounds, ni)) ==> reached[ni] && best[ni]
            <= advance(r, best[cand] as int, cell_at(r.bounds, ni)),
        handled(r, best, reached, settled, cand, done),
    ensures
        handled(r, best, reached, settled, cand, done.push(cell_at(r.bounds, ni))),
{
    let longer = done.push(cell_at(r.bounds, ni));
    assert forall|i: int|
        0 <= i < cell_count(r.bounds) && !settled[i] && enterable(r, cell_at(r.bounds, i))
            && longer.contains(cell_at(r.bounds, i)) implies #[trigger] reached[i] && best[i]
        <= advance(r, best[cand] as int, cell_at(r.bounds, i)) by {
        if i != ni {
            lemma_cell_at(r.bounds, i);
            lemma_cell_at(r.bounds, ni);
            assert(cell_at(r.bounds, i) != cell_at(r.bounds, ni));
            let e = choose|e: int| 0 <= e < longer.len() && longer[e] == cell_at(r.bounds, i);
            assert(e < done.len());
            assert(done[e] == cell_at(r.bounds, i));
            assert(done.contains(cell_at(r.bounds, i)));
        }
    }
}

/// The facts that a relaxation of `ni` from `cand` rests on.
pub open spec fn relax_pre(
    r: SearchRequest,
    origin_i: int,
    best: Seq<i64>,
    reached: Seq<bool>,
    settled: Seq<bool>,
    cand: int,
    ni: int,
    next_cost: i64,
) -> bool {
    &&& request_valid(r)
    &&& map_fits(r.bounds)
    &&& 0 <= origin_i < cell_count(r.bounds)
    &&& 0 <= cand < cell_count(r.bounds)
    &&& 0 <= ni < cell_count(r.bounds)
    &&& settled.len() == cell_count(r.bounds)
    &&& settled[cand]
    &&& !settled[ni]
    &&& enterable(r, cell_at(r.bounds, ni))
    &&& is_neighbor(cell_at(r.bounds, cand), cell_at(r.bounds, ni))
    &&& expandable(r, cell_at(r.bounds, cand), best[cand] as int)
    &&& next_cost == advance(r, best[cand] as int, cell_at(r.bounds, ni))
    &&& (!reached[ni] || next_cost < best[ni])
}

/// Relaxing `ni` keeps the search state: its new route extends the route of
/// `cand`.
proof fn lemma_relax_state(
    r: SearchRequest,
    origin_i: int,
    best: Seq<i64>,
    reached: Seq<bool>,
    settled: Seq<bool>,
    routes: Seq<Seq<Position>>,
    level: int,
    cand: int,
    ni: int,
    next_cost: i64,
)
    requires
        relax_pre(r, origin_i, best, reached, settled, cand, ni, next_cost),
        search_state(r, origin_i, best, reached, settled, routes, level),
        level == best[cand],
    ensures
        search_state(
            r,
            origin_i,
            best.update(ni, next_cost),
            reached.update(ni, true),
            settled,
            routes.update(ni, routes[cand].push(cell_at(r.bounds, ni))),
            level,
        ),
        ni != origin_i,
        0 <= best[cand] <= r.budget,
{
    reveal(search_state);
    let b = r.bounds;
    let n = cell_count(b);
    let nb = cell_at(b, ni);
    let best2 = best.update(ni, next_cost);
    let reached2 = reached.update(ni, true);
    let routes2 = routes.update(ni, routes[cand].push(nb));
    lemma_path_extend(r, routes[cand], nb);
    lemma_cost_in_budget(r, routes[cand]);
    lemma_step_nonnegative(r, nb);
    assert forall|i: int, path: Seq<Position>|
        0 <= i < n && #[trigger] settled[i] && valid_path(r, path) && path.last() == cell_at(b, i)
            implies #[trigger] path_cost(r, path) >= best2[i] by {
        assert(best[i] == best2[i]);
    }
    assert forall|i: int|
        0 <= i < n && #[trigger] reached2[i] implies valid_path(r, routes2[i]) && routes2[i].last()
            == cell_at(b, i) && path_cost(r, routes2[i]) == best2[i] by {
        if i != ni {
            assert(reached[i]);
        }
    }
}

/// Relaxing `ni` keeps every other settled cell relaxed, and adds `ni` to
/// the neighbours of `cand` already handled.
#[verifier::rlimit(60)]
#[verifier::spinoff_prover]
proof fn lemma_relax_done(
    r: SearchRequest,
    origin_i: int,
    best: Seq<i64>,
    reached: Seq<bool>,
    settled: Seq<bool>,
    cand: int,
    ni: int,
    next_cost: i64,
    done: Seq<Position>,
)
    requires
        relax_pre(r, origin_i, best, reached, settled, cand, ni, next_cost),
        best.len() == cell_count(r.bounds),
        reached.len() == cell_count(r.bounds),
        relaxed_except(r, best, reached, settled, cand),
        handled(r, best, reached, settled, cand, done),
    ensures
        relaxed_except(r, best.update(ni, next_cost), reached.update(ni, true), settled, cand),
        handled(
            r,
            best.update(ni, next_cost),
            reached.update(ni, true),
            settled,
            cand,
            done.push(cell_at(r.bounds, ni)),
        ),
{
    let n = cell_count(r.bounds);
    let best2 = best.update(ni, next_cost);
    let reached2 = reached.update(ni, true);
    assert(best2[cand] == best[cand]);
    assert forall|i: int|
        0 <= i < n && !settled[i] && enterable(r, cell_at(r.bounds, i)) && done.contains(
            cell_at(r.bounds, i),
        ) implies #[trigger] reached2[i] && best2[i] <= advance(
        r,
        best2[cand] as int,
        cell_at(r.bounds, i),
    ) by {
        if i != ni {
            assert(reached[i]);
            assert(best[i] <= advance(r, best[cand] as int, cell_at(r.bounds, i)));
            assert(reached2[i] == reached[i] && best2[i] == best[i]);
        }
    }
    assert(handled(r, best2, reached2, settled, cand, done));
    lemma_done_extend(r, best2, reached2, settled, cand, ni, done);
    lemma_relax_others(r, origin_i, best, reached, settled, cand, ni, next_cost);
}

/// Relaxing `ni` keeps every settled cell other than `cand` relaxed.
#[verifier::rlimit(60)]
proof fn lemma_relax_others(
    r: SearchRequest,
    origin_i: int,
    best: Seq<i64>,
    reached: Seq<bool>,
    settled: Seq<bool>,
    cand: int,
    ni: int,
    next_cost: i64,
)
    requires
        relax_pre(r, origin_i, best, reached, settled, cand, ni, next_cost),
        best.len() == cell_count(r.bounds),
        reached.len() == cell_count(r.bounds),
        relaxed_except(r, best, reached, settled, cand),
    ensures
        relaxed_except(r, best.update(ni, next_cost), reached.update(ni, true), settled, cand),
{
    reveal(relaxed_except);
    assert forall|i: int, j: int|
        0 <= i < cell_count(r.bounds) && 0 <= j < cell_count(r.bounds) && j != cand
            && #[trigger] settled[j] && !settled[i] && enterable(r, cell_at(r.bounds, i))
            && is_neighbor(cell_at(r.bounds, j), cell_at(r.bounds, i)) && expandable(
            r,
            cell_at(r.bounds, j),
            best.update(ni, next_cost)[j] as int,
        ) implies #[trigger] reached.update(ni, true)[i] && best.update(ni, next_cost)[i]
        <= advance(r, best.update(ni, next_cost)[j] as int, cell_at(r.bounds, i)) by {
        assert(best.update(ni, next_cost)[j] == best[j]);
        assert(reached[i]);
        assert(best[i] <= advance(r, best[j] as int, cell_at(r.bounds, i)));
        if i == ni {
            assert(next_cost < best[ni]);
            assert(best.update(ni, next_cost)[i] == next_cost);
        } else {
            assert(best.update(ni, next_cost)[i] == best[i]);
            assert(reached.update(ni, true)[i] == reached[i]);
        }
        assert(reached.update(ni, true)[i]);
        assert(best.update(ni, next_cost)[i] <= advance(
            r,
            best.update(ni, next_cost)[j] as int,
            cell_at(r.bounds, i),
        ));
    }
}

/// Relaxing `ni` records `cand` as its predecessor.
proof fn lemma_relax_preds(
    r: SearchRequest,
    origin_i: int,
    best: Seq<i64>,
    reached: Seq<bool>,
    settled: Seq<bool>,
    pred: Seq<usize>,
    cand: int,
    ni: int,
    next_cost: i64,
)
    requires
        relax_pre(r, origin_i, best, reached, settled, cand, ni, next_cost),
        ni != origin_i,
        best.len() == cell_count(r.bounds),
        reached.len() == cell_count(r.bounds),
        preds_ok(r, origin_i, best, reached, settled, pred),
        0 <= best[cand] <= r.budget,
    ensures
        preds_ok(
            r,
            origin_i,
            best.update(ni, next_cost),
            reached.update(ni, true),
            settled,
            pred.update(ni, cand as usize),
        ),
{
    reveal(preds_ok);
    let b = r.bounds;
    let n = cell_count(b);
    let best2 = best.update(ni, next_cost);
    let reached2 = reached.update(ni, true);
    let pred2 = pred.update(ni, cand as usize);
    lemma_step_nonnegative(r, cell_at(b, ni));
    assert forall|i: int| 0 <= i < n && #[trigger] reached2[i] implies 0 <= best2[i] <= r.budget by {
        if i != ni {
            assert(reached[i]);
        }
    }
    assert forall|i: int|
        0 <= i < n && #[trigger] reached2[i] && i != origin_i implies pred2[i] < n
            && settled[pred2[i] as int] && is_neighbor(cell_at(b, pred2[i] as int), cell_at(b, i))
            && expandable(r, cell_at(b, pred2[i] as int), best2[pred2[i] as int] as int)
            && best2[i] == advance(r, best2[pred2[i] as int] as int, cell_at(b, i)) by {
        if i != ni {
            assert(reached[i]);
            assert(settled[pred[i] as int]);
            assert(pred[i] as int != ni);
        }
    }
}

/// Relaxes the neighbours of the just-settled cell `cand`.
#[verifier::rlimit(40)]
fn relax_neighbors(
    request: &SearchRequest,
    origin_i: usize,
    blocked: &Vec<bool>,
    has_cost: &Vec<bool>,
    steps: &Vec<i64>,
    stop: &Vec<bool>,
    best: &mut Vec<i64>,
    reached: &mut Vec<bool>,
    settled: &Vec<bool>,
    pred: &mut Vec<usize>,
    serial_of: &mut Vec<usize>,
    serial: &mut usize,
    cand: usize,
    Ghost(routes): Ghost<Seq<Seq<Position>>>,
    Ghost(level): Ghost<int>,
) -> (routes_after: Ghost<Seq<Seq<Position>>>)
    requires
        request_valid(*request),
        map_fits(request.bounds),
        0 <= origin_i < cell_count(request.bounds),
        tables_ok(*request, blocked@, stop@, has_cost@, steps@),
        cand < cell_count(request.bounds),
        settled@[cand as int],
        level == old(best)@[cand as int],
        search_state(*request, origin_i as int, old(best)@, old(reached)@, settled@, routes, level),
        relaxed_except(*request, old(best)@, old(reached)@, settled@, cand as int),
        preds_ok(*request, origin_i as int, old(best)@, old(reached)@, settled@, old(pred)@),
        old(serial_of)@.len() == cell_count(request.bounds),
        old(best)@.len() == cell_count(request.bounds),
        old(reached)@.len() == cell_count(request.bounds),
        old(pred)@.len() == cell_count(request.bounds),
        settled@.len() == cell_count(request.bounds),
    ensures
        search_state(
            *request,
            origin_i as int,
            final(best)@,
            final(reached)@,
            settled@,
            routes_after@,
            level,
        ),
        relaxed_except(*request, final(best)@, final(reached)@, settled@, -1),
        preds_ok(*request, origin_i as int, final(best)@, final(reached)@, settled@, final(pred)@),
        final(serial_of)@.len() == cell_count(request.bounds),
        final(best)@.len() == cell_count(request.bounds),
        final(reached)@.len() == cell_count(request.bounds),
        final(pred)@.len() == cell_count(request.bounds),
        forall|i: int|
            0 <= i < cell_count(request.bounds) && #[trigger] settled@[i] ==> final(best)@[i]
                == old(best)@[i],
        forall|i: int|
            0 <= i < cell_count(request.bounds) && #[trigger] settled@[i] ==> final(pred)@[i]
                == old(pred)@[i],
{
    let ghost r = *request;
    let b = request.bounds;
    let n = b.width * b.height;
    let ghost mut routes = routes;
    let p = cell_exec(b, cand);
    if stop[cand] || best[cand] >= request.budget {
        proof {
            reveal(relaxed_except);
            assert(!expandable(r, p, best@[cand as int] as int));
        }
        return Ghost(routes);
    }
    let neighbors = match b.neighbors(p) {
        Ok(list) => list,
        Err(_) => Vec::new(),
    };
    let ghost nbs = spec_neighbors(p).filter(|c: Position| spec_contains(b, c));
    assert(neighbors@ == nbs);
    let ghost best0 = best@;
    let ghost pred0 = pred@;
    proof {
        reveal(search_state);
        reveal(preds_ok);
        assert(reached@[cand as int]);
    }
    let mut t: usize = 0;
    while t < neighbors.len()
        invariant
            request_valid(r),
            r == *request,
            map_fits(b),
            b == r.bounds,
            n == cell_count(b),
            0 <= origin_i < n,
            cand < n,
            p == cell_at(b, cand as int),
            neighbors@ == nbs,
            nbs == spec_neighbors(p).filter(|c: Position| spec_contains(b, c)),
            t <= neighbors.len(),
            settled@.len() == n,
            best@.len() == n,
            reached@.len() == n,
            pred@.len() == n,
            settled@[cand as int],
            !r.stop_cells@.contains(p) && best@[cand as int] < r.budget,
            0 <= best0[cand as int] <= r.budget,
            tables_ok(r, blocked@, stop@, has_cost@, steps@),
            serial_of@.len() == n,
            search_state(r, origin_i as int, best@, reached@, settled@, routes, level),
            level == best@[cand as int],
            relaxed_except(r, best@, reached@, settled@, cand as int),
            preds_ok(r, origin_i as int, best@, reached@, settled@, pred@),
            handled(r, best@, reached@, settled@, cand as int, neighbors@.take(t as int)),
            forall|i: int| 0 <= i < n && #[trigger] settled@[i] ==> best@[i] == best0[i],
            forall|i: int| 0 <= i < n && #[trigger] settled@[i] ==> pred@[i] == pred0[i],
        decreases neighbors.len() - t,
    {
        let nb = neighbors[t];
        proof {
            assert(nbs.contains(nb));
            assert(spec_contains(b, nb) && spec_neighbors(p).contains(nb)) by {
                spec_neighbors(p).lemma_filter_pred(|c: Position| spec_contains(b, c), t as int);
                spec_neighbors(p).lemma_filter_contains_rev(|c: Position| spec_contains(b, c), nb);
            }
            lemma_index_of(b, nb);
            assert(neighbors@.take(t as int + 1) =~= neighbors@.take(t as int).push(nb));
        }
        let ni = index_exec(b, nb);
        proof {
            lemma_index_of(b, nb);
        }
        if blocked[ni] || settled[ni] {
            proof {
                lemma_done_extend(
                    r,
                    best@,
                    reached@,
                    settled@,
                    cand as int,
                    ni as int,
                    neighbors@.take(t as int),
                );
            }
            t = t + 1;
            continue;
        }
        let next_cost = advance_exec(best[cand], steps[ni], request.budget);
        proof {
            assert(best@[cand as int] == best0[cand as int]);
            assert(next_cost == advance(r, best@[cand as int] as int, nb));
        }
        if reached[ni] && next_cost >= best[ni] {
            proof {
                lemma_done_extend(
                    r,
                    best@,
                    reached@,
                    settled@,
                    cand as int,
                    ni as int,
                    neighbors@.take(t as int),
                );
            }
            t = t + 1;
            continue;
        }
        let ghost old_best = best@;
        let ghost old_reached = reached@;
        let ghost old_pred = pred@;
        let ghost done = neighbors@.take(t as int);
        proof {
            assert(relax_pre(
                r,
                origin_i as int,
                old_best,
                old_reached,
                settled@,
                cand as int,
                ni as int,
                next_cost,
            ));
            lemma_relax_state(
                r,
                origin_i as int,
                old_best,
                old_reached,
                settled@,
                routes,
                level,
                cand as int,
                ni as int,
                next_cost,
            );
            lemma_relax_done(
                r,
                origin_i as int,
                old_best,
                old_reached,
                settled@,
                cand as int,
                ni as int,
                next_cost,
                done,
            );
            lemma_relax_preds(
                r,
                origin_i as int,
                old_best,
                old_reached,
                settled@,
                old_pred,
                cand as int,
                ni as int,
                next_cost,
            );
            routes = routes.update(ni as int, routes[cand as int].push(nb));
        }
        best.set(ni, next_cost);
        reached.set(ni, true);
        pred.set(ni, cand);
        *serial = if *serial < usize::MAX {
            *serial + 1
        } else {
            *serial
        };
        serial_of.set(ni, *serial);
        proof {
            assert(neighbors@.take(t as int + 1) == done.push(nb));
            assert forall|i: int| 0 <= i < n && #[trigger] settled@[i] implies best@[i] == best0[i] by {
                assert(i != ni);
            }
            assert forall|i: int| 0 <= i < n && #[trigger] settled@[i] implies pred@[i] == pred0[i] by {
                assert(i != ni);
            }
        }
        t = t + 1;
    }
    proof {
        reveal(relaxed_except);
        assert(neighbors@.take(neighbors.len() as int) =~= neighbors@);
        assert forall|i: int, j: int|
            0 <= i < n && 0 <= j < n && j != -1 && #[trigger] settled@[j] && !settled@[i]
                && enterable(r, cell_at(b, i)) && is_neighbor(cell_at(b, j), cell_at(b, i))
                && expandable(r, cell_at(b, j), best@[j] as int) implies #[trigger] reached@[i]
            && best@[i] <= advance(r, best@[j] as int, cell_at(b, i)) by {
            if j == cand {
                assert(nbs.contains(cell_at(b, i))) by {
                    let e = choose|e: int|
                        0 <= e < spec_neighbors(p).len() && #[trigger] spec_neighbors(p)[e]
                            == cell_at(b, i);
                    spec_neighbors(p).lemma_filter_contains(|c: Position| spec_contains(b, c), e);
                }
                assert(reached@[i]);
                assert(best@[i] <= advance(r, best@[j] as int, cell_at(b, i)));
            } else {
                assert(reached@[i]);
                assert(best@[i] <= advance(r, best@[j] as int, cell_at(b, i)));
            }
        }
    }
    Ghost(routes)
}

/// Checks a request and builds its per-cell tables.
/// A cell of the map that is neither blocked nor has a cost of at least
/// zero.
pub open spec fn bad_cell(r: SearchRequest, i: int) -> bool {
    let p = cell_at(r.bounds, i);
    !r.blocked@.contains(p) && !(lookup_cost(r.costs@, p) matches Some(c) && c >= 0)
}

/// The first bad cell at or after index `i`, row by row.
pub open spec fn first_bad(r: SearchRequest, i: int) -> Option<int>
    decreases cell_count(r.bounds) - i,
{
    if i < 0 || i >= cell_count(r.bounds) {
        None
    } else if bad_cell(r, i) {
        Some(i)
    } else {
        first_bad(r, i + 1)
    }
}

/// Why a request cannot be searched, checked in this order: the origin and
/// budget, then the first cell without a usable cost, then the blocked and
/// stop cells off the map.
pub open spec fn search_error(r: SearchRequest) -> Option<Seq<char>> {
    if r.budget < 0 || !spec_contains(r.bounds, r.origin) {
        Some("search origin and budget are invalid"@)
    } else if first_bad(r, 0) is Some {
        Some(missing_cost_text(cell_at(r.bounds, first_bad(r, 0).unwrap())))
    } else if !(forall|p: Position| r.blocked@.contains(p) ==> spec_contains(r.bounds, p)) || !(forall|
        p: Position,
    | r.stop_cells@.contains(p) ==> spec_contains(r.bounds, p)) {
        Some("search constraint is outside bounds"@)
    } else {
        None
    }
}

fn build_tables(request: &SearchRequest) -> (result: Result<
    (Vec<bool>, Vec<bool>, Vec<bool>, Vec<i64>),
    String,
>)
    requires
        map_fits(request.bounds),
    ensures
        match result {
            Ok((blocked, stop, has_cost, steps)) => request_valid(*request) && tables_ok(
                *request,
                blocked@,
                stop@,
                has_cost@,
                steps@,
            ),
            Err(m) => !request_valid(*request) && search_error(*request) == Some(m@),
        },
{
    let ghost r = *request;
    let b = request.bounds;
    if request.budget < 0 || !b.contains(request.origin) {
        return Err(owned("search origin and budget are invalid"));
    }
    let n = b.width * b.height;
    let blocked = mark_cells(b, &request.blocked);
    let stop = mark_cells(b, &request.stop_cells);
    let (has_cost, steps) = cost_table(b, &request.costs);
    let mut v: usize = 0;
    while v < n
        invariant
            map_fits(b),
            b == r.bounds,
            n == cell_count(b),
            v <= n,
            r == *request,
            r.budget >= 0,
            spec_contains(b, r.origin),
            first_bad(r, 0) == first_bad(r, v as int),
            blocked@.len() == n && stop@.len() == n && has_cost@.len() == n && steps@.len() == n,
            forall|i: int|
                0 <= i < n ==> (#[trigger] blocked@[i] <==> r.blocked@.contains(cell_at(b, i))),
            forall|i: int|
                0 <= i < n ==> (#[trigger] stop@[i] <==> r.stop_cells@.contains(cell_at(b, i))),
            forall|i: int|
                0 <= i < n ==> (#[trigger] has_cost@[i] <==> lookup_cost(r.costs@, cell_at(b, i))
                    is Some),
            forall|i: int|
                0 <= i < n && has_cost@[i] ==> lookup_cost(r.costs@, cell_at(b, i)) == Some(
                    #[trigger] steps@[i],
                ),
            forall|j: int|
                0 <= j < v ==> #[trigger] blocked@[j] || (has_cost@[j] && steps@[j] >= 0),
        decreases n - v,
    {
        if !blocked[v] && (!has_cost[v] || steps[v] < 0) {
            let p = cell_exec(b, v);
            proof {
                lemma_cell_at(b, v as int);
                assert(!r.blocked@.contains(p));
                assert(!(lookup_cost(r.costs@, p) matches Some(c) && c >= 0));
                assert(!request_valid(r)) by {
                    if request_valid(r) {
                        assert(spec_contains(b, p));
                        assert(r.blocked@.contains(p) || (lookup_cost(r.costs@, p) matches Some(c)
                            && c >= 0));
                    }
                }
                assert(bad_cell(r, v as int));
                assert(first_bad(r, 0) == Some(v as int));
            }
            return Err(missing_cost_message(p));
        }
        proof {
            lemma_cell_at(b, v as int);
            assert(!bad_cell(r, v as int));
        }
        v = v + 1;
    }
    proof {
        assert(first_bad(r, v as int) is None);
    }
    let blocked_on_map = all_on_map(b, &request.blocked);
    let stop_on_map = all_on_map(b, &request.stop_cells);
    if !blocked_on_map || !stop_on_map {
        proof {
            assert(!request_valid(r));
        }
        return Err(owned("search constraint is outside bounds"));
    }
    proof {
        assert forall|p: Position|
            #![trigger lookup_cost(r.costs@, p)]
            spec_contains(b, p) implies r.blocked@.contains(p) || (lookup_cost(
                r.costs@,
                p,
            ) matches Some(c) && c >= 0) by {
            lemma_index_of(b, p);
            let i = index_of(b, p);
            assert(blocked@[i] || (has_cost@[i] && steps@[i] >= 0));
        }
    }
    Ok((blocked, stop, has_cost, steps))
}

/// Settles cells cheapest first from the origin, as a uniform-cost search.
/// Each settled cell is reported with its least cost; movement continues
/// from a cell only if it is not a stop cell and the budget is not spent.
pub fn search(request: &SearchRequest) -> (result: Result<SearchResult, String>)
    requires
        map_fits(request.bounds),
    ensures
        match result {
            Ok(res) => request_valid(*request) && search_result_ok(*request, res),
            Err(m) => !request_valid(*request) && search_error(*request) == Some(m@),
        },
{
    let ghost r = *request;
    let b = request.bounds;
    let (blocked, stop, has_cost, steps) = build_tables(request)?;
    let n = b.width * b.height;
    let origin_i = index_exec(b, request.origin);
    proof {
        lemma_index_of(b, request.origin);
    }
    let mut best = new_numbers(n);
    let mut reached = new_flags(n);
    let mut settled = new_flags(n);
    let mut pred = new_indices(n);
    let mut serial_of = new_indices(n);
    reached.set(origin_i, true);
    let ghost mut routes: Seq<Seq<Position>> = Seq::new(n as nat, |i: int| seq![r.origin]);
    let ghost mut order: Seq<int> = seq![];
    let ghost mut slot: Seq<int> = Seq::new(n as nat, |i: int| 0int);
    let ghost mut level: int = 0;
    let mut out: Vec<(Position, i64)> = Vec::new();
    let mut serial: usize = 0;
    proof {
        assert(valid_path(r, seq![r.origin]));
        reveal(search_state);
        reveal(relaxed_except);
        reveal(preds_ok);
        reveal(output_ok);
        assert(loop_state(
            r,
            origin_i as int,
            best@,
            reached@,
            settled@,
            pred@,
            routes,
            order,
            slot,
            out@,
            level,
        ));
    }
    proof {
        assert(pred_order(n as int, origin_i as int, settled@, pred@, slot));
    }
    loop
        invariant
            request_valid(r),
            r == *request,
            map_fits(b),
            b == r.bounds,
            n == cell_count(b),
            0 <= origin_i < n,
            tables_ok(r, blocked@, stop@, has_cost@, steps@),
            serial_of@.len() == n,
            best@.len() == n && reached@.len() == n && settled@.len() == n && pred@.len() == n,
            loop_state(
                r,
                origin_i as int,
                best@,
                reached@,
                settled@,
                pred@,
                routes,
                order,
                slot,
                out@,
                level,
            ),
            pred_order(n as int, origin_i as int, settled@, pred@, slot),
        ensures
            loop_state(
                r,
                origin_i as int,
                best@,
                reached@,
                settled@,
                pred@,
                routes,
                order,
                slot,
                out@,
                level,
            ),
            forall|i: int| 0 <= i < n && #[trigger] reached@[i] ==> settled@[i],
            pred_order(n as int, origin_i as int, settled@, pred@, slot),
        decreases count_false(settled@),
    {
        let cand = find_candidate(n, &best, &reached, &settled, &serial_of);
        if cand == n {
            break;
        }
        let p = cell_exec(b, cand);
        proof {
            lemma_settle(
                r,
                origin_i as int,
                best@,
                reached@,
                settled@,
                pred@,
                routes,
                order,
                slot,
                out@,
                level,
                cand as int,
            );
        }
        proof {
            assert(forall|i: int| 0 <= i < n && #[trigger] settled@[i] ==> reached@[i]) by {
                reveal(search_state);
            }
            lemma_pred_order_settle(
                r,
                origin_i as int,
                best@,
                reached@,
                settled@,
                pred@,
                order,
                slot,
                out@,
                level,
                cand as int,
            );
        }
        settled.set(cand, true);
        proof {
            slot = slot.update(cand as int, order.len() as int);
            order = order.push(cand as int);
            level = best@[cand as int] as int;
        }
        out.push((p, best[cand]));
        let ghost best_before = best@;
        let ghost reached_before = reached@;
        let Ghost(routes2) = relax_neighbors(
            request,
            origin_i,
            &blocked,
            &has_cost,
            &steps,
            &stop,
            &mut best,
            &mut reached,
            &settled,
            &mut pred,
            &mut serial_of,
            &mut serial,
            cand,
            Ghost(routes),
            Ghost(level),
        );
        proof {
            routes = routes2;
            assert(pred_order(n as int, origin_i as int, settled@, pred@, slot));
            lemma_output_stable(
                r,
                origin_i as int,
                best_before,
                reached_before,
                best@,
                reached@,
                settled@,
                order,
                slot,
                out@,
                level,
            );
        }
    }
    proof {
        reveal(preds_ok);
        assert(forall|i: int|
            0 <= i < n && #[trigger] reached@[i] && i != origin_i ==> pred@[i] < n);
    }
    let predecessors = list_predecessors(b, origin_i, &reached, &pred);
    let result = SearchResult { costs: out, predecessors: predecessors.0 };
    proof {
        lemma_search_result(
            r,
            origin_i as int,
            best@,
            reached@,
            settled@,
            pred@,
            routes,
            order,
            slot,
            level,
            result,
            predecessors.1@,
        );
    }
    Ok(result)
}

/// The output bookkeeping survives relaxation, which changes only unsettled
/// cells.
proof fn lemma_output_stable(
    r: SearchRequest,
    origin_i: int,
    best0: Seq<i64>,
    reached0: Seq<bool>,
    best: Seq<i64>,
    reached: Seq<bool>,
    settled: Seq<bool>,
    order: Seq<int>,
    slot: Seq<int>,
    out: Seq<(Position, i64)>,
    level: int,
)
    requires
        output_ok(r, origin_i, best0, reached0, settled, order, slot, out, level),
        order.len() > 0,
        best.len() == best0.len(),
        best0.len() == cell_count(r.bounds),
        forall|i: int| 0 <= i < cell_count(r.bounds) && #[trigger] settled[i] ==> best[i] == best0[i],
    ensures
        output_ok(r, origin_i, best, reached, settled, order, slot, out, level),
{
    reveal(output_ok);
    let b = r.bounds;
    let n = cell_count(b);
    assert forall|k: int| 0 <= k < order.len() implies 0 <= #[trigger] order[k] < n
        && settled[order[k]] && slot[order[k]] == k && out[k] == (
        cell_at(b, order[k]),
        best[order[k]],
    ) by {
        assert(best[order[k]] == best0[order[k]]);
    }
}

/// The predecessor of every reached cell but the origin, in cell order.
fn list_predecessors(b: Bounds, origin_i: usize, reached: &Vec<bool>, pred: &Vec<usize>) -> (result: (
    Vec<(Position, Position)>,
    Ghost<Seq<int>>,
))
    requires
        map_fits(b),
        0 <= origin_i < cell_count(b),
        reached@.len() == cell_count(b),
        pred@.len() == cell_count(b),
        forall|i: int|
            0 <= i < cell_count(b) && #[trigger] reached@[i] && i != origin_i ==> pred@[i]
                < cell_count(b),
    ensures
        listing_ok(b, origin_i as int, reached@, pred@, result.0@, result.1@),
{
    let n = b.width * b.height;
    let h = b.height;
    let mut predecessors: Vec<(Position, Position)> = Vec::new();
    let ghost mut listed: Seq<int> = seq![];
    let mut k: usize = 0;
    while k < n
        invariant
            map_fits(b),
            n == cell_count(b),
            h == b.height,
            k <= n,
            0 <= origin_i < n,
            pred@.len() == n && reached@.len() == n,
            forall|i: int|
                0 <= i < n && #[trigger] reached@[i] && i != origin_i ==> pred@[i] < n,
            listed.len() == predecessors@.len(),
            forall|l: int|
                0 <= l < listed.len() ==> 0 <= #[trigger] listed[l] < k && reached@[index_of(
                    b,
                    column_cell(b, listed[l]),
                )] && index_of(b, column_cell(b, listed[l])) != origin_i && predecessors@[l] == (
                    column_cell(b, listed[l]),
                    cell_at(b, pred@[index_of(b, column_cell(b, listed[l]))] as int),
                ),
            forall|l1: int, l2: int| 0 <= l1 < l2 < listed.len() ==> listed[l1] < listed[l2],
            forall|q: int|
                0 <= q < k && #[trigger] reached@[index_of(b, column_cell(b, q))] && index_of(
                    b,
                    column_cell(b, q),
                ) != origin_i ==> exists|l: int| 0 <= l < listed.len() && #[trigger] listed[l] == q,
        decreases n - k,
    {
        proof {
            lemma_column_cell(b, k as int);
        }
        let ghost listed0 = listed;
        let x = (k / h) as i64 + 1;
        let y = (k % h) as i64 + 1;
        let cellp = Position { x, y };
        assert(cellp == column_cell(b, k as int));
        let i = index_exec(b, cellp);
        if reached[i] && i != origin_i {
            let q = cell_exec(b, pred[i]);
            predecessors.push((cellp, q));
            proof {
                listed = listed.push(k as int);
                assert(listed[listed.len() - 1] == k);
            }
        }
        proof {
            assert forall|l: int| 0 <= l < listed0.len() implies listed[l] == listed0[l] by {}
            assert forall|q: int|
                0 <= q < k + 1 && #[trigger] reached@[index_of(b, column_cell(b, q))] && index_of(
                    b,
                    column_cell(b, q),
                ) != origin_i implies exists|l: int| 0 <= l < listed.len() && #[trigger] listed[l]
                == q by {
                if q == k {
                    assert(listed[listed.len() - 1] == q);
                } else {
                    let l0 = choose|l: int| 0 <= l < listed0.len() && #[trigger] listed0[l] == q;
                    assert(listed[l0] == q);
                }
            }
        }
        k = k + 1;
    }
    (predecessors, Ghost(listed))
}

} // verus!

verus! {

/// The facts that `list_predecessors` establishes of its output.
pub open spec fn listing_ok(
    b: Bounds,
    origin_i: int,
    reached: Seq<bool>,
    pred: Seq<usize>,
    preds: Seq<(Position, Position)>,
    listed: Seq<int>,
) -> bool {
    &&& listed.len() == preds.len()
    &&& forall|l: int|
        0 <= l < listed.len() ==> 0 <= #[trigger] listed[l] < cell_count(b) && reached[index_of(
            b,
            column_cell(b, listed[l]),
        )] && index_of(b, column_cell(b, listed[l])) != origin_i && preds[l] == (
            column_cell(b, listed[l]),
            cell_at(b, pred[index_of(b, column_cell(b, listed[l]))] as int),
        )
    &&& forall|l1: int, l2: int| 0 <= l1 < l2 < listed.len() ==> listed[l1] < listed[l2]
    &&& forall|q: int|
        0 <= q < cell_count(b) && #[trigger] reached[index_of(b, column_cell(b, q))] && index_of(
            b,
            column_cell(b, q),
        ) != origin_i ==> exists|l: int| 0 <= l < listed.len() && #[trigger] listed[l] == q
}

/// The settled cells come out first the origin, each once, cheapest first.
proof fn lemma_result_order(
    r: SearchRequest,
    origin_i: int,
    best: Seq<i64>,
    reached: Seq<bool>,
    settled: Seq<bool>,
    routes: Seq<Seq<Position>>,
    level: int,
    order: Seq<int>,
    slot: Seq<int>,
    costs: Seq<(Position, i64)>,
)
    requires
        map_fits(r.bounds),
        search_state(r, origin_i, best, reached, settled, routes, level),
        forall|i: int| 0 <= i < cell_count(r.bounds) && #[trigger] reached[i] ==> settled[i],
        output_ok(r, origin_i, best, reached, settled, order, slot, costs, level),
    ensures
        costs.len() >= 1,
        order.len() >= 1,
        costs[0] == (r.origin, 0i64),
        forall|k: int, l: int| 0 <= k < l < costs.len() ==> costs[k].0 != costs[l].0,
        forall|k: int, l: int| 0 <= k < l < costs.len() ==> costs[k].1 <= costs[l].1,
{
    reveal(search_state);
    reveal(output_ok);
    let b = r.bounds;
    assert(settled[origin_i]);
    assert(order.len() > 0);
    assert forall|k: int, l: int| 0 <= k < l < costs.len() implies costs[k].0 != costs[l].0 by {
        lemma_cell_at(b, order[k]);
        lemma_cell_at(b, order[l]);
    }
}

/// Each reported cost is the least cost of its cell, and every reachable
/// cell is reported.
proof fn lemma_result_costs(
    r: SearchRequest,
    origin_i: int,
    best: Seq<i64>,
    reached: Seq<bool>,
    settled: Seq<bool>,
    routes: Seq<Seq<Position>>,
    level: int,
    order: Seq<int>,
    slot: Seq<int>,
    costs: Seq<(Position, i64)>,
)
    requires
        request_valid(r),
        map_fits(r.bounds),
        search_state(r, origin_i, best, reached, settled, routes, level),
        relaxed_except(r, best, reached, settled, -1),
        forall|i: int| 0 <= i < cell_count(r.bounds) && #[trigger] reached[i] ==> settled[i],
        output_ok(r, origin_i, best, reached, settled, order, slot, costs, level),
    ensures
        forall|k: int|
            0 <= k < costs.len() ==> least_cost(r, (#[trigger] costs[k]).0, costs[k].1 as int),
        forall|p: Position, c: int|
            reaches(r, p, c) ==> exists|k: int| 0 <= k < costs.len() && (#[trigger] costs[k]).0 == p,
{
    let b = r.bounds;
    assert forall|p: Position, c: int| reaches(r, p, c) implies exists|k: int|
        0 <= k < costs.len() && (#[trigger] costs[k]).0 == p by {
        let path = choose|path: Seq<Position>|
            valid_path(r, path) && path.last() == p && #[trigger] path_cost(r, path) == c;
        lemma_routes_end_settled(r, origin_i, best, reached, settled, routes, level, path);
        assert(spec_contains(b, p)) by {
            if path.len() > 1 {
                assert(enterable(r, path[path.len() - 1]));
            }
        }
        lemma_index_of(b, p);
        let i = index_of(b, p);
        reveal(output_ok);
        let k = slot[i];
        assert(costs[k].0 == p);
    }
    reveal(search_state);
    reveal(output_ok);
    assert forall|k: int| 0 <= k < costs.len() implies least_cost(
        r,
        (#[trigger] costs[k]).0,
        costs[k].1 as int,
    ) by {
        let i = order[k];
        assert(reached[i]);
        let w = routes[i];
        assert(valid_path(r, w) && w.last() == cell_at(b, i) && path_cost(r, w) == best[i]);
    }
}

/// The predecessors come out in cell order, one for every reported cell but
/// the origin.
proof fn lemma_result_pred_cover(
    r: SearchRequest,
    origin_i: int,
    best: Seq<i64>,
    reached: Seq<bool>,
    settled: Seq<bool>,
    pred: Seq<usize>,
    order: Seq<int>,
    slot: Seq<int>,
    costs: Seq<(Position, i64)>,
    level: int,
    preds: Seq<(Position, Position)>,
    listed: Seq<int>,
)
    requires
        map_fits(r.bounds),
        best.len() == cell_count(r.bounds),
        reached.len() == cell_count(r.bounds),
        settled.len() == cell_count(r.bounds),
        pred.len() == cell_count(r.bounds),
        output_ok(r, origin_i, best, reached, settled, order, slot, costs, level),
        forall|i: int| 0 <= i < cell_count(r.bounds) && #[trigger] settled[i] ==> reached[i],
        order.len() >= 1,
        listing_ok(r.bounds, origin_i, reached, pred, preds, listed),
    ensures
        forall|k: int, l: int| 0 <= k < l < preds.len() ==> position_lt(preds[k].0, preds[l].0),
        forall|k: int| 1 <= k < costs.len() ==> has_predecessor(preds, (#[trigger] costs[k]).0),
{
    reveal(output_ok);
    let b = r.bounds;
    assert forall|k: int, l: int| 0 <= k < l < preds.len() implies position_lt(
        preds[k].0,
        preds[l].0,
    ) by {
        lemma_column_order(b, listed[k], listed[l]);
    }
    assert forall|k: int| 1 <= k < costs.len() implies has_predecessor(
        preds,
        (#[trigger] costs[k]).0,
    ) by {
        let i = order[k];
        assert(0 <= i < cell_count(b) && settled[i] && slot[i] == k);
        assert(order[0] == origin_i && slot[order[0]] == 0);
        assert(i != origin_i);
        assert(reached[i]);
        assert(costs[k] == (cell_at(b, i), best[i]));
        lemma_cell_at(b, i);
        let p = cell_at(b, i);
        lemma_column_index(b, p);
        let q = (p.x - 1) * (b.height as int) + (p.y - 1);
        assert(column_cell(b, q) == p);
        assert(index_of(b, column_cell(b, q)) == i);
        assert(reached[index_of(b, column_cell(b, q))]);
        assert(exists|l: int| 0 <= l < listed.len() && #[trigger] listed[l] == q);
        let l = choose|l: int| 0 <= l < listed.len() && #[trigger] listed[l] == q;
        assert(0 <= l < preds.len());
        assert(preds[l].0 == column_cell(b, listed[l]));
        assert(preds[l].0 == costs[k].0);
    }
}

/// Each listed predecessor is a settled neighbour that gives the least cost.
proof fn lemma_result_pred_facts(
    r: SearchRequest,
    origin_i: int,
    best: Seq<i64>,
    reached: Seq<bool>,
    settled: Seq<bool>,
    pred: Seq<usize>,
    order: Seq<int>,
    slot: Seq<int>,
    costs: Seq<(Position, i64)>,
    level: int,
    preds: Seq<(Position, Position)>,
    listed: Seq<int>,
)
    requires
        map_fits(r.bounds),
        best.len() == cell_count(r.bounds),
        reached.len() == cell_count(r.bounds),
        settled.len() == cell_count(r.bounds),
        pred.len() == cell_count(r.bounds),
        output_ok(r, origin_i, best, reached, settled, order, slot, costs, level),
        preds_ok(r, origin_i, best, reached, settled, pred),
        forall|i: int| 0 <= i < cell_count(r.bounds) && #[trigger] reached[i] ==> settled[i],
        order.len() >= 1,
        listing_ok(r.bounds, origin_i, reached, pred, preds, listed),
        pred_order(cell_count(r.bounds), origin_i, settled, pred, slot),
    ensures
        forall|l: int| 0 <= l < preds.len() ==> justified(r, costs, #[trigger] preds[l]),
{
    reveal(output_ok);
    reveal(preds_ok);
    let b = r.bounds;
    assert forall|l: int| 0 <= l < preds.len() implies justified(r, costs, #[trigger] preds[l]) by {
        let q = listed[l];
        assert(0 <= q < cell_count(b));
        lemma_column_cell(b, q);
        let c = column_cell(b, q);
        lemma_index_of(b, c);
        let i = index_of(b, c);
        assert(reached[i] && i != origin_i);
        assert(preds[l] == (c, cell_at(b, pred[i] as int)));
        let j = pred[i] as int;
        assert(0 <= j < cell_count(b) && settled[j]);
        assert(is_neighbor(cell_at(b, j), cell_at(b, i)));
        assert(expandable(r, cell_at(b, j), best[j] as int));
        assert(best[i] == advance(r, best[j] as int, cell_at(b, i)));
        assert(settled[i]);
        let k = slot[i];
        let m = slot[j];
        assert(0 <= k < order.len() && order[k] == i);
        assert(0 <= m < order.len() && order[m] == j);
        assert(costs[k] == (cell_at(b, i), best[i]));
        assert(costs[m] == (cell_at(b, j), best[j]));
        assert(order[0] == origin_i && slot[order[0]] == 0);
        assert(k != 0);
        assert(m < k);
        assert(costs[k].0 == preds[l].0);
        assert(costs[m].0 == preds[l].1);
        assert(is_neighbor(preds[l].1, preds[l].0));
        assert(expandable(r, preds[l].1, costs[m].1 as int));
        assert(costs[k].1 == advance(r, costs[m].1 as int, preds[l].0));
    }
}

/// The state after the last settlement gives exactly the promised result.
proof fn lemma_search_result(
    r: SearchRequest,
    origin_i: int,
    best: Seq<i64>,
    reached: Seq<bool>,
    settled: Seq<bool>,
    pred: Seq<usize>,
    routes: Seq<Seq<Position>>,
    order: Seq<int>,
    slot: Seq<int>,
    level: int,
    result: SearchResult,
    listed: Seq<int>,
)
    requires
        request_valid(r),
        map_fits(r.bounds),
        best.len() == cell_count(r.bounds),
        reached.len() == cell_count(r.bounds),
        settled.len() == cell_count(r.bounds),
        pred.len() == cell_count(r.bounds),
        loop_state(r, origin_i, best, reached, settled, pred, routes, order, slot, result.costs@, level),
        forall|i: int| 0 <= i < cell_count(r.bounds) && #[trigger] reached[i] ==> settled[i],
        listing_ok(r.bounds, origin_i, reached, pred, result.predecessors@, listed),
        pred_order(cell_count(r.bounds), origin_i, settled, pred, slot),
    ensures
        search_result_ok(r, result),
{
    let costs = result.costs@;
    let preds = result.predecessors@;
    lemma_result_order(r, origin_i, best, reached, settled, routes, level, order, slot, costs);
    lemma_result_costs(r, origin_i, best, reached, settled, routes, level, order, slot, costs);
    assert(forall|i: int| 0 <= i < cell_count(r.bounds) && #[trigger] settled[i] ==> reached[i])
        by {
        reveal(search_state);
    }
    lemma_result_pred_cover(
        r,
        origin_i,
        best,
        reached,
        settled,
        pred,
        order,
        slot,
        costs,
        level,
        preds,
        listed,
    );
    lemma_result_pred_facts(
        r,
        origin_i,
        best,
        reached,
        settled,
        pred,
        order,
        slot,
        costs,
        level,
        preds,
        listed,
    );
}

} // verus!
