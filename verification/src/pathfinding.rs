//! Shortest routes on the tile grid, moving one cell at a time in the four
//! cardinal directions.

use vstd::prelude::*;

use crate::mask::{count_true, lemma_count_set_true, lemma_count_le_len, lemma_count_all_false};
use crate::world::{Grid, World, lemma_grid_size, lemma_index_in_range, lemma_index_injective};

verus! {

/// Two cells are neighbours when they differ by one step along one axis.
pub open spec fn adjacent(a: (int, int), b: (int, int)) -> bool {
    ||| (a.0 - b.0 == 1 || b.0 - a.0 == 1) && a.1 == b.1
    ||| (a.1 - b.1 == 1 || b.1 - a.1 == 1) && a.0 == b.0
}

/// The integer cell of an `(x, y)` pair.
pub open spec fn cell(p: (i32, i32)) -> (int, int) {
    (p.0 as int, p.1 as int)
}

/// `c` is one of the listed occupied cells (walls).
pub open spec fn is_occupied(occupied: Seq<(i32, i32)>, c: (int, int)) -> bool {
    exists|i: int| 0 <= i < occupied.len() && cell(#[trigger] occupied[i]) == c
}

/// A route may enter `c` when it is walkable and, unless `c` is the target,
/// not occupied.
pub open spec fn passable(g: Grid, occupied: Seq<(i32, i32)>, target: (int, int), c: (int, int)) -> bool {
    g.walkable(c.0, c.1) && (c == target || !is_occupied(occupied, c))
}

/// The cell a route is at before its step `i`.
pub open spec fn route_before(start: (int, int), route: Seq<(i32, i32)>, i: int) -> (int, int) {
    if i == 0 {
        start
    } else {
        cell(route[i - 1])
    }
}

/// `route` lists the cells entered when walking from `start` to `target`
/// (the start itself is not listed): every step goes to a neighbour, every
/// entered cell is passable, and the last one is the target.
pub open spec fn is_route(
    g: Grid,
    occupied: Seq<(i32, i32)>,
    start: (int, int),
    target: (int, int),
    route: Seq<(i32, i32)>,
) -> bool {
    &&& (route.len() == 0 ==> start == target)
    &&& (route.len() > 0 ==> cell(route.last()) == target)
    &&& forall|i: int|
        0 <= i < route.len() ==> passable(g, occupied, target, cell(#[trigger] route[i]))
    &&& forall|i: int|
        0 <= i < route.len() ==> adjacent(route_before(start, route, i), cell(#[trigger] route[i]))
}

/// Some route leads from `start` to `target`.
pub open spec fn reachable(g: Grid, occupied: Seq<(i32, i32)>, start: (int, int), target: (int, int)) -> bool {
    exists|route: Seq<(i32, i32)>| is_route(g, occupied, start, target, route)
}

/// `route` is a route from `start` to `target` and no route is shorter.
pub open spec fn is_shortest_route(
    g: Grid,
    occupied: Seq<(i32, i32)>,
    start: (int, int),
    target: (int, int),
    route: Seq<(i32, i32)>,
) -> bool {
    &&& is_route(g, occupied, start, target, route)
    &&& forall|other: Seq<(i32, i32)>|
        is_route(g, occupied, start, target, other) ==> route.len() <= other.len()
}


/// The four search directions, in the order they are tried: up, down, left, right.
pub open spec fn step_dir(d: int) -> (int, int) {
    if d == 0 {
        (0, -1)
    } else if d == 1 {
        (0, 1)
    } else if d == 2 {
        (-1, 0)
    } else {
        (1, 0)
    }
}

pub open spec fn nb(c: (int, int), d: int) -> (int, int) {
    (c.0 + step_dir(d).0, c.1 + step_dir(d).1)
}

pub proof fn lemma_adjacent_is_nb(m: (int, int), c: (int, int))
    requires
        adjacent(m, c),
    ensures
        c == nb(m, 0) || c == nb(m, 1) || c == nb(m, 2) || c == nb(m, 3),
{
}


/// Whether `(x, y)` is one of the occupied cells.
fn is_occupied_cell(occupied: &[(i32, i32)], x: i32, y: i32) -> (b: bool)
    ensures
        b == is_occupied(occupied@, (x as int, y as int)),
{
    let mut i: usize = 0;
    while i < occupied.len()
        invariant
            0 <= i <= occupied@.len(),
            forall|j: int| 0 <= j < i ==> cell(#[trigger] occupied@[j]) != (x as int, y as int),
        decreases occupied@.len() - i,
    {
        let c = occupied[i];
        if c.0 == x && c.1 == y {
            assert(cell(occupied@[i as int]) == (x as int, y as int));
            return true;
        }
        i += 1;
    }
    false
}

/// Offset of search direction `d`.
pub(crate) fn direction(d: usize) -> (r: (i64, i64))
    requires
        d < 4,
    ensures
        (r.0 as int, r.1 as int) == step_dir(d as int),
{
    if d == 0 {
        (0, -1)
    } else if d == 1 {
        (0, 1)
    } else if d == 2 {
        (-1, 0)
    } else {
        (1, 0)
    }
}


/// Indices of in-bounds cells that equal a given cell's index name that cell.
proof fn lemma_same_index(g: Grid, n: (int, int))
    requires
        g.in_bounds(n.0, n.1),
    ensures
        forall|x: int, y: int|
            #![trigger g.index_of(x, y)]
            g.in_bounds(x, y) && g.index_of(x, y) == g.index_of(n.0, n.1) ==> x == n.0 && y == n.1,
{
    assert forall|x: int, y: int|
        #![trigger g.index_of(x, y)]
        g.in_bounds(x, y) && g.index_of(x, y) == g.index_of(n.0, n.1) implies x == n.0 && y == n.1 by {
        lemma_index_injective(g, x, y, n.0, n.1);
    }
}



/// Manhattan distance from `c` to the target `t`: the search heuristic.
pub open spec fn heuristic_spec(c: (int, int), t: (int, int)) -> int {
    abs(c.0 - t.0) + abs(c.1 - t.1)
}

/// Sentinel for "no route known yet".
pub open spec fn unknown() -> int {
    i64::MAX as int
}

/// Best known route length to `c`: zero at the start, the recorded score
/// for a grid cell, unknown elsewhere.
spec fn gs(g: Grid, s: (int, int), gscore: Seq<i64>, c: (int, int)) -> int {
    if c == s {
        0
    } else if g.in_bounds(c.0, c.1) {
        gscore[g.index_of(c.0, c.1)] as int
    } else {
        unknown()
    }
}

/// Cells that take part in the search: the start and the grid cells.
spec fn in_domain(g: Grid, s: (int, int), c: (int, int)) -> bool {
    c == s || g.in_bounds(c.0, c.1)
}

/// Neighbours of a closed cell in the first `d` directions are scored no
/// worse than through it.
spec fn relaxed(g: Grid, occ: Seq<(i32, i32)>, s: (int, int), t: (int, int), gscore: Seq<i64>, c: (int, int), d: int) -> bool {
    forall|e: int|
        #![trigger nb(c, e)]
        0 <= e < d && passable(g, occ, t, nb(c, e)) ==> gs(g, s, gscore, nb(c, e)) <= gs(g, s, gscore, c) + 1
}

/// State of the search. `closed` (bookkeeping only) holds the expanded cells
/// whose score has not improved since; `u` is the cell being expanded, whose
/// first `d` directions are done.
spec fn search_inv(
    g: Grid,
    occ: Seq<(i32, i32)>,
    s: (int, int),
    t: (int, int),
    gscore: Seq<i64>,
    parent: Seq<(i32, i32)>,
    open: Seq<(i32, i32, i64, i64)>,
    closed: Set<(int, int)>,
    nfin: int,
    u: (int, int),
    d: int,
) -> bool {
    let total = g.tiles.len() as int;
    &&& gscore.len() == total
    &&& parent.len() == total
    &&& s != t
    &&& 0 <= nfin <= total
    &&& nfin == count_true(Seq::new(total as nat, |i: int| gscore[i] != i64::MAX))
    &&& (g.in_bounds(s.0, s.1) ==> gscore[g.index_of(s.0, s.1)] == 0)
    &&& forall|i: int| 0 <= i < total ==> (#[trigger] gscore[i] == i64::MAX || 0 <= gscore[i] <= nfin)
    &&& forall|k: int| 0 <= k < open.len() ==> {
        let e = #[trigger] open[k];
        let c = (e.0 as int, e.1 as int);
        &&& (c == s || (g.in_bounds(c.0, c.1) && passable(g, occ, t, c)))
        &&& gs(g, s, gscore, c) <= e.2
        &&& 0 <= e.2 <= nfin
        &&& e.3 == e.2 + heuristic_spec(c, t)
    }
    &&& forall|x: int, y: int|
        #![trigger gs(g, s, gscore, (x, y))]
        in_domain(g, s, (x, y)) && gs(g, s, gscore, (x, y)) < unknown() && !closed.contains((x, y))
        ==> exists|k: int| 0 <= k < open.len() && (#[trigger] open[k]).0 == x && open[k].1 == y
            && open[k].2 == gs(g, s, gscore, (x, y))
    &&& forall|c: (int, int)|
        #[trigger] closed.contains(c) ==> in_domain(g, s, c) && gs(g, s, gscore, c) < unknown()
            && relaxed(g, occ, s, t, gscore, c, if c == u { d } else { 4 })
    &&& !closed.contains(t)
    &&& parents_scored(g, occ, s, t, gscore, parent)
}

/// Back pointers of scored cells lead to a neighbour with a smaller score,
/// through passable cells.
spec fn parents_scored(g: Grid, occ: Seq<(i32, i32)>, s: (int, int), t: (int, int), gscore: Seq<i64>, parent: Seq<(i32, i32)>) -> bool {
    forall|x: int, y: int| #[trigger] parent_ok(g, occ, s, t, gscore, parent, x, y)
}

/// The back pointer of cell `(x, y)`, if it is scored, leads to a passable
/// step from a neighbour with a smaller score.
spec fn parent_ok(g: Grid, occ: Seq<(i32, i32)>, s: (int, int), t: (int, int), gscore: Seq<i64>, parent: Seq<(i32, i32)>, x: int, y: int) -> bool {
    g.in_bounds(x, y) && (x, y) != s && gs(g, s, gscore, (x, y)) < unknown() ==> {
        let p = cell(parent[g.index_of(x, y)]);
        &&& passable(g, occ, t, (x, y))
        &&& adjacent(p, (x, y))
        &&& in_domain(g, s, p)
        &&& gs(g, s, gscore, p) <= gs(g, s, gscore, (x, y)) - 1
    }
}

/// Along a route the heuristic drops by at most one per step.
proof fn lemma_heuristic_route(s: (int, int), t: (int, int), q: Seq<(i32, i32)>, u: (int, int), j: int)
    requires
        forall|i: int| 0 <= i < q.len() ==> adjacent(route_before(s, q, i), cell(#[trigger] q[i])),
        q.len() == 0 ==> s == u,
        q.len() > 0 ==> cell(q.last()) == u,
        0 <= j <= q.len(),
    ensures
        heuristic_spec(route_before(s, q, j), t) <= (q.len() - j) + heuristic_spec(u, t),
    decreases q.len() - j,
{
    if j < q.len() {
        lemma_heuristic_route(s, t, q, u, j + 1);
        assert(adjacent(route_before(s, q, j), cell(q[j])));
        assert(route_before(s, q, j + 1) == cell(q[j]));
    }
}


/// Walking a route shorter than the target's score: the cells stay closed and
/// scored within their position until an open one is met, whose queue entry
/// would have come out before the target's.
proof fn lemma_pop_chain(
    g: Grid,
    occ: Seq<(i32, i32)>,
    s: (int, int),
    t: (int, int),
    gscore: Seq<i64>,
    parent: Seq<(i32, i32)>,
    open: Seq<(i32, i32, i64, i64)>,
    closed: Set<(int, int)>,
    nfin: int,
    kmin: int,
    q: Seq<(i32, i32)>,
    j: int,
)
    requires
        g.wf(),
        search_inv(g, occ, s, t, gscore, parent, open, closed, nfin, s, 4),
        0 <= kmin < open.len(),
        forall|k: int| 0 <= k < open.len() ==> open[kmin].3 <= (#[trigger] open[k]).3,
        (open[kmin].0 as int, open[kmin].1 as int) == t,
        is_route(g, occ, s, t, q),
        0 <= j <= q.len(),
        gs(g, s, gscore, route_before(s, q, j)) <= j,
    ensures
        gs(g, s, gscore, t) <= q.len(),
    decreases q.len() - j,
{
    if q.len() >= gs(g, s, gscore, t) {
        return;
    }
    let p = route_before(s, q, j);
    let e = open[kmin];
    assert(gs(g, s, gscore, t) <= e.2);
    if j > 0 {
        assert(passable(g, occ, t, cell(q[j - 1])));
    }
    assert(in_domain(g, s, p));
    if closed.contains(p) {
        if j == q.len() {
            assert(p == t);
        } else {
            let n = cell(q[j]);
            assert(adjacent(p, n));
            assert(passable(g, occ, t, n));
            lemma_adjacent_is_nb(p, n);
            assert(relaxed(g, occ, s, t, gscore, p, 4));
            assert(passable(g, occ, t, nb(p, 0)) ==> gs(g, s, gscore, nb(p, 0)) <= gs(g, s, gscore, p) + 1);
            assert(passable(g, occ, t, nb(p, 1)) ==> gs(g, s, gscore, nb(p, 1)) <= gs(g, s, gscore, p) + 1);
            assert(passable(g, occ, t, nb(p, 2)) ==> gs(g, s, gscore, nb(p, 2)) <= gs(g, s, gscore, p) + 1);
            assert(passable(g, occ, t, nb(p, 3)) ==> gs(g, s, gscore, nb(p, 3)) <= gs(g, s, gscore, p) + 1);
            assert(route_before(s, q, j + 1) == n);
            lemma_pop_chain(g, occ, s, t, gscore, parent, open, closed, nfin, kmin, q, j + 1);
        }
    } else {
        assert(gs(g, s, gscore, (p.0, p.1)) < unknown());
        let k = choose|k: int| 0 <= k < open.len() && (#[trigger] open[k]).0 == p.0 && open[k].1 == p.1
            && open[k].2 == gs(g, s, gscore, (p.0, p.1));
        assert(open[kmin].3 <= open[k].3);
        lemma_heuristic_route(s, t, q, t, j);
    }
}

/// When the target comes out of the queue first, no route is shorter than
/// its score.
proof fn lemma_pop_target(
    g: Grid,
    occ: Seq<(i32, i32)>,
    s: (int, int),
    t: (int, int),
    gscore: Seq<i64>,
    parent: Seq<(i32, i32)>,
    open: Seq<(i32, i32, i64, i64)>,
    closed: Set<(int, int)>,
    nfin: int,
    kmin: int,
)
    requires
        g.wf(),
        search_inv(g, occ, s, t, gscore, parent, open, closed, nfin, s, 4),
        0 <= kmin < open.len(),
        forall|k: int| 0 <= k < open.len() ==> open[kmin].3 <= (#[trigger] open[k]).3,
        (open[kmin].0 as int, open[kmin].1 as int) == t,
    ensures
        forall|q: Seq<(i32, i32)>| is_route(g, occ, s, t, q) ==> gs(g, s, gscore, t) <= q.len(),
{
    assert forall|q: Seq<(i32, i32)>| is_route(g, occ, s, t, q) implies gs(g, s, gscore, t) <= q.len() by {
        lemma_pop_chain(g, occ, s, t, gscore, parent, open, closed, nfin, kmin, q, 0);
    }
}

/// With an empty queue every scored cell is closed.
proof fn lemma_empty_queue_closed(
    g: Grid,
    occ: Seq<(i32, i32)>,
    s: (int, int),
    t: (int, int),
    gscore: Seq<i64>,
    parent: Seq<(i32, i32)>,
    open: Seq<(i32, i32, i64, i64)>,
    closed: Set<(int, int)>,
    nfin: int,
    c: (int, int),
)
    requires
        search_inv(g, occ, s, t, gscore, parent, open, closed, nfin, s, 4),
        open.len() == 0,
        in_domain(g, s, c),
        gs(g, s, gscore, c) < unknown(),
    ensures
        closed.contains(c),
{
    if !closed.contains((c.0, c.1)) {
        assert(gs(g, s, gscore, (c.0, c.1)) < unknown());
        assert(exists|k: int| 0 <= k < open.len() && (#[trigger] open[k]).0 == c.0 && open[k].1 == c.1
            && open[k].2 == gs(g, s, gscore, (c.0, c.1)));
    }
}

/// With an empty queue every cell of a route from the start is closed.
proof fn lemma_exhausted_chain(
    g: Grid,
    occ: Seq<(i32, i32)>,
    s: (int, int),
    t: (int, int),
    gscore: Seq<i64>,
    parent: Seq<(i32, i32)>,
    open: Seq<(i32, i32, i64, i64)>,
    closed: Set<(int, int)>,
    nfin: int,
    q: Seq<(i32, i32)>,
    j: int,
)
    requires
        g.wf(),
        search_inv(g, occ, s, t, gscore, parent, open, closed, nfin, s, 4),
        open.len() == 0,
        is_route(g, occ, s, t, q),
        0 <= j <= q.len(),
        closed.contains(route_before(s, q, j)),
    ensures
        closed.contains(t),
    decreases q.len() - j,
{
    let p = route_before(s, q, j);
    if j < q.len() {
        let n = cell(q[j]);
        assert(adjacent(p, n));
        assert(passable(g, occ, t, n));
        lemma_adjacent_is_nb(p, n);
        assert(relaxed(g, occ, s, t, gscore, p, 4));
        assert(passable(g, occ, t, nb(p, 0)) ==> gs(g, s, gscore, nb(p, 0)) <= gs(g, s, gscore, p) + 1);
        assert(passable(g, occ, t, nb(p, 1)) ==> gs(g, s, gscore, nb(p, 1)) <= gs(g, s, gscore, p) + 1);
        assert(passable(g, occ, t, nb(p, 2)) ==> gs(g, s, gscore, nb(p, 2)) <= gs(g, s, gscore, p) + 1);
        assert(passable(g, occ, t, nb(p, 3)) ==> gs(g, s, gscore, nb(p, 3)) <= gs(g, s, gscore, p) + 1);
        assert(route_before(s, q, j + 1) == n);
        if p != s {
            lemma_index_in_range(g, p.0, p.1);
            assert(gscore[g.index_of(p.0, p.1)] <= nfin);
        }
        lemma_grid_size(g);
        assert(gs(g, s, gscore, n) < unknown());
        lemma_empty_queue_closed(g, occ, s, t, gscore, parent, open, closed, nfin, n);
        lemma_exhausted_chain(g, occ, s, t, gscore, parent, open, closed, nfin, q, j + 1);
    } else {
        assert(p == t);
    }
}


/// Follows back pointers from the target to the start and returns the cells
/// entered on the way from the start, in walking order.
fn reconstruct(
    world: &World,
    sx: i32,
    sy: i32,
    tx: i32,
    ty: i32,
    parent: &Vec<(i32, i32)>,
    Ghost(occ): Ghost<Seq<(i32, i32)>>,
    Ghost(gscore): Ghost<Seq<i64>>,
) -> (route: Vec<(i32, i32)>)
    requires
        world@.wf(),
        gscore.len() == world@.tiles.len(),
        parent@.len() == world@.tiles.len(),
        parents_scored(world@, occ, (sx as int, sy as int), (tx as int, ty as int), gscore, parent@),
        world@.in_bounds(tx as int, ty as int),
        (tx, ty) != (sx, sy),
        gs(world@, (sx as int, sy as int), gscore, (tx as int, ty as int)) < unknown(),
        forall|i: int| 0 <= i < gscore.len() ==> 0 <= #[trigger] gscore[i],
    ensures
        is_route(world@, occ, (sx as int, sy as int), (tx as int, ty as int), route@),
        route.len() <= gs(world@, (sx as int, sy as int), gscore, (tx as int, ty as int)),
{
    let ghost g = world@;
    let ghost s = (sx as int, sy as int);
    let ghost t = (tx as int, ty as int);
    let mut route: Vec<(i32, i32)> = Vec::new();
    let mut cur: (i32, i32) = (tx, ty);
    while cur.0 != sx || cur.1 != sy
        invariant
            g == world@,
            g.wf(),
            s == (sx as int, sy as int),
            t == (tx as int, ty as int),
            gscore.len() == g.tiles.len(),
            parent@.len() == g.tiles.len(),
            parents_scored(g, occ, s, t, gscore, parent@),
            forall|i: int| 0 <= i < gscore.len() ==> 0 <= #[trigger] gscore[i],
            is_route(g, occ, cell(cur), t, route@),
            in_domain(g, s, cell(cur)),
            gs(g, s, gscore, cell(cur)) < unknown(),
            route.len() + gs(g, s, gscore, cell(cur)) <= gs(g, s, gscore, t),
        decreases gs(g, s, gscore, cell(cur)),
    {
        let i = world.idx(cur.0, cur.1);
        let prev = parent[i];
        let ghost old_route = route@;
        proof {
            lemma_index_in_range(g, cur.0 as int, cur.1 as int);
            let c = cell(cur);
            assert(c != s);
            assert(parent_ok(g, occ, s, t, gscore, parent@, c.0, c.1));
            assert(parent@[g.index_of(c.0, c.1)] == prev);
            let p = cell(prev);
            if p != s {
                lemma_index_in_range(g, p.0, p.1);
                assert(0 <= gscore[g.index_of(p.0, p.1)]);
            }
        }
        route.insert(0, cur);
        proof {
            let c = cell(cur);
            let p = cell(prev);
            assert(route@ =~= seq![cur] + old_route);
            assert forall|j: int| 0 <= j < route@.len() implies passable(g, occ, t, cell(#[trigger] route@[j])) by {
                if j > 0 {
                    assert(route@[j] == old_route[j - 1]);
                }
            }
            assert forall|j: int| 0 <= j < route@.len() implies adjacent(route_before(p, route@, j), cell(#[trigger] route@[j])) by {
                if j > 0 {
                    assert(route@[j] == old_route[j - 1]);
                    if j > 1 {
                        assert(route@[j - 1] == old_route[j - 2]);
                    }
                }
            }
        }
        cur = prev;
    }
    route
}

/// Manhattan distance between two cells.
fn heuristic(x1: i32, y1: i32, x2: i32, y2: i32) -> (h: i64)
    ensures
        h == heuristic_spec((x1 as int, y1 as int), (x2 as int, y2 as int)),
{
    let dx = x1 as i64 - x2 as i64;
    let dy = y1 as i64 - y2 as i64;
    let ax = if dx < 0 { -dx } else { dx };
    let ay = if dy < 0 { -dy } else { dy };
    ax + ay
}

/// Index of the first queue entry with the smallest priority.
fn select_min(open: &Vec<(i32, i32, i64, i64)>) -> (k: usize)
    requires
        open@.len() > 0,
    ensures
        k < open@.len(),
        forall|j: int| 0 <= j < open@.len() ==> open@[k as int].3 <= (#[trigger] open@[j]).3,
{
    let mut best: usize = 0;
    let mut i: usize = 1;
    while i < open.len()
        invariant
            0 < open@.len(),
            best < open@.len(),
            1 <= i <= open@.len(),
            forall|j: int| 0 <= j < i ==> open@[best as int].3 <= (#[trigger] open@[j]).3,
        decreases open@.len() - i,
    {
        if open[i].3 < open[best].3 {
            best = i;
        }
        i = i + 1;
    }
    best
}


/// Mask of the grid cells with a known score.
spec fn scored_mask(gscore: Seq<i64>) -> Seq<bool> {
    Seq::new(gscore.len(), |i: int| gscore[i] != i64::MAX)
}

/// Potential of one score: the score, or `cap` when unknown.
spec fn pot(v: i64, cap: int) -> int {
    if v == i64::MAX {
        cap
    } else {
        v as int
    }
}

/// Sum of the potentials of all scores; every improvement lowers it.
spec fn pot_sum(gscore: Seq<i64>, cap: int) -> int
    decreases gscore.len(),
{
    if gscore.len() == 0 {
        0
    } else {
        pot_sum(gscore.drop_last(), cap) + pot(gscore.last(), cap)
    }
}

proof fn lemma_pot_update(gscore: Seq<i64>, cap: int, i: int, v: i64)
    requires
        0 <= i < gscore.len(),
    ensures
        pot_sum(gscore.update(i, v), cap) == pot_sum(gscore, cap) - pot(gscore[i], cap) + pot(v, cap),
    decreases gscore.len(),
{
    let u = gscore.update(i, v);
    if i == gscore.len() - 1 {
        assert(u.drop_last() =~= gscore.drop_last());
    } else {
        assert(u.drop_last() =~= gscore.drop_last().update(i, v));
        lemma_pot_update(gscore.drop_last(), cap, i, v);
    }
}

proof fn lemma_pot_nonneg(gscore: Seq<i64>, cap: int)
    requires
        cap >= 0,
        forall|i: int| 0 <= i < gscore.len() ==> 0 <= #[trigger] gscore[i],
    ensures
        pot_sum(gscore, cap) >= 0,
    decreases gscore.len(),
{
    if gscore.len() > 0 {
        lemma_pot_nonneg(gscore.drop_last(), cap);
    }
}

/// Removing a stale queue entry keeps the search state.
proof fn lemma_drop_stale(
    g: Grid,
    occ: Seq<(i32, i32)>,
    s: (int, int),
    t: (int, int),
    gscore: Seq<i64>,
    parent: Seq<(i32, i32)>,
    open: Seq<(i32, i32, i64, i64)>,
    closed: Set<(int, int)>,
    nfin: int,
    k: int,
)
    requires
        search_inv(g, occ, s, t, gscore, parent, open, closed, nfin, s, 4),
        0 <= k < open.len(),
        open[k].2 > gs(g, s, gscore, (open[k].0 as int, open[k].1 as int)),
    ensures
        search_inv(g, occ, s, t, gscore, parent, open.remove(k), closed, nfin, s, 4),
{
    let open2 = open.remove(k);
    assert forall|j: int| 0 <= j < open2.len() implies open2[j] == open[if j < k { j } else { j + 1 }] by {
    }
    assert forall|x: int, y: int|
        #![trigger gs(g, s, gscore, (x, y))]
        in_domain(g, s, (x, y)) && gs(g, s, gscore, (x, y)) < unknown() && !closed.contains((x, y))
        implies exists|j: int| 0 <= j < open2.len() && (#[trigger] open2[j]).0 == x && open2[j].1 == y
            && open2[j].2 == gs(g, s, gscore, (x, y)) by {
        let w = choose|w: int| 0 <= w < open.len() && (#[trigger] open[w]).0 == x && open[w].1 == y
            && open[w].2 == gs(g, s, gscore, (x, y));
        assert(w != k);
        let j = if w < k { w } else { w - 1 };
        assert(open2[j] == open[w]);
    }
}

/// Taking a fresh entry of cell `c` (not the target) out of the queue closes `c`.
proof fn lemma_close(
    g: Grid,
    occ: Seq<(i32, i32)>,
    s: (int, int),
    t: (int, int),
    gscore: Seq<i64>,
    parent: Seq<(i32, i32)>,
    open: Seq<(i32, i32, i64, i64)>,
    closed: Set<(int, int)>,
    nfin: int,
    k: int,
)
    requires
        g.wf(),
        search_inv(g, occ, s, t, gscore, parent, open, closed, nfin, s, 4),
        0 <= k < open.len(),
        open[k].2 == gs(g, s, gscore, (open[k].0 as int, open[k].1 as int)),
        (open[k].0 as int, open[k].1 as int) != t,
    ensures
        ({
            let c = (open[k].0 as int, open[k].1 as int);
            search_inv(g, occ, s, t, gscore, parent, open.remove(k), closed.insert(c), nfin, c, 0)
        }),
{
    let c = (open[k].0 as int, open[k].1 as int);
    let open2 = open.remove(k);
    let closed2 = closed.insert(c);
    assert forall|j: int| 0 <= j < open2.len() implies open2[j] == open[if j < k { j } else { j + 1 }] by {
    }
    assert forall|x: int, y: int|
        #![trigger gs(g, s, gscore, (x, y))]
        in_domain(g, s, (x, y)) && gs(g, s, gscore, (x, y)) < unknown() && !closed2.contains((x, y))
        implies exists|j: int| 0 <= j < open2.len() && (#[trigger] open2[j]).0 == x && open2[j].1 == y
            && open2[j].2 == gs(g, s, gscore, (x, y)) by {
        let w = choose|w: int| 0 <= w < open.len() && (#[trigger] open[w]).0 == x && open[w].1 == y
            && open[w].2 == gs(g, s, gscore, (x, y));
        assert((x, y) != c);
        assert(w != k);
        let j = if w < k { w } else { w - 1 };
        assert(open2[j] == open[w]);
    }
    assert forall|cc: (int, int)| #[trigger] closed2.contains(cc) implies in_domain(g, s, cc)
        && gs(g, s, gscore, cc) < unknown()
        && relaxed(g, occ, s, t, gscore, cc, if cc == c { 0 } else { 4 }) by {
        if cc == c {
            assert(open[k].2 <= nfin);
            lemma_grid_size(g);
        } else {
            assert(closed.contains(cc));
            assert(relaxed(g, occ, s, t, gscore, cc, if cc == s { 4int } else { 4int }));
        }
    }
}

/// Closing the expansion of `u` after its four directions.
proof fn lemma_expanded(
    g: Grid,
    occ: Seq<(i32, i32)>,
    s: (int, int),
    t: (int, int),
    gscore: Seq<i64>,
    parent: Seq<(i32, i32)>,
    open: Seq<(i32, i32, i64, i64)>,
    closed: Set<(int, int)>,
    nfin: int,
    u: (int, int),
)
    requires
        search_inv(g, occ, s, t, gscore, parent, open, closed, nfin, u, 4),
    ensures
        search_inv(g, occ, s, t, gscore, parent, open, closed, nfin, s, 4),
{
    assert forall|cc: (int, int)| #[trigger] closed.contains(cc) implies in_domain(g, s, cc)
        && gs(g, s, gscore, cc) < unknown()
        && relaxed(g, occ, s, t, gscore, cc, if cc == s { 4 } else { 4 }) by {
        assert(relaxed(g, occ, s, t, gscore, cc, if cc == u { 4int } else { 4int }));
    }
}

/// Direction `d` of `u` needs no change: its neighbour is not passable or is
/// already scored no worse than through `u`.
proof fn lemma_relax_skip(
    g: Grid,
    occ: Seq<(i32, i32)>,
    s: (int, int),
    t: (int, int),
    gscore: Seq<i64>,
    parent: Seq<(i32, i32)>,
    open: Seq<(i32, i32, i64, i64)>,
    closed: Set<(int, int)>,
    nfin: int,
    u: (int, int),
    d: int,
)
    requires
        search_inv(g, occ, s, t, gscore, parent, open, closed, nfin, u, d),
        0 <= d < 4,
        passable(g, occ, t, nb(u, d)) ==> gs(g, s, gscore, nb(u, d)) <= gs(g, s, gscore, u) + 1,
    ensures
        search_inv(g, occ, s, t, gscore, parent, open, closed, nfin, u, d + 1),
{
    assert forall|cc: (int, int)| #[trigger] closed.contains(cc) implies in_domain(g, s, cc)
        && gs(g, s, gscore, cc) < unknown()
        && relaxed(g, occ, s, t, gscore, cc, if cc == u { d + 1 } else { 4 }) by {
        assert(relaxed(g, occ, s, t, gscore, cc, if cc == u { d } else { 4 }));
        if cc == u {
            assert forall|e: int|
                #![trigger nb(cc, e)]
                0 <= e < d + 1 && passable(g, occ, t, nb(cc, e))
                implies gs(g, s, gscore, nb(cc, e)) <= gs(g, s, gscore, cc) + 1 by {
            }
        }
    }
}


/// Scores after improving the score of grid cell `n` to `v`.
proof fn lemma_gs_update(g: Grid, s: (int, int), gscore: Seq<i64>, n: (int, int), v: i64)
    requires
        g.wf(),
        gscore.len() == g.tiles.len(),
        g.in_bounds(n.0, n.1),
        n != s,
    ensures
        forall|c: (int, int)|
            #[trigger] gs(g, s, gscore.update(g.index_of(n.0, n.1), v), c)
                == if c == n { v as int } else { gs(g, s, gscore, c) },
{
    lemma_index_in_range(g, n.0, n.1);
    lemma_same_index(g, n);
    assert forall|c: (int, int)|
        #[trigger] gs(g, s, gscore.update(g.index_of(n.0, n.1), v), c)
            == if c == n { v as int } else { gs(g, s, gscore, c) } by {
        if c != s && g.in_bounds(c.0, c.1) {
            lemma_index_in_range(g, c.0, c.1);
        }
    }
}

/// Improving the score of the neighbour `n` of the expanded cell `u` through
/// `u`: record `u` as its parent and queue it again.
#[verifier::rlimit(40)]
proof fn lemma_relax_update(
    g: Grid,
    occ: Seq<(i32, i32)>,
    s: (int, int),
    t: (int, int),
    gscore: Seq<i64>,
    parent: Seq<(i32, i32)>,
    open: Seq<(i32, i32, i64, i64)>,
    closed: Set<(int, int)>,
    nfin: int,
    u: (int, int),
    d: int,
    u32: (i32, i32),
    n32: (i32, i32),
    v: i64,
)
    requires
        g.wf(),
        search_inv(g, occ, s, t, gscore, parent, open, closed, nfin, u, d),
        closed.contains(u),
        cell(u32) == u,
        0 <= d < 4,
        cell(n32) == nb(u, d),
        passable(g, occ, t, cell(n32)),
        v == gs(g, s, gscore, u) + 1,
        (v as int) < gs(g, s, gscore, cell(n32)),
        i32::MIN <= t.0 <= i32::MAX,
        i32::MIN <= t.1 <= i32::MAX,
    ensures
        ({
            let n = cell(n32);
            let ni = g.index_of(n.0, n.1);
            let gscore2 = gscore.update(ni, v);
            let nfin2 = if gscore[ni] == i64::MAX { nfin + 1 } else { nfin };
            &&& 0 <= ni < g.tiles.len()
            &&& n != s
            &&& v <= nfin2
            &&& search_inv(g, occ, s, t, gscore2, parent.update(ni, u32),
                open.push((n32.0, n32.1, v, (v + heuristic_spec(n, t)) as i64)), closed.remove(n), nfin2, u, d + 1)
            &&& pot_sum(gscore2, g.tiles.len() + 1int) < pot_sum(gscore, g.tiles.len() + 1int)
            &&& gs(g, s, gscore2, u) == gs(g, s, gscore, u)
        }),
{
    let total = g.tiles.len() as int;
    let n = cell(n32);
    let ni = g.index_of(n.0, n.1);
    lemma_index_in_range(g, n.0, n.1);
    lemma_grid_size(g);
    let gscore2 = gscore.update(ni, v);
    let parent2 = parent.update(ni, u32);
    let entry: (i32, i32, i64, i64) = (n32.0, n32.1, v, (v + heuristic_spec(n, t)) as i64);
    let open2 = open.push(entry);
    let closed2 = closed.remove(n);
    let was_unknown = gscore[ni] == i64::MAX;
    let nfin2 = if was_unknown { nfin + 1 } else { nfin };
    if u != s {
        lemma_index_in_range(g, u.0, u.1);
    }
    assert(0 <= gs(g, s, gscore, u) <= nfin);
    // The start keeps score zero, so it is not improved.
    if n == s {
        assert(gs(g, s, gscore, n) == 0);
        assert(false);
    }
    assert(gs(g, s, gscore, n) == gscore[ni] as int);
    // Scores before the update.
    if u != s {
        lemma_index_in_range(g, u.0, u.1);
    }
    assert(0 <= gs(g, s, gscore, u) <= nfin);
    // Count of scored cells.
    let m = scored_mask(gscore);
    assert(Seq::new(total as nat, |i: int| gscore[i] != i64::MAX) =~= m);
    if was_unknown {
        lemma_count_set_true(m, ni);
        assert(Seq::new(total as nat, |i: int| gscore2[i] != i64::MAX) =~= m.update(ni, true));
        lemma_count_le_len(m.update(ni, true));
    } else {
        assert(Seq::new(total as nat, |i: int| gscore2[i] != i64::MAX) =~= m);
    }
    assert(v <= nfin2);
    lemma_gs_update(g, s, gscore, n, v);
    // Potential drops.
    lemma_pot_update(gscore, total + 1, ni, v);
    // Queue entries.
    assert(v + heuristic_spec(n, t) == entry.3);
    assert forall|k: int| 0 <= k < open2.len() implies {
        let e = #[trigger] open2[k];
        let c = (e.0 as int, e.1 as int);
        &&& (c == s || (g.in_bounds(c.0, c.1) && passable(g, occ, t, c)))
        &&& gs(g, s, gscore2, c) <= e.2
        &&& 0 <= e.2 <= nfin2
        &&& e.3 == e.2 + heuristic_spec(c, t)
    } by {
        if k < open.len() {
            assert(open2[k] == open[k]);
        }
    }
    // Every open scored cell has a queue entry with its score.
    assert forall|x: int, y: int|
        #![trigger gs(g, s, gscore2, (x, y))]
        in_domain(g, s, (x, y)) && gs(g, s, gscore2, (x, y)) < unknown() && !closed2.contains((x, y))
        implies exists|j: int| 0 <= j < open2.len() && (#[trigger] open2[j]).0 == x && open2[j].1 == y
            && open2[j].2 == gs(g, s, gscore2, (x, y)) by {
        if (x, y) == n {
            assert(open2[open.len() as int] == entry);
        } else {
            assert(gs(g, s, gscore2, (x, y)) == gs(g, s, gscore, (x, y)));
            assert(!closed.contains((x, y)));
            let w = choose|w: int| 0 <= w < open.len() && (#[trigger] open[w]).0 == x && open[w].1 == y
                && open[w].2 == gs(g, s, gscore, (x, y));
            assert(open2[w] == open[w]);
        }
    }
    // Closed cells stay relaxed: scores only went down, and `n` is no longer closed.
    assert forall|c: (int, int)| #[trigger] closed2.contains(c) implies in_domain(g, s, c)
        && gs(g, s, gscore2, c) < unknown()
        && relaxed(g, occ, s, t, gscore2, c, if c == u { d + 1 } else { 4 }) by {
        assert(closed.contains(c));
        assert(c != n);
        assert(relaxed(g, occ, s, t, gscore, c, if c == u { d } else { 4 }));
        assert forall|e: int|
            #![trigger nb(c, e)]
            0 <= e < (if c == u { d + 1 } else { 4 }) && passable(g, occ, t, nb(c, e))
            implies gs(g, s, gscore2, nb(c, e)) <= gs(g, s, gscore2, c) + 1 by {
            if !(c == u && e == d) {
                assert(gs(g, s, gscore, nb(c, e)) <= gs(g, s, gscore, c) + 1);
            }
        }
    }
    // Score bounds.
    assert forall|i: int| 0 <= i < total implies (#[trigger] gscore2[i] == i64::MAX || 0 <= gscore2[i] <= nfin2) by {
        if i != ni {
            assert(gscore2[i] == gscore[i]);
        }
    }
    // Back pointers.
    lemma_parents_update(g, occ, s, t, gscore, parent, u, u32, n, v);
    if g.in_bounds(s.0, s.1) {
        lemma_index_in_range(g, s.0, s.1);
        assert(g.index_of(s.0, s.1) != ni);
    }
    assert(!closed2.contains(t));
}

/// Back pointers stay valid when `n` gets parent `u` and score `gs(u) + 1`.
proof fn lemma_parents_update(
    g: Grid,
    occ: Seq<(i32, i32)>,
    s: (int, int),
    t: (int, int),
    gscore: Seq<i64>,
    parent: Seq<(i32, i32)>,
    u: (int, int),
    u32: (i32, i32),
    n: (int, int),
    v: i64,
)
    requires
        g.wf(),
        gscore.len() == g.tiles.len(),
        parent.len() == g.tiles.len(),
        parents_scored(g, occ, s, t, gscore, parent),
        in_domain(g, s, u),
        cell(u32) == u,
        adjacent(u, n),
        passable(g, occ, t, n),
        n != s,
        v == gs(g, s, gscore, u) + 1,
        (v as int) < gs(g, s, gscore, n),
    ensures
        parents_scored(g, occ, s, t, gscore.update(g.index_of(n.0, n.1), v),
            parent.update(g.index_of(n.0, n.1), u32)),
{
    let ni = g.index_of(n.0, n.1);
    let gscore2 = gscore.update(ni, v);
    let parent2 = parent.update(ni, u32);
    lemma_index_in_range(g, n.0, n.1);
    lemma_gs_update(g, s, gscore, n, v);
    lemma_same_index(g, n);
    assert(u != n);
    assert forall|x: int, y: int| #[trigger] parent_ok(g, occ, s, t, gscore2, parent2, x, y) by {
        assert(parent_ok(g, occ, s, t, gscore, parent, x, y));
        if !g.in_bounds(x, y) {
        } else if (x, y) == n {
            lemma_index_in_range(g, x, y);
            assert(parent2[ni] == u32);
        } else {
            lemma_index_in_range(g, x, y);
            assert(g.index_of(x, y) != ni);
            assert(parent2[g.index_of(x, y)] == parent[g.index_of(x, y)]);
        }
    }
}


/// The search state before the first entry leaves the queue: only the start
/// is scored (zero) and queued.
proof fn lemma_search_start(
    g: Grid,
    occ: Seq<(i32, i32)>,
    s: (int, int),
    t: (int, int),
    gscore: Seq<i64>,
    parent: Seq<(i32, i32)>,
    open: Seq<(i32, i32, i64, i64)>,
    nfin: int,
)
    requires
        g.wf(),
        s != t,
        gscore.len() == g.tiles.len(),
        parent.len() == g.tiles.len(),
        forall|i: int| 0 <= i < gscore.len() ==> #[trigger] gscore[i] == if g.in_bounds(s.0, s.1) && i == g.index_of(s.0, s.1) {
            0i64
        } else {
            i64::MAX
        },
        nfin == if g.in_bounds(s.0, s.1) { 1int } else { 0int },
        open.len() == 1,
        (open[0].0 as int, open[0].1 as int) == s,
        open[0].2 == 0,
        open[0].3 == heuristic_spec(s, t),
    ensures
        search_inv(g, occ, s, t, gscore, parent, open, Set::empty(), nfin, s, 4),
{
    let total = g.tiles.len() as int;
    let m = Seq::new(total as nat, |i: int| gscore[i] != i64::MAX);
    if g.in_bounds(s.0, s.1) {
        lemma_index_in_range(g, s.0, s.1);
        lemma_same_index(g, s);
        let m0 = Seq::new(total as nat, |i: int| false);
        lemma_count_all_false(m0);
        lemma_count_set_true(m0, g.index_of(s.0, s.1));
        assert(m =~= m0.update(g.index_of(s.0, s.1), true));
    } else {
        lemma_count_all_false(m);
    }
    assert forall|x: int, y: int|
        #![trigger gs(g, s, gscore, (x, y))]
        in_domain(g, s, (x, y)) && gs(g, s, gscore, (x, y)) < unknown() && !Set::<(int, int)>::empty().contains((x, y))
        implies exists|j: int| 0 <= j < open.len() && (#[trigger] open[j]).0 == x && open[j].1 == y
            && open[j].2 == gs(g, s, gscore, (x, y)) by {
        if (x, y) != s {
            lemma_index_in_range(g, x, y);
            if g.in_bounds(s.0, s.1) {
                lemma_index_injective(g, x, y, s.0, s.1);
            }
        }
        assert(open[0].0 == x && open[0].1 == y);
    }
    assert forall|x: int, y: int| #[trigger] parent_ok(g, occ, s, t, gscore, parent, x, y) by {
        if g.in_bounds(x, y) && (x, y) != s {
            lemma_index_in_range(g, x, y);
            if g.in_bounds(s.0, s.1) {
                if g.index_of(x, y) == g.index_of(s.0, s.1) {
                    lemma_index_injective(g, x, y, s.0, s.1);
                }
            }
        }
    }
}

/// Finds a shortest route from `(sx, sy)` to `(tx, ty)` by A* search with
/// the Manhattan distance as heuristic.
///
/// Routes step between neighbouring cells, never enter water or leave the
/// grid, and avoid the `occupied` cells except the target itself. The
/// returned route lists the cells entered, ending with the target; it is
/// empty when start and target coincide. `None` means no route exists.
pub fn find_path(
    world: &World,
    sx: i32,
    sy: i32,
    tx: i32,
    ty: i32,
    occupied: &[(i32, i32)],
) -> (result: Option<Vec<(i32, i32)>>)
    requires
        world@.wf(),
    ensures
        match result {
            Some(route) => is_shortest_route(world@, occupied@, (sx as int, sy as int), (tx as int, ty as int), route@),
            None => !reachable(world@, occupied@, (sx as int, sy as int), (tx as int, ty as int)),
        },
{
    let ghost g = world@;
    let ghost occ = occupied@;
    let ghost s = (sx as int, sy as int);
    let ghost t = (tx as int, ty as int);
    if sx == tx && sy == ty {
        let route: Vec<(i32, i32)> = Vec::new();
        assert(is_route(g, occ, s, t, route@));
        return Some(route);
    }
    let total = world.tiles.len();
    let mut g_score: Vec<i64> = vec![i64::MAX; total];
    let mut came_from: Vec<(i32, i32)> = vec![(0, 0); total];
    let mut nfin: usize = 0;
    if world.in_bounds(sx, sy) {
        let i = world.idx(sx, sy);
        g_score.set(i, 0);
        nfin = 1;
    }
    let mut open: Vec<(i32, i32, i64, i64)> = Vec::new();
    open.push((sx, sy, 0, heuristic(sx, sy, tx, ty)));
    let ghost mut closed: Set<(int, int)> = Set::empty();
    proof {
        lemma_search_start(g, occ, s, t, g_score@, came_from@, open@, nfin as int);
        lemma_grid_size(g);
    }
    let width = world.width as i64;
    let height = world.height as i64;
    while open.len() > 0
        invariant
            g == world@,
            g.wf(),
            occ == occupied@,
            s == (sx as int, sy as int),
            t == (tx as int, ty as int),
            total == g.tiles.len(),
            total <= 0x4000_0000_0000_0000,
            width == g.width,
            height == g.height,
            search_inv(g, occ, s, t, g_score@, came_from@, open@, closed, nfin as int, s, 4),
        decreases 4 * pot_sum(g_score@, total + 1) + open.len(),
    {
        proof {
            lemma_pot_nonneg(g_score@, total + 1);
        }
        let ghost measure0 = 4 * pot_sum(g_score@, total + 1) + open.len();
        let k = select_min(&open);
        let ghost open_before = open@;
        let (cx, cy, cost, _priority) = open.remove(k);
        let ghost c = (cx as int, cy as int);
        if cx == tx && cy == ty {
            proof {
                lemma_pop_target(g, occ, s, t, g_score@, came_from@, open_before, closed, nfin as int, k as int);
                lemma_grid_size(g);
                assert(forall|i: int| 0 <= i < g_score@.len() ==> 0 <= #[trigger] g_score@[i]);
            }
            let route = reconstruct(world, sx, sy, tx, ty, &came_from, Ghost(occ), Ghost(g_score@));
            return Some(route);
        }
        let current_g: i64 = if world.in_bounds(cx, cy) {
            let ci = world.idx(cx, cy);
            g_score[ci]
        } else {
            0
        };
        proof {
            assert(open_before[k as int] == (cx, cy, cost, _priority));
            if !g.in_bounds(c.0, c.1) {
                assert(c == s);
            }
            assert(current_g == gs(g, s, g_score@, c));
        }
        if cost > current_g {
            proof {
                lemma_drop_stale(g, occ, s, t, g_score@, came_from@, open_before, closed, nfin as int, k as int);
                lemma_pot_nonneg(g_score@, total + 1);
            }
            continue;
        }
        proof {
            lemma_close(g, occ, s, t, g_score@, came_from@, open_before, closed, nfin as int, k as int);
            closed = closed.insert(c);
            assert(gs(g, s, g_score@, c) <= cost);
            assert(0 <= cost <= nfin);
        }
        let mut d: usize = 0;
        while d < 4
            invariant
                g == world@,
                g.wf(),
                occ == occupied@,
                s == (sx as int, sy as int),
                t == (tx as int, ty as int),
                c == (cx as int, cy as int),
                c != t,
                total == g.tiles.len(),
                total <= 0x4000_0000_0000_0000,
                width == g.width,
                height == g.height,
                d <= 4,
                closed.contains(c),
                current_g == gs(g, s, g_score@, c),
                0 <= current_g <= nfin,
                search_inv(g, occ, s, t, g_score@, came_from@, open@, closed, nfin as int, c, d as int),
                4 * pot_sum(g_score@, total + 1) + open.len() < measure0,
            decreases 4 - d,
        {
            let (dx, dy) = direction(d);
            let nx = cx as i64 + dx;
            let ny = cy as i64 + dy;
            let ghost n = nb(c, d as int);
            assert((nx as int, ny as int) == n);
            let mut improved = false;
            if nx >= 0 && nx < width && ny >= 0 && ny < height {
                let nx32 = nx as i32;
                let ny32 = ny as i32;
                let is_target = nx32 == tx && ny32 == ty;
                if world.is_walkable(nx32, ny32) && (is_target || !is_occupied_cell(occupied, nx32, ny32)) {
                    proof {
                        assert(current_g <= nfin);
                    }
                    let new_g = current_g + 1;
                    let ni = world.idx(nx32, ny32);
                    if new_g < g_score[ni] {
                        proof {
                            if n == s {
                                assert(g_score@[ni as int] == 0);
                            }
                            assert(gs(g, s, g_score@, n) == g_score@[ni as int]);
                            lemma_relax_update(g, occ, s, t, g_score@, came_from@, open@, closed, nfin as int,
                                c, d as int, (cx, cy), (nx32, ny32), new_g);
                        }
                        if g_score[ni] == i64::MAX {
                            nfin = nfin + 1;
                        }
                        g_score.set(ni, new_g);
                        came_from.set(ni, (cx, cy));
                        let h = heuristic(nx32, ny32, tx, ty);
                        open.push((nx32, ny32, new_g, new_g + h));
                        proof {
                            closed = closed.remove(n);
                        }
                        improved = true;
                    } else {
                        proof {
                            if n != s {
                                assert(gs(g, s, g_score@, n) == g_score@[ni as int]);
                            }
                        }
                    }
                }
            }
            if !improved {
                proof {
                    lemma_relax_skip(g, occ, s, t, g_score@, came_from@, open@, closed, nfin as int, c, d as int);
                }
            }
            d = d + 1;
        }
        proof {
            lemma_expanded(g, occ, s, t, g_score@, came_from@, open@, closed, nfin as int, c);
            lemma_pot_nonneg(g_score@, total + 1);
        }
    }
    proof {
        assert forall|route: Seq<(i32, i32)>| !is_route(g, occ, s, t, route) by {
            if is_route(g, occ, s, t, route) {
                assert(route_before(s, route, 0) == s);
                lemma_empty_queue_closed(g, occ, s, t, g_score@, came_from@, open@, closed, nfin as int, s);
                lemma_exhausted_chain(g, occ, s, t, g_score@, came_from@, open@, closed, nfin as int, route, 0);
            }
        }
    }
    None
}

/// The cell next to `t` in search direction `d`.
pub open spec fn beside(t: (int, int), d: int) -> (int, int) {
    if d == 0 {
        (t.0, t.1 - 1)
    } else if d == 1 {
        (t.0, t.1 + 1)
    } else if d == 2 {
        (t.0 - 1, t.1)
    } else {
        (t.0 + 1, t.1)
    }
}

/// A cell next to a building that a colonist may walk to: walkable and not occupied.
pub open spec fn standable(g: Grid, occupied: Seq<(i32, i32)>, a: (int, int)) -> bool {
    g.walkable(a.0, a.1) && !is_occupied(occupied, a)
}

/// Absolute value of an integer.
pub open spec fn abs(v: int) -> int {
    if v < 0 {
        -v
    } else {
        v
    }
}

/// `route` leads from `s` to the standable cell beside `t` in direction `d`,
/// no route to any standable cell beside `t` is shorter, and every earlier
/// direction only has strictly longer routes.
pub open spec fn is_best_route_beside(
    g: Grid,
    occupied: Seq<(i32, i32)>,
    s: (int, int),
    t: (int, int),
    d: int,
    route: Seq<(i32, i32)>,
) -> bool {
    &&& 0 <= d < 4
    &&& standable(g, occupied, beside(t, d))
    &&& is_route(g, occupied, s, beside(t, d), route)
    &&& forall|e: int, other: Seq<(i32, i32)>|
        0 <= e < 4 && standable(g, occupied, beside(t, e))
            && is_route(g, occupied, s, beside(t, e), other)
        ==> (route.len() <= other.len() && (e < d ==> route.len() < other.len()))
}

/// Some standable cell beside `t` can be reached from `s`.
pub open spec fn can_reach_beside(g: Grid, occupied: Seq<(i32, i32)>, s: (int, int), t: (int, int)) -> bool {
    exists|e: int|
        0 <= e < 4 && standable(g, occupied, beside(t, e)) && reachable(g, occupied, s, #[trigger] beside(t, e))
}

/// Finds a shortest route from `(sx, sy)` to a cell beside `(tx, ty)`, for
/// using the building there.
///
/// When the start already touches the target the route is empty. Otherwise
/// the four cells beside the target are tried in the order up, down, left,
/// right, skipping those that are water, outside the grid or occupied, and the
/// first one with the shortest route wins. `None` means none can be reached.
pub fn find_path_adjacent(
    world: &World,
    sx: i32,
    sy: i32,
    tx: i32,
    ty: i32,
    occupied: &[(i32, i32)],
) -> (result: Option<Vec<(i32, i32)>>)
    requires
        world@.wf(),
        abs(sx - tx) + abs(sy - ty) <= i32::MAX,
    ensures
        adjacent((sx as int, sy as int), (tx as int, ty as int)) ==> (result matches Some(route) && route@.len() == 0),
        !adjacent((sx as int, sy as int), (tx as int, ty as int)) ==> match result {
            Some(route) => exists|d: int| is_best_route_beside(world@, occupied@, (sx as int, sy as int), (tx as int, ty as int), d, route@),
            None => !can_reach_beside(world@, occupied@, (sx as int, sy as int), (tx as int, ty as int)),
        },
{
    let ghost g = world@;
    let ghost occ = occupied@;
    let ghost s = (sx as int, sy as int);
    let ghost t = (tx as int, ty as int);
    let ddx = sx as i64 - tx as i64;
    let ddy = sy as i64 - ty as i64;
    let adx = if ddx < 0 { -ddx } else { ddx };
    let ady = if ddy < 0 { -ddy } else { ddy };
    if adx + ady == 1 {
        return Some(Vec::new());
    }
    let width = world.width as i64;
    let height = world.height as i64;
    let mut best: Option<Vec<(i32, i32)>> = None;
    let ghost mut best_d: int = 0;
    let mut d: usize = 0;
    while d < 4
        invariant
            g == world@,
            g.wf(),
            occ == occupied@,
            s == (sx as int, sy as int),
            t == (tx as int, ty as int),
            width == g.width,
            height == g.height,
            d <= 4,
            best is None ==> forall|e: int|
                0 <= e < d && standable(g, occ, beside(t, e)) ==> !reachable(g, occ, s, #[trigger] beside(t, e)),
            best matches Some(b) ==> {
                &&& 0 <= best_d < d
                &&& standable(g, occ, beside(t, best_d))
                &&& is_route(g, occ, s, beside(t, best_d), b@)
                &&& forall|e: int, other: Seq<(i32, i32)>|
                    0 <= e < d && standable(g, occ, beside(t, e))
                        && is_route(g, occ, s, beside(t, e), other)
                    ==> (b@.len() <= other.len() && (e < best_d ==> b@.len() < other.len()))
            },
        decreases 4 - d,
    {
        let (ox, oy) = direction(d);
        let ax = tx as i64 + ox;
        let ay = ty as i64 + oy;
        assert((ax as int, ay as int) == beside(t, d as int));
        if ax >= 0 && ax < width && ay >= 0 && ay < height {
            let ax32 = ax as i32;
            let ay32 = ay as i32;
            if world.is_walkable(ax32, ay32) && !is_occupied_cell(occupied, ax32, ay32) {
                let found = find_path(world, sx, sy, ax32, ay32, occupied);
                if let Some(path) = found {
                    let better = match &best {
                        None => true,
                        Some(bp) => path.len() < bp.len(),
                    };
                    if better {
                        best = Some(path);
                        proof {
                            best_d = d as int;
                        }
                    }
                }
            }
        }
        d = d + 1;
    }
    proof {
        match &best {
            Some(b) => {
                assert(is_best_route_beside(g, occ, s, t, best_d, b@));
            },
            None => {
                assert forall|e: int|
                    0 <= e < 4 && standable(g, occ, beside(t, e)) implies !reachable(g, occ, s, #[trigger] beside(t, e)) by {
                }
            },
        }
    }
    best
}


/// Law: a shortest route never passes through its start cell again, so the
/// route returned by `find_path` does not include the start.
pub proof fn law_shortest_route_avoids_start(
    g: Grid,
    occupied: Seq<(i32, i32)>,
    s: (int, int),
    t: (int, int),
    route: Seq<(i32, i32)>,
)
    requires
        is_shortest_route(g, occupied, s, t, route),
    ensures
        forall|i: int| 0 <= i < route.len() ==> cell(#[trigger] route[i]) != s,
{
    assert forall|i: int| 0 <= i < route.len() implies cell(#[trigger] route[i]) != s by {
        if cell(route[i]) == s {
            let rest = route.subrange(i + 1, route.len() as int);
            assert forall|j: int| 0 <= j < rest.len() implies passable(g, occupied, t, cell(#[trigger] rest[j])) by {
                assert(rest[j] == route[i + 1 + j]);
            }
            assert forall|j: int| 0 <= j < rest.len() implies adjacent(route_before(s, rest, j), cell(#[trigger] rest[j])) by {
                assert(rest[j] == route[i + 1 + j]);
                assert(adjacent(route_before(s, route, i + 1 + j), cell(route[i + 1 + j])));
                if j > 0 {
                    assert(rest[j - 1] == route[i + j]);
                }
            }
            if rest.len() == 0 {
                assert(route.last() == route[i]);
            } else {
                assert(rest.last() == route.last());
            }
            assert(is_route(g, occupied, s, t, rest));
        }
    }
}

} // verus!
