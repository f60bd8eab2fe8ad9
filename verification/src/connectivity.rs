//! Connected regions of walkable land and the search for the largest one.

use std::collections::VecDeque;

use vstd::prelude::*;
use vstd::arithmetic::div_mod::{lemma_fundamental_div_mod, lemma_mod_pos_bound};

use crate::events::TileType;
use crate::mask::{count_true, lemma_count_set_true, lemma_count_le_len, lemma_count_all_false, lemma_count_pos};
use crate::pathfinding::{adjacent, cell, direction, is_route, lemma_adjacent_is_nb, nb, passable, reachable, route_before};
use crate::world::{Grid, World, lemma_index_coords, lemma_index_in_range};

verus! {

/// `b` can be walked to from the walkable cell `a` over walkable cells.
pub open spec fn connected(g: Grid, a: (int, int), b: (int, int)) -> bool {
    g.walkable(a.0, a.1) && reachable(g, Seq::empty(), a, b)
}

/// The cell stored at row-major index `i`.
pub open spec fn cell_of(g: Grid, i: int) -> (int, int) {
    (i % g.width, i / g.width)
}

/// Mask of the cells connected to `s` (all `false` when `s` is not walkable).
pub open spec fn component(g: Grid, s: (int, int)) -> Seq<bool> {
    Seq::new(g.tiles.len(), |i: int| connected(g, s, cell_of(g, i)))
}

/// Every index of the tile vector names an in-bounds cell.
pub proof fn lemma_cell_of(g: Grid, i: int)
    requires
        g.wf(),
        0 <= i < g.tiles.len(),
    ensures
        g.in_bounds(cell_of(g, i).0, cell_of(g, i).1),
        g.index_of(cell_of(g, i).0, cell_of(g, i).1) == i,
{
    let w = g.width;
    let h = g.height;
    assert(w > 0) by (nonlinear_arith)
        requires
            g.tiles.len() == w * h,
            0 <= i < g.tiles.len(),
            0 <= w,
            0 <= h,
    ;
    lemma_fundamental_div_mod(i, w);
    lemma_mod_pos_bound(i, w);
    let x = i % w;
    let y = i / w;
    assert(y * w == w * y) by (nonlinear_arith);
    assert(0 <= y) by (nonlinear_arith)
        requires
            i == w * y + x,
            0 <= x < w,
            0 <= i,
    ;
    assert(y < h) by (nonlinear_arith)
        requires
            i == w * y + x,
            0 <= x < w,
            i < w * h,
            0 < w,
    ;
}

/// Routes over open land can be chained.
pub proof fn lemma_route_concat(
    g: Grid,
    a: (int, int),
    b: (int, int),
    c: (int, int),
    r1: Seq<(i32, i32)>,
    r2: Seq<(i32, i32)>,
)
    requires
        is_route(g, Seq::empty(), a, b, r1),
        is_route(g, Seq::empty(), b, c, r2),
    ensures
        is_route(g, Seq::empty(), a, c, r1 + r2),
{
    let r = r1 + r2;
    assert forall|i: int| 0 <= i < r.len() implies passable(g, Seq::empty(), c, cell(#[trigger] r[i])) by {
        if i < r1.len() {
            assert(passable(g, Seq::empty(), b, cell(r1[i])));
        } else {
            assert(r[i] == r2[i - r1.len()]);
        }
    }
    assert forall|i: int| 0 <= i < r.len() implies adjacent(route_before(a, r, i), cell(#[trigger] r[i])) by {
        if i < r1.len() {
            assert(adjacent(route_before(a, r1, i), cell(r1[i])));
            if i > 0 {
                assert(r[i - 1] == r1[i - 1]);
            }
        } else {
            let j = i - r1.len();
            assert(r[i] == r2[j]);
            assert(adjacent(route_before(b, r2, j), cell(r2[j])));
            if j > 0 {
                assert(r[i - 1] == r2[j - 1]);
            } else if r1.len() > 0 {
                assert(r[i - 1] == r1.last());
            }
        }
    }
    if r2.len() == 0 {
        assert(r =~= r1);
    }
}

/// The first `j + 1` cells of a route form a route to its `j`-th cell.
pub proof fn lemma_route_prefix(g: Grid, a: (int, int), b: (int, int), r: Seq<(i32, i32)>, j: int)
    requires
        is_route(g, Seq::empty(), a, b, r),
        0 <= j < r.len(),
    ensures
        is_route(g, Seq::empty(), a, cell(r[j]), r.take(j + 1)),
{
    let p = r.take(j + 1);
    assert forall|i: int| 0 <= i < p.len() implies passable(g, Seq::empty(), cell(r[j]), cell(#[trigger] p[i])) by {
        assert(passable(g, Seq::empty(), b, cell(r[i])));
    }
    assert forall|i: int| 0 <= i < p.len() implies adjacent(route_before(a, p, i), cell(#[trigger] p[i])) by {
        assert(adjacent(route_before(a, r, i), cell(r[i])));
    }
}

/// Routes over open land can be walked backwards.
pub proof fn lemma_route_reverse(g: Grid, a: (int, int), b: (int, int), r: Seq<(i32, i32)>)
    requires
        g.wf(),
        g.walkable(a.0, a.1),
        is_route(g, Seq::empty(), a, b, r),
    ensures
        reachable(g, Seq::empty(), b, a),
{
    let n = r.len() as int;
    let a32: (i32, i32) = (a.0 as i32, a.1 as i32);
    assert(cell(a32) == a);
    let rev = Seq::new(n as nat, |i: int| if i < n - 1 { r[n - 2 - i] } else { a32 });
    if n == 0 {
        assert(is_route(g, Seq::empty(), b, a, rev));
    } else {
        assert forall|i: int| 0 <= i < rev.len() implies passable(g, Seq::empty(), a, cell(#[trigger] rev[i])) by {
            if i < n - 1 {
                assert(passable(g, Seq::empty(), b, cell(r[n - 2 - i])));
            }
        }
        assert forall|i: int| 0 <= i < rev.len() implies adjacent(route_before(b, rev, i), cell(#[trigger] rev[i])) by {
            let k = n - 1 - i;
            assert(adjacent(route_before(a, r, k), cell(r[k])));
            if i == 0 {
                assert(cell(r[n - 1]) == b);
            } else {
                assert(rev[i - 1] == r[k]);
            }
        }
        assert(is_route(g, Seq::empty(), b, a, rev));
    }
}

/// Connection is symmetric and transitive: cells connected to `s` share its component.
pub proof fn lemma_same_component(g: Grid, s: (int, int), c: (int, int))
    requires
        g.wf(),
        connected(g, s, c),
    ensures
        g.walkable(c.0, c.1),
        component(g, c) == component(g, s),
{
    let r = choose|r: Seq<(i32, i32)>| is_route(g, Seq::empty(), s, c, r);
    if r.len() > 0 {
        assert(passable(g, Seq::empty(), c, cell(r[r.len() - 1])));
    }
    lemma_route_reverse(g, s, c, r);
    let back = choose|q: Seq<(i32, i32)>| is_route(g, Seq::empty(), c, s, q);
    assert forall|i: int| 0 <= i < g.tiles.len() implies component(g, c)[i] == component(g, s)[i] by {
        let x = cell_of(g, i);
        if connected(g, c, x) {
            let q = choose|q: Seq<(i32, i32)>| is_route(g, Seq::empty(), c, x, q);
            lemma_route_concat(g, s, c, x, r, q);
        }
        if connected(g, s, x) {
            let q = choose|q: Seq<(i32, i32)>| is_route(g, Seq::empty(), s, x, q);
            lemma_route_concat(g, c, s, x, back, q);
        }
    }
    assert(component(g, c) =~= component(g, s));
}


/// One more walkable step keeps a cell connected to `s`.
pub proof fn lemma_extend_connected(g: Grid, s: (int, int), c: (int, int), n: (int, int))
    requires
        g.wf(),
        connected(g, s, c),
        adjacent(c, n),
        g.walkable(n.0, n.1),
    ensures
        connected(g, s, n),
{
    let r = choose|r: Seq<(i32, i32)>| is_route(g, Seq::empty(), s, c, r);
    let n32: (i32, i32) = (n.0 as i32, n.1 as i32);
    assert(cell(n32) == n);
    let r2 = r.push(n32);
    assert forall|i: int| 0 <= i < r2.len() implies passable(g, Seq::empty(), n, cell(#[trigger] r2[i])) by {
        if i < r.len() {
            assert(passable(g, Seq::empty(), c, cell(r[i])));
        }
    }
    assert forall|i: int| 0 <= i < r2.len() implies adjacent(route_before(s, r2, i), cell(#[trigger] r2[i])) by {
        if i < r.len() {
            assert(adjacent(route_before(s, r, i), cell(r[i])));
            if i > 0 {
                assert(r2[i - 1] == r[i - 1]);
            }
        } else if i > 0 {
            assert(r2[i - 1] == r.last());
        }
    }
    assert(is_route(g, Seq::empty(), s, n, r2));
}

/// A cell whose walkable neighbours are all marked.
spec fn closed_at(g: Grid, visited: Seq<bool>, c: (int, int)) -> bool {
    forall|x: int, y: int|
        #![trigger visited[g.index_of(x, y)]]
        adjacent(c, (x, y)) && g.walkable(x, y) ==> visited[g.index_of(x, y)]
}

/// A marked set closed under walkable steps contains every cell of every
/// route from a marked start.
proof fn lemma_closed_route(g: Grid, s: (int, int), t: (int, int), visited: Seq<bool>, r: Seq<(i32, i32)>, j: int)
    requires
        g.wf(),
        visited.len() == g.tiles.len(),
        g.in_bounds(s.0, s.1),
        visited[g.index_of(s.0, s.1)],
        forall|x: int, y: int|
            #![trigger visited[g.index_of(x, y)]]
            g.in_bounds(x, y) && visited[g.index_of(x, y)] ==> closed_at(g, visited, (x, y)),
        is_route(g, Seq::empty(), s, t, r),
        0 <= j < r.len(),
    ensures
        visited[g.index_of(cell(r[j]).0, cell(r[j]).1)],
    decreases j,
{
    let b = route_before(s, r, j);
    if j > 0 {
        lemma_closed_route(g, s, t, visited, r, j - 1);
    }
    assert(g.in_bounds(b.0, b.1) && visited[g.index_of(b.0, b.1)]);
    assert(closed_at(g, visited, b));
    assert(adjacent(b, cell(r[j])));
    assert(passable(g, Seq::empty(), t, cell(r[j])));
}

/// Bookkeeping of a flood fill from index `start`: `order` lists the marked
/// cells in marking order, the first `done` of them have all their walkable
/// neighbours marked, and `global` is `global0` plus the marked cells.
spec fn flood_inv(
    g: Grid,
    start: int,
    visited: Seq<bool>,
    order: Seq<usize>,
    count: int,
    global0: Seq<bool>,
    global: Seq<bool>,
    done: int,
) -> bool {
    let total = g.tiles.len() as int;
    let s = cell_of(g, start);
    &&& visited.len() == total
    &&& global.len() == total
    &&& global0.len() == total
    &&& 0 <= start < total
    &&& visited[start]
    &&& 0 <= done <= order.len()
    &&& forall|j: int| 0 <= j < order.len() ==> #[trigger] order[j] < total && visited[order[j] as int]
    &&& forall|i: int| 0 <= i < total && #[trigger] visited[i] ==> exists|j: int| 0 <= j < order.len() && order[j] == i
    &&& count == order.len()
    &&& count == count_true(visited)
    &&& forall|i: int| 0 <= i < total && #[trigger] visited[i] ==> connected(g, s, cell_of(g, i))
    &&& forall|j: int| 0 <= j < done ==> closed_at(g, visited, cell_of(g, #[trigger] order[j] as int))
    &&& forall|i: int| 0 <= i < total ==> #[trigger] global[i] == (global0[i] || visited[i])
}

proof fn lemma_flood_start(g: Grid, start: usize, visited0: Seq<bool>, global0: Seq<bool>)
    requires
        g.wf(),
        0 <= start < g.tiles.len(),
        g.walkable(cell_of(g, start as int).0, cell_of(g, start as int).1),
        visited0.len() == g.tiles.len(),
        global0.len() == g.tiles.len(),
        forall|i: int| 0 <= i < visited0.len() ==> !visited0[i],
    ensures
        flood_inv(g, start as int, visited0.update(start as int, true), seq![start], 1,
            global0, global0.update(start as int, true), 0),
{
    let s = cell_of(g, start as int);
    let visited = visited0.update(start as int, true);
    lemma_count_all_false(visited0);
    lemma_count_set_true(visited0, start as int);
    assert(is_route(g, Seq::empty(), s, s, Seq::<(i32, i32)>::empty()));
    assert forall|i: int| 0 <= i < g.tiles.len() && #[trigger] visited[i] implies i == start by {
    }
    assert(seq![start][0] == start);
}

#[verifier::rlimit(50)]
proof fn lemma_flood_mark(
    g: Grid,
    start: int,
    visited: Seq<bool>,
    order: Seq<usize>,
    count: int,
    global0: Seq<bool>,
    global: Seq<bool>,
    done: int,
    c: (int, int),
    n: (int, int),
    ni: usize,
)
    requires
        g.wf(),
        ni == g.index_of(n.0, n.1),
        flood_inv(g, start, visited, order, count, global0, global, done),
        g.in_bounds(c.0, c.1),
        visited[g.index_of(c.0, c.1)],
        adjacent(c, n),
        g.walkable(n.0, n.1),
        !visited[g.index_of(n.0, n.1)],
    ensures
        ({
            &&& 0 <= ni < g.tiles.len()
            &&& cell_of(g, ni as int) == n
            &&& flood_inv(g, start, visited.update(ni as int, true), order.push(ni), count + 1,
                global0, global.update(ni as int, true), done)
            &&& count_true(visited) < g.tiles.len()
        }),
{
    let s = cell_of(g, start);
    let visited2 = visited.update(ni as int, true);
    let order2 = order.push(ni);
    lemma_index_in_range(g, n.0, n.1);
    lemma_index_in_range(g, c.0, c.1);
    lemma_index_coords(g.width, n.0, n.1);
    lemma_index_coords(g.width, c.0, c.1);
    assert(cell_of(g, g.index_of(c.0, c.1)) == c);
    lemma_extend_connected(g, s, c, n);
    lemma_count_set_true(visited, ni as int);
    lemma_count_le_len(visited2);
    assert forall|i: int| 0 <= i < g.tiles.len() && #[trigger] visited2[i] implies exists|j: int| 0 <= j < order2.len() && order2[j] == i by {
        if i == ni {
            assert(order2[order.len() as int] == i);
        } else {
            let j = choose|j: int| 0 <= j < order.len() && order[j] == i;
            assert(order2[j] == i);
        }
    }
    assert forall|j: int| 0 <= j < order2.len() implies #[trigger] order2[j] < g.tiles.len() && visited2[order2[j] as int] by {
        if j < order.len() {
            assert(order2[j] == order[j]);
        }
    }
    assert forall|j: int| 0 <= j < done implies closed_at(g, visited2, cell_of(g, #[trigger] order2[j] as int)) by {
        assert(order2[j] == order[j]);
        let cj = cell_of(g, order[j] as int);
        assert(closed_at(g, visited, cj));
        assert forall|xx: int, yy: int|
            #![trigger visited2[g.index_of(xx, yy)]]
            adjacent(cj, (xx, yy)) && g.walkable(xx, yy) implies visited2[g.index_of(xx, yy)] by {
            lemma_index_in_range(g, xx, yy);
            assert(visited[g.index_of(xx, yy)]);
        }
    }
}

proof fn lemma_flood_close(
    g: Grid,
    start: int,
    visited: Seq<bool>,
    order: Seq<usize>,
    count: int,
    global0: Seq<bool>,
    global: Seq<bool>,
    done: int,
)
    requires
        g.wf(),
        flood_inv(g, start, visited, order, count, global0, global, done),
        done < order.len(),
        ({
            let c = cell_of(g, order[done] as int);
            forall|e: int| 0 <= e < 4 && g.walkable(nb(c, e).0, nb(c, e).1)
                ==> #[trigger] visited[g.index_of(nb(c, e).0, nb(c, e).1)]
        }),
    ensures
        flood_inv(g, start, visited, order, count, global0, global, done + 1),
{
    let c = cell_of(g, order[done] as int);
    assert forall|xx: int, yy: int|
        #![trigger visited[g.index_of(xx, yy)]]
        adjacent(c, (xx, yy)) && g.walkable(xx, yy) implies visited[g.index_of(xx, yy)] by {
        lemma_adjacent_is_nb(c, (xx, yy));
        assert(0 <= 0int < 4 && 0 <= 1int < 4 && 0 <= 2int < 4 && 0 <= 3int < 4);
        assert(g.walkable(nb(c, 0).0, nb(c, 0).1) ==> visited[g.index_of(nb(c, 0).0, nb(c, 0).1)]);
        assert(g.walkable(nb(c, 1).0, nb(c, 1).1) ==> visited[g.index_of(nb(c, 1).0, nb(c, 1).1)]);
        assert(g.walkable(nb(c, 2).0, nb(c, 2).1) ==> visited[g.index_of(nb(c, 2).0, nb(c, 2).1)]);
        assert(g.walkable(nb(c, 3).0, nb(c, 3).1) ==> visited[g.index_of(nb(c, 3).0, nb(c, 3).1)]);
    }
}

proof fn lemma_flood_finish(
    g: Grid,
    start: int,
    visited: Seq<bool>,
    order: Seq<usize>,
    count: int,
    global0: Seq<bool>,
    global: Seq<bool>,
)
    requires
        g.wf(),
        flood_inv(g, start, visited, order, count, global0, global, order.len() as int),
    ensures
        visited == component(g, cell_of(g, start)),
{
    let s = cell_of(g, start);
    let total = g.tiles.len() as int;
    lemma_cell_of(g, start);
    assert forall|xx: int, yy: int|
        #![trigger visited[g.index_of(xx, yy)]]
        g.in_bounds(xx, yy) && visited[g.index_of(xx, yy)] implies closed_at(g, visited, (xx, yy)) by {
        lemma_index_in_range(g, xx, yy);
        let i = g.index_of(xx, yy);
        let j = choose|j: int| 0 <= j < order.len() && order[j] == i;
        lemma_index_coords(g.width, xx, yy);
        assert(cell_of(g, order[j] as int) == (xx, yy));
    }
    assert forall|i: int| 0 <= i < total implies visited[i] == component(g, s)[i] by {
        if connected(g, s, cell_of(g, i)) {
            lemma_cell_of(g, i);
            let r = choose|r: Seq<(i32, i32)>| is_route(g, Seq::empty(), s, cell_of(g, i), r);
            if r.len() > 0 {
                lemma_closed_route(g, s, cell_of(g, i), visited, r, r.len() - 1);
            }
        }
    }
    assert(visited =~= component(g, s));
}

/// Flood fill from the walkable cell at index `start`: returns the mask of its
/// connected region and its size, and marks the region in `global`.
fn flood(world: &World, start: usize, global: &mut Vec<bool>) -> (res: (Vec<bool>, usize))
    requires
        world@.wf(),
        start < world@.tiles.len(),
        world@.walkable(cell_of(world@, start as int).0, cell_of(world@, start as int).1),
        old(global)@.len() == world@.tiles.len(),
    ensures
        res.0@ == component(world@, cell_of(world@, start as int)),
        res.1 == count_true(res.0@),
        final(global)@.len() == old(global)@.len(),
        forall|i: int| 0 <= i < old(global)@.len() ==> final(global)@[i] == (old(global)@[i] || res.0@[i]),
{
    let ghost g = world@;
    let ghost global0 = global@;
    let total = world.tiles.len();
    let w = world.width;
    let width = world.width as i64;
    let height = world.height as i64;
    let mut visited: Vec<bool> = vec![false; total];
    proof {
        lemma_flood_start(g, start, visited@, global@);
    }
    visited.set(start, true);
    global.set(start, true);
    let mut count: usize = 1;
    let mut queue: VecDeque<usize> = VecDeque::new();
    queue.push_back(start);
    let ghost mut order: Seq<usize> = seq![start];
    let ghost mut head: int = 0;
    while queue.len() > 0
        invariant
            g == world@,
            g.wf(),
            total == g.tiles.len(),
            w == g.width,
            width == g.width,
            height == g.height,
            flood_inv(g, start as int, visited@, order, count as int, global0, global@, head),
            queue@ == order.subrange(head, order.len() as int),
        decreases 2 * (total - count) + queue.len(),
    {
        proof {
            lemma_count_le_len(visited@);
        }
        let idx = queue.pop_front().unwrap();
        let ghost cur_j = head;
        proof {
            assert(order[cur_j] == idx);
            head = head + 1;
            lemma_cell_of(g, idx as int);
            lemma_mod_pos_bound(idx as int, w as int);
        }
        let ghost c = cell_of(g, idx as int);
        let x = (idx % w) as i32;
        let y = (idx / w) as i32;
        assert((x as int, y as int) == c);
        let ghost len0 = order.len();
        let mut d: usize = 0;
        while d < 4
            invariant
                order.len() >= len0,
                g == world@,
                g.wf(),
                total == g.tiles.len(),
                w == g.width,
                width == g.width,
                height == g.height,
                flood_inv(g, start as int, visited@, order, count as int, global0, global@, cur_j),
                cur_j == head - 1,
                0 <= cur_j < order.len(),
                order[cur_j] == idx,
                (x as int, y as int) == c,
                c == cell_of(g, idx as int),
                g.in_bounds(c.0, c.1),
                g.index_of(c.0, c.1) == idx,
                queue@ == order.subrange(head, order.len() as int),
                forall|e: int| 0 <= e < d && g.walkable(nb(c, e).0, nb(c, e).1)
                    ==> #[trigger] visited@[g.index_of(nb(c, e).0, nb(c, e).1)],
                d <= 4,
            decreases 4 - d,
        {
            let (dx, dy) = direction(d);
            let nx = x as i64 + dx;
            let ny = y as i64 + dy;
            let ghost n = nb(c, d as int);
            assert((nx as int, ny as int) == n);
            if nx >= 0 && nx < width && ny >= 0 && ny < height {
                proof {
                    lemma_index_in_range(g, n.0, n.1);
                }
                let nidx = (ny as usize) * w + (nx as usize);
                assert(nidx == g.index_of(n.0, n.1));
                if !visited[nidx] && world.tiles[nidx] != TileType::Water {
                    proof {
                        assert(g.walkable(n.0, n.1));
                        lemma_flood_mark(g, start as int, visited@, order, count as int, global0, global@, cur_j, c, n, nidx);
                    }
                    let ghost old_visited = visited@;
                    visited.set(nidx, true);
                    global.set(nidx, true);
                    queue.push_back(nidx);
                    count = count + 1;
                    proof {
                        order = order.push(nidx);
                        assert(queue@ =~= order.subrange(head, order.len() as int));
                        assert forall|e: int| 0 <= e < d + 1 && g.walkable(nb(c, e).0, nb(c, e).1)
                            implies #[trigger] visited@[g.index_of(nb(c, e).0, nb(c, e).1)] by {
                            if e < d {
                                lemma_index_in_range(g, nb(c, e).0, nb(c, e).1);
                                assert(old_visited[g.index_of(nb(c, e).0, nb(c, e).1)]);
                            }
                        }
                    }
                }
            }
            d = d + 1;
        }
        proof {
            lemma_flood_close(g, start as int, visited@, order, count as int, global0, global@, cur_j);
            lemma_count_le_len(visited@);
        }
    }
    proof {
        lemma_flood_finish(g, start as int, visited@, order, count as int, global0, global@);
    }
    (visited, count)
}


/// `mask` marks the largest connected region of walkable land: the region of
/// the first cell (in row-major order) among those whose region is largest.
/// Without any walkable cell the mask is empty.
pub open spec fn is_largest_component(g: Grid, mask: Seq<bool>) -> bool {
    &&& mask.len() == g.tiles.len()
    &&& (forall|i: int| 0 <= i < g.tiles.len() ==> !g.walkable(#[trigger] cell_of(g, i).0, cell_of(g, i).1))
        ==> forall|i: int| 0 <= i < mask.len() ==> !mask[i]
    &&& (exists|i: int| 0 <= i < g.tiles.len() && g.walkable(#[trigger] cell_of(g, i).0, cell_of(g, i).1))
        ==> exists|s0: int| {
            &&& 0 <= s0 < g.tiles.len()
            &&& g.walkable(cell_of(g, s0).0, cell_of(g, s0).1)
            &&& mask == #[trigger] component(g, cell_of(g, s0))
            &&& forall|i: int| 0 <= i < g.tiles.len() && g.walkable(cell_of(g, i).0, cell_of(g, i).1)
                ==> count_true(#[trigger] component(g, cell_of(g, i))) <= count_true(mask)
                    && (i < s0 ==> count_true(component(g, cell_of(g, i))) < count_true(mask))
        }
}

/// Cell `i` lies in the region of some start before `start`.
spec fn covered(g: Grid, start: int, i: int) -> bool {
    exists|j: int| 0 <= j < start && #[trigger] component(g, cell_of(g, j))[i]
}

/// State of the largest-region search after trying every start before `start`.
spec fn largest_inv(g: Grid, start: int, global: Seq<bool>, best: Seq<bool>, best_count: int, best_start: int) -> bool {
    let total = g.tiles.len() as int;
    &&& global.len() == total
    &&& best.len() == total
    &&& 0 <= start <= total
    &&& forall|i: int| 0 <= i < total ==> (#[trigger] global[i] <==> covered(g, start, i))
    &&& forall|i: int| 0 <= i < total && #[trigger] global[i] ==>
        count_true(component(g, cell_of(g, i))) <= best_count
        && (i < best_start ==> count_true(component(g, cell_of(g, i))) < best_count)
    &&& best_count == 0 ==> (forall|i: int| 0 <= i < total ==> !best[i])
        && (forall|j: int| 0 <= j < start ==> !g.walkable(#[trigger] cell_of(g, j).0, cell_of(g, j).1))
    &&& best_count > 0 ==> {
        &&& 0 <= best_start < start
        &&& g.walkable(cell_of(g, best_start).0, cell_of(g, best_start).1)
        &&& best == component(g, cell_of(g, best_start))
        &&& best_count == count_true(best)
    }
}

/// A walkable cell lies in its own region.
proof fn lemma_in_own_component(g: Grid, i: int)
    requires
        g.wf(),
        0 <= i < g.tiles.len(),
        g.walkable(cell_of(g, i).0, cell_of(g, i).1),
    ensures
        component(g, cell_of(g, i))[i],
        count_true(component(g, cell_of(g, i))) >= 1,
{
    let c = cell_of(g, i);
    assert(is_route(g, Seq::empty(), c, c, Seq::<(i32, i32)>::empty()));
    lemma_count_pos(component(g, c), i);
}

/// A walkable cell before `start` is covered.
proof fn lemma_walkable_covered(g: Grid, start: int, i: int)
    requires
        g.wf(),
        0 <= i < start,
        i < g.tiles.len(),
        g.walkable(cell_of(g, i).0, cell_of(g, i).1),
    ensures
        covered(g, start, i),
{
    lemma_in_own_component(g, i);
}

/// A covered cell's region is the region of the start that covers it.
proof fn lemma_covered_component(g: Grid, start: int, i: int) -> (j: int)
    requires
        g.wf(),
        0 <= i < g.tiles.len(),
        covered(g, start, i),
    ensures
        0 <= j < start,
        component(g, cell_of(g, i)) == component(g, cell_of(g, j)),
{
    let j = choose|j: int| 0 <= j < start && #[trigger] component(g, cell_of(g, j))[i];
    lemma_same_component(g, cell_of(g, j), cell_of(g, i));
    j
}

/// Trying a start that is already covered, or is water, changes nothing.
proof fn lemma_largest_skip(g: Grid, start: int, global: Seq<bool>, best: Seq<bool>, best_count: int, best_start: int)
    requires
        g.wf(),
        largest_inv(g, start, global, best, best_count, best_start),
        start < g.tiles.len(),
        global[start] || !g.walkable(cell_of(g, start).0, cell_of(g, start).1),
    ensures
        largest_inv(g, start + 1, global, best, best_count, best_start),
{
    let total = g.tiles.len() as int;
    assert forall|i: int| 0 <= i < total implies (#[trigger] global[i] <==> covered(g, start + 1, i)) by {
        if covered(g, start + 1, i) && !covered(g, start, i) {
            assert(component(g, cell_of(g, start))[i]);
            if global[start] {
                let j = lemma_covered_component(g, start, start);
                assert(component(g, cell_of(g, j))[i]);
            }
            assert(false);
        }
        if covered(g, start, i) {
            let j = choose|j: int| 0 <= j < start && #[trigger] component(g, cell_of(g, j))[i];
            assert(0 <= j < start + 1 && component(g, cell_of(g, j))[i]);
        }
    }
    if best_count == 0 && global[start] {
        let j = lemma_covered_component(g, start, start);
        lemma_cell_of(g, start);
        assert(component(g, cell_of(g, j))[start]);
        assert(false);
    }
}

/// Marking the region of a fresh walkable start and keeping the larger region.
#[verifier::rlimit(30)]
proof fn lemma_largest_flood(
    g: Grid,
    start: int,
    global: Seq<bool>,
    best: Seq<bool>,
    best_count: int,
    best_start: int,
    global2: Seq<bool>,
    region: Seq<bool>,
    count: int,
)
    requires
        g.wf(),
        largest_inv(g, start, global, best, best_count, best_start),
        start < g.tiles.len(),
        !global[start],
        g.walkable(cell_of(g, start).0, cell_of(g, start).1),
        region == component(g, cell_of(g, start)),
        count == count_true(region),
        global2.len() == global.len(),
        forall|i: int| 0 <= i < global.len() ==> global2[i] == (global[i] || region[i]),
    ensures
        count > best_count ==> largest_inv(g, start + 1, global2, region, count, start),
        count <= best_count ==> largest_inv(g, start + 1, global2, best, best_count, best_start),
{
    let total = g.tiles.len() as int;
    let s = cell_of(g, start);
    lemma_in_own_component(g, start);
    assert forall|i: int| 0 <= i < total implies (#[trigger] global2[i] <==> covered(g, start + 1, i)) by {
        if covered(g, start + 1, i) && !covered(g, start, i) {
            let j = choose|j: int| 0 <= j < start + 1 && #[trigger] component(g, cell_of(g, j))[i];
            assert(j == start);
        }
        if covered(g, start, i) {
            let j = choose|j: int| 0 <= j < start && #[trigger] component(g, cell_of(g, j))[i];
            assert(0 <= j < start + 1 && component(g, cell_of(g, j))[i]);
        }
        if region[i] {
            assert(0 <= start < start + 1 && component(g, cell_of(g, start))[i]);
        }
    }
    // Cells of the new region come after `start` and share its size.
    assert forall|i: int| 0 <= i < total && #[trigger] region[i] && !global[i] implies
        i >= start && component(g, cell_of(g, i)) == region by {
        lemma_cell_of(g, i);
        lemma_same_component(g, s, cell_of(g, i));
        if i < start {
            lemma_walkable_covered(g, start, i);
            let j = lemma_covered_component(g, start, i);
            lemma_in_own_component(g, start);
            assert(component(g, cell_of(g, i))[start]);
            assert(component(g, cell_of(g, j))[start]);
            assert(covered(g, start, start));
            assert(false);
        }
    }
    if count > best_count {
        assert forall|i: int| 0 <= i < total && #[trigger] global2[i] implies
            count_true(component(g, cell_of(g, i))) <= count
            && (i < start ==> count_true(component(g, cell_of(g, i))) < count) by {
            if !global[i] {
                assert(region[i]);
            }
        }
    } else {
        assert forall|i: int| 0 <= i < total && #[trigger] global2[i] implies
            count_true(component(g, cell_of(g, i))) <= best_count
            && (i < best_start ==> count_true(component(g, cell_of(g, i))) < best_count) by {
            if !global[i] {
                assert(region[i]);
            }
        }
    }
}

impl World {
    /// Finds the largest connected region of walkable land, as a mask over
    /// the tiles. Regions are found by flood fill from each cell in row-major
    /// order; among equally large regions the first one found is kept.
    pub fn find_largest_walkable_component(&self) -> (mask: Vec<bool>)
        requires
            self@.wf(),
        ensures
            is_largest_component(self@, mask@),
    {
        let ghost g = self@;
        let n = self.tiles.len();
        assert(self.width * self.height == n);
        let total = self.width * self.height;
        let mut best_visited: Vec<bool> = vec![false; total];
        let mut global_visited: Vec<bool> = vec![false; total];
        let mut best_count: usize = 0;
        let ghost mut best_start: int = 0;
        let mut start: usize = 0;
        proof {
            assert forall|i: int| 0 <= i < total implies (#[trigger] global_visited@[i] <==> covered(g, 0, i)) by {
            }
        }
        while start < total
            invariant
                g == self@,
                g.wf(),
                total == g.tiles.len(),
                largest_inv(g, start as int, global_visited@, best_visited@, best_count as int, best_start),
            decreases total - start,
        {
            proof {
                lemma_cell_of(g, start as int);
                lemma_index_coords(g.width, cell_of(g, start as int).0, cell_of(g, start as int).1);
            }
            if global_visited[start] || self.tiles[start] == TileType::Water {
                proof {
                    lemma_largest_skip(g, start as int, global_visited@, best_visited@, best_count as int, best_start);
                }
            } else {
                let ghost global0 = global_visited@;
                let (visited, count) = flood(self, start, &mut global_visited);
                proof {
                    lemma_largest_flood(g, start as int, global0, best_visited@, best_count as int, best_start,
                        global_visited@, visited@, count as int);
                }
                if count > best_count {
                    best_count = count;
                    best_visited = visited;
                    proof {
                        best_start = start as int;
                    }
                }
            }
            start = start + 1;
        }
        proof {
            if exists|i: int| 0 <= i < g.tiles.len() && g.walkable(#[trigger] cell_of(g, i).0, cell_of(g, i).1) {
                let i = choose|i: int| 0 <= i < g.tiles.len() && g.walkable(#[trigger] cell_of(g, i).0, cell_of(g, i).1);
                assert(best_count > 0);
                assert forall|i: int| 0 <= i < g.tiles.len() && g.walkable(cell_of(g, i).0, cell_of(g, i).1)
                    implies count_true(#[trigger] component(g, cell_of(g, i))) <= count_true(best_visited@)
                        && (i < best_start ==> count_true(component(g, cell_of(g, i))) < count_true(best_visited@)) by {
                    lemma_walkable_covered(g, total as int, i);
                    assert(global_visited@[i]);
                }
                assert(component(g, cell_of(g, best_start)) == best_visited@);
            }
        }
        best_visited
    }
}

} // verus!
