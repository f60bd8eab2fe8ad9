//! The rules of the colony: ids, building placement, colonist task choice and
//! task transitions.

use vstd::prelude::*;

use crate::events::{BuildingType, ColonistTask, TileType};
use crate::pathfinding::{
    abs, adjacent, can_reach_beside, cell, find_path, find_path_adjacent, is_best_route_beside,
    is_occupied, is_route, is_shortest_route, reachable, standable, beside,
};
use crate::random::{random_range, thread_rng};
use crate::text::{decimal, push_decimal};
use crate::world::{Grid, World};

verus! {

/// Cell of a colonist or a building.
#[derive(Clone, Copy, Debug, PartialEq, Eq, Structural)]
pub struct Position {
    pub x: i32,
    pub y: i32,
}

/// Identity of a colonist.
#[derive(Clone, Debug)]
pub struct ColonistTag {
    pub id: u32,
    pub name: String,
}

/// Identity and kind of a building.
#[derive(Clone, Copy, Debug, PartialEq, Eq, Structural)]
pub struct Building {
    pub id: u32,
    pub building_type: BuildingType,
}

/// A colonist's current task and the cell it is heading for.
#[derive(Clone, Copy, Debug)]
pub struct CurrentTask {
    pub task: ColonistTask,
    pub target: Option<(i32, i32)>,
}

impl Default for CurrentTask {
    fn default() -> (t: CurrentTask)
        ensures
            t.task == ColonistTask::Idle,
            t.target is None,
    {
        CurrentTask { task: ColonistTask::Idle, target: None }
    }
}

/// Task that follows arriving at the end of a path.
pub open spec fn task_on_arrival(task: ColonistTask) -> ColonistTask {
    match task {
        ColonistTask::MovingToFood => ColonistTask::Eating,
        ColonistTask::MovingToBed => ColonistTask::Sleeping,
        ColonistTask::Wandering => ColonistTask::Idle,
        other => other,
    }
}

impl CurrentTask {
    /// A colonist reached the end of its path: walking to food turns into
    /// eating, walking to bed into sleeping, and wandering ends (forgetting the
    /// target); any other task is kept.
    pub fn arrive(&mut self)
        ensures
            final(self).task == task_on_arrival(old(self).task),
            final(self).target == if old(self).task == ColonistTask::Wandering {
                None
            } else {
                old(self).target
            },
    {
        match self.task {
            ColonistTask::MovingToFood => self.task = ColonistTask::Eating,
            ColonistTask::MovingToBed => self.task = ColonistTask::Sleeping,
            ColonistTask::Wandering => {
                self.task = ColonistTask::Idle;
                self.target = None;
            },
            _ => {},
        }
    }

    /// Eating or sleeping is over: the colonist becomes idle with no target.
    pub fn finish_activity(&mut self)
        ensures
            final(self).task == ColonistTask::Idle,
            final(self).target is None,
    {
        self.task = ColonistTask::Idle;
        self.target = None;
    }
}

/// Hands out entity ids: 1, 2, 3, ...
pub struct IdCounter {
    next: u32,
}

impl View for IdCounter {
    type V = nat;

    /// The id the next call hands out.
    closed spec fn view(&self) -> nat {
        self.next as nat
    }
}

impl IdCounter {
    /// A counter whose first id is 1.
    pub fn new() -> (c: IdCounter)
        ensures
            c@ == 1,
    {
        IdCounter { next: 1 }
    }

    /// Whether another id can be handed out.
    pub fn can_issue(&self) -> (b: bool)
        ensures
            b == (self@ < u32::MAX),
    {
        self.next < u32::MAX
    }

    /// Returns the next id and moves past it.
    pub fn next_id(&mut self) -> (id: u32)
        requires
            old(self)@ < u32::MAX,
        ensures
            id == old(self)@,
            final(self)@ == old(self)@ + 1,
    {
        let id = self.next;
        self.next = self.next + 1;
        id
    }
}

/// Law: ids handed out by successive calls strictly increase, so no id repeats.
pub proof fn law_ids_increase(c0: nat, id1: nat, c1: nat, id2: nat, c2: nat)
    requires
        id1 == c0,
        c1 == c0 + 1,
        id2 == c1,
        c2 == c1 + 1,
    ensures
        id1 < id2,
        id2 < c2,
{
}

/// Why a building cannot be placed.
#[derive(Clone, Copy, Debug, PartialEq, Eq, Structural)]
pub enum PlacementError {
    OutOfBounds,
    OnWater,
    Occupied,
}

/// Outcome of placing a building at `(x, y)` next to buildings at the
/// listed cells: outside the grid, then water, then an existing building are
/// refused, in that order.
pub open spec fn placement_outcome(g: Grid, buildings: Seq<(i32, i32)>, x: int, y: int) -> Result<(), PlacementError> {
    if !g.in_bounds(x, y) {
        Err(PlacementError::OutOfBounds)
    } else if !g.walkable(x, y) {
        Err(PlacementError::OnWater)
    } else if is_occupied(buildings, (x, y)) {
        Err(PlacementError::Occupied)
    } else {
        Ok(())
    }
}

/// Checks whether a building may be placed at `(x, y)`.
pub fn check_placement(world: &World, buildings: &[(i32, i32)], x: i32, y: i32) -> (r: Result<(), PlacementError>)
    requires
        world@.wf(),
    ensures
        r == placement_outcome(world@, buildings@, x as int, y as int),
{
    if !world.in_bounds(x, y) {
        return Err(PlacementError::OutOfBounds);
    }
    if !world.is_walkable(x, y) {
        return Err(PlacementError::OnWater);
    }
    let mut i: usize = 0;
    while i < buildings.len()
        invariant
            0 <= i <= buildings@.len(),
            world@.in_bounds(x as int, y as int),
            world@.walkable(x as int, y as int),
            forall|j: int| 0 <= j < i ==> cell(#[trigger] buildings@[j]) != (x as int, y as int),
        decreases buildings@.len() - i,
    {
        let b = buildings[i];
        if b.0 == x && b.1 == y {
            assert(cell(buildings@[i as int]) == (x as int, y as int));
            assert(is_occupied(buildings@, (x as int, y as int)));
            assert(world@.in_bounds(x as int, y as int) && world@.walkable(x as int, y as int));
            return Err(PlacementError::Occupied);
        }
        i = i + 1;
    }
    Ok(())
}

impl PlacementError {
    /// The message reported for a refused placement at `(x, y)`.
    pub open spec fn spec_message(self, x: int, y: int) -> Seq<char> {
        match self {
            PlacementError::OutOfBounds => "Position ("@ + decimal(x) + ", "@ + decimal(y) + ") is out of bounds"@,
            PlacementError::OnWater => "Cannot place building on water at ("@ + decimal(x) + ", "@ + decimal(y) + ")"@,
            PlacementError::Occupied => "Tile ("@ + decimal(x) + ", "@ + decimal(y) + ") is already occupied by a building"@,
        }
    }

    /// Renders the message reported for a refused placement at `(x, y)`.
    pub fn message(&self, x: i32, y: i32) -> (m: String)
        ensures
            m@ == self.spec_message(x as int, y as int),
    {
        let mut m = String::new();
        match self {
            PlacementError::OutOfBounds => m.append("Position ("),
            PlacementError::OnWater => m.append("Cannot place building on water at ("),
            PlacementError::Occupied => m.append("Tile ("),
        }
        push_decimal(&mut m, x);
        m.append(", ");
        push_decimal(&mut m, y);
        match self {
            PlacementError::OutOfBounds => m.append(") is out of bounds"),
            PlacementError::OnWater => m.append(")"),
            PlacementError::Occupied => m.append(") is already occupied by a building"),
        }
        m
    }
}


/// A colonist at `s` can use the building at `t`: it already stands next to
/// it, or can walk to a standable cell next to it.
pub open spec fn can_use(g: Grid, walls: Seq<(i32, i32)>, s: (int, int), t: (int, int)) -> bool {
    adjacent(s, t) || can_reach_beside(g, walls, s, t)
}

/// `route` is what finding a path to the building at `t` gives: empty when
/// the colonist already stands next to it, else a best route to a cell beside it.
pub open spec fn serves(g: Grid, walls: Seq<(i32, i32)>, s: (int, int), t: (int, int), route: Seq<(i32, i32)>) -> bool {
    if adjacent(s, t) {
        route.len() == 0
    } else {
        exists|d: int| is_best_route_beside(g, walls, s, t, d, route)
    }
}

/// No way of using the building at `t` takes fewer than `n` steps (fewer
/// than or exactly `n` when `strict`).
pub open spec fn at_most_shortest(g: Grid, walls: Seq<(i32, i32)>, s: (int, int), t: (int, int), n: int, strict: bool) -> bool {
    if adjacent(s, t) {
        if strict { n < 0 } else { n <= 0 }
    } else {
        forall|e: int, other: Seq<(i32, i32)>|
            0 <= e < 4 && standable(g, walls, beside(t, e)) && is_route(g, walls, s, beside(t, e), other)
            ==> if strict { n < other.len() } else { n <= other.len() }
    }
}

/// `route` serves `targets[k]`, no target is nearer, and every earlier target
/// is strictly farther.
pub open spec fn is_nearest_choice(
    g: Grid,
    walls: Seq<(i32, i32)>,
    s: (int, int),
    targets: Seq<(i32, i32)>,
    k: int,
    route: Seq<(i32, i32)>,
) -> bool {
    &&& 0 <= k < targets.len()
    &&& serves(g, walls, s, cell(targets[k]), route)
    &&& forall|j: int| 0 <= j < targets.len()
        ==> at_most_shortest(g, walls, s, cell(#[trigger] targets[j]), route.len() as int, j < k)
}

/// Coordinates of every target are close enough to `(sx, sy)` for distances to fit an `i32`.
pub open spec fn targets_in_range(sx: int, sy: int, targets: Seq<(i32, i32)>) -> bool {
    forall|j: int| 0 <= j < targets.len() ==> abs(sx - (#[trigger] targets[j]).0) + abs(sy - targets[j].1) <= i32::MAX
}

proof fn lemma_serves_shortest(g: Grid, walls: Seq<(i32, i32)>, s: (int, int), t: (int, int), p: Seq<(i32, i32)>, n: int)
    requires
        serves(g, walls, s, t, p),
    ensures
        n <= p.len() ==> at_most_shortest(g, walls, s, t, n, false),
        n < p.len() ==> at_most_shortest(g, walls, s, t, n, true),
{
    if !adjacent(s, t) {
        let d = choose|d: int| is_best_route_beside(g, walls, s, t, d, p);
    }
}

proof fn lemma_shorter(g: Grid, walls: Seq<(i32, i32)>, s: (int, int), t: (int, int), n: int, m: int, strict: bool)
    requires
        at_most_shortest(g, walls, s, t, n, strict),
        m <= n,
    ensures
        at_most_shortest(g, walls, s, t, m, strict),
        m < n ==> at_most_shortest(g, walls, s, t, m, true),
{
}

/// Finds the building among `targets` that the colonist at `(sx, sy)` can
/// use soonest, with the route there. Targets are tried in order and a later
/// one replaces the current choice only when strictly nearer.
pub fn find_nearest(
    world: &World,
    sx: i32,
    sy: i32,
    targets: &[(i32, i32)],
    walls: &[(i32, i32)],
) -> (result: Option<(i32, i32, Vec<(i32, i32)>)>)
    requires
        world@.wf(),
        targets_in_range(sx as int, sy as int, targets@),
    ensures
        match result {
            Some((bx, by, route)) => exists|k: int|
                is_nearest_choice(world@, walls@, (sx as int, sy as int), targets@, k, route@)
                && (#[trigger] targets@[k]) == (bx, by),
            None => forall|j: int| 0 <= j < targets@.len()
                ==> !can_use(world@, walls@, (sx as int, sy as int), cell(#[trigger] targets@[j])),
        },
{
    let ghost g = world@;
    let ghost occ = walls@;
    let ghost s = (sx as int, sy as int);
    let mut best: Option<(i32, i32, Vec<(i32, i32)>)> = None;
    let ghost mut best_k: int = 0;
    let mut i: usize = 0;
    while i < targets.len()
        invariant
            g == world@,
            g.wf(),
            occ == walls@,
            s == (sx as int, sy as int),
            targets_in_range(sx as int, sy as int, targets@),
            0 <= i <= targets@.len(),
            best is None ==> forall|j: int| 0 <= j < i ==> !can_use(g, occ, s, cell(#[trigger] targets@[j])),
            best matches Some((bx, by, b)) ==> {
                &&& 0 <= best_k < i
                &&& targets@[best_k] == (bx, by)
                &&& serves(g, occ, s, cell(targets@[best_k]), b@)
                &&& forall|j: int| 0 <= j < i
                    ==> at_most_shortest(g, occ, s, cell(#[trigger] targets@[j]), b@.len() as int, j < best_k)
            },
        decreases targets@.len() - i,
    {
        let (tx, ty) = targets[i];
        assert(abs(sx - tx) + abs(sy - ty) <= i32::MAX);
        let found = find_path_adjacent(world, sx, sy, tx, ty, walls);
        let ghost t = (tx as int, ty as int);
        assert(cell(targets@[i as int]) == t);
        match found {
            Some(path) => {
                proof {
                    assert(serves(g, occ, s, t, path@));
                    lemma_serves_shortest(g, occ, s, t, path@, path@.len() as int);
                }
                let better = match &best {
                    None => true,
                    Some((_, _, bp)) => path.len() < bp.len(),
                };
                if better {
                    proof {
                        if let Some((_, _, bp)) = &best {
                            assert forall|j: int| 0 <= j < i implies
                                at_most_shortest(g, occ, s, cell(#[trigger] targets@[j]), path@.len() as int, j < i as int) by {
                                lemma_shorter(g, occ, s, cell(targets@[j]), bp@.len() as int, path@.len() as int, j < best_k);
                            }
                        }
                        best_k = i as int;
                    }
                    best = Some((tx, ty, path));
                } else {
                    proof {
                        if let Some((_, _, bp)) = &best {
                            lemma_serves_shortest(g, occ, s, t, path@, bp@.len() as int);
                        }
                    }
                }
            },
            None => {
                proof {
                    assert(!can_use(g, occ, s, t));
                }
            },
        }
        i = i + 1;
    }
    best
}


/// A task handed to an idle colonist: what to do, the path to walk and the
/// cell it heads for.
#[derive(Debug)]
pub struct Assignment {
    pub task: ColonistTask,
    pub path: Vec<(i32, i32)>,
    pub target: (i32, i32),
}

/// Some target of the list can be used from `s`.
pub open spec fn any_usable(g: Grid, walls: Seq<(i32, i32)>, s: (int, int), targets: Seq<(i32, i32)>) -> bool {
    exists|j: int| 0 <= j < targets.len() && can_use(g, walls, s, cell(#[trigger] targets[j]))
}

/// `a` sends the colonist to the nearest of `targets` with task `task`; a
/// colonist already standing next to that target starts at once on what
/// arriving there would begin (eating or sleeping).
pub open spec fn heads_for_nearest(
    g: Grid,
    walls: Seq<(i32, i32)>,
    s: (int, int),
    targets: Seq<(i32, i32)>,
    task: ColonistTask,
    a: Option<Assignment>,
) -> bool {
    a matches Some(a)
        && a.task == (if a.path@.len() == 0 { task_on_arrival(task) } else { task })
        && exists|k: int|
        is_nearest_choice(g, walls, s, targets, k, a.path@) && #[trigger] targets[k] == a.target
}

/// Seeking two needs in turn: when the first need is felt and one of its
/// buildings can be used, head for the nearest of them; otherwise the same
/// for the second need; otherwise nothing.
pub open spec fn seeks_in_order(
    g: Grid,
    walls: Seq<(i32, i32)>,
    s: (int, int),
    first: bool,
    first_targets: Seq<(i32, i32)>,
    first_task: ColonistTask,
    second: bool,
    second_targets: Seq<(i32, i32)>,
    second_task: ColonistTask,
    a: Option<Assignment>,
) -> bool {
    if first && any_usable(g, walls, s, first_targets) {
        heads_for_nearest(g, walls, s, first_targets, first_task, a)
    } else if second && any_usable(g, walls, s, second_targets) {
        heads_for_nearest(g, walls, s, second_targets, second_task, a)
    } else {
        a is None
    }
}

/// What an idle colonist does about its needs, lowest need first: when sleep
/// is lower than food (`sleep_first`) a tired colonist seeks a bed before a
/// hungry one seeks a berry bush, otherwise food comes first. A need whose
/// buildings cannot be used gives way to the other need.
pub open spec fn seeks_need(
    g: Grid,
    walls: Seq<(i32, i32)>,
    s: (int, int),
    hungry: bool,
    tired: bool,
    sleep_first: bool,
    bushes: Seq<(i32, i32)>,
    beds: Seq<(i32, i32)>,
    a: Option<Assignment>,
) -> bool {
    if sleep_first {
        seeks_in_order(g, walls, s, tired, beds, ColonistTask::MovingToBed, hungry, bushes, ColonistTask::MovingToFood, a)
    } else {
        seeks_in_order(g, walls, s, hungry, bushes, ColonistTask::MovingToFood, tired, beds, ColonistTask::MovingToBed, a)
    }
}

/// An idle colonist at `s` wandering towards `w`: it goes when `w` is
/// walkable, free of walls, reachable and not where it stands, along a
/// shortest route.
pub open spec fn wanders_to(g: Grid, walls: Seq<(i32, i32)>, s: (int, int), w: (int, int), a: Option<Assignment>) -> bool {
    if g.walkable(w.0, w.1) && !is_occupied(walls, w) && reachable(g, walls, s, w) && w != s {
        a matches Some(a) && a.task == ColonistTask::Wandering && cell(a.target) == w
            && is_shortest_route(g, walls, s, w, a.path@)
    } else {
        a is None
    }
}

/// The task that arriving at the end of a walk with task `task` begins.
fn arrival_task(task: ColonistTask) -> (t: ColonistTask)
    ensures
        t == task_on_arrival(task),
{
    match task {
        ColonistTask::MovingToFood => ColonistTask::Eating,
        ColonistTask::MovingToBed => ColonistTask::Sleeping,
        ColonistTask::Wandering => ColonistTask::Idle,
        other => other,
    }
}

/// Sends the colonist at `(x, y)` to the nearest usable building among
/// `targets` with task `task`, if any can be used.
fn seek_one(
    world: &World,
    x: i32,
    y: i32,
    targets: &[(i32, i32)],
    walls: &[(i32, i32)],
    task: ColonistTask,
) -> (a: Option<Assignment>)
    requires
        world@.wf(),
        targets_in_range(x as int, y as int, targets@),
    ensures
        if any_usable(world@, walls@, (x as int, y as int), targets@) {
            heads_for_nearest(world@, walls@, (x as int, y as int), targets@, task, a)
        } else {
            a is None
        },
{
    let ghost s = (x as int, y as int);
    match find_nearest(world, x, y, targets, walls) {
        Some((bx, by, path)) => {
            let t = if path.len() == 0 { arrival_task(task) } else { task };
            let a = Assignment { task: t, path, target: (bx, by) };
            proof {
                let k = choose|k: int| is_nearest_choice(world@, walls@, s, targets@, k, a.path@) && #[trigger] targets@[k] == (bx, by);
                assert(any_usable(world@, walls@, s, targets@)) by {
                    assert(can_use(world@, walls@, s, cell(targets@[k])));
                }
            }
            Some(a)
        },
        None => None,
    }
}

/// Picks a task for an idle colonist at `(x, y)` from its needs (`hungry`,
/// `tired`, and `sleep_first` when sleep is the lower need), the berry
/// bushes and beds on the map and the walls in the way.
pub fn seek_need(
    world: &World,
    x: i32,
    y: i32,
    hungry: bool,
    tired: bool,
    sleep_first: bool,
    bushes: &[(i32, i32)],
    beds: &[(i32, i32)],
    walls: &[(i32, i32)],
) -> (a: Option<Assignment>)
    requires
        world@.wf(),
        hungry ==> targets_in_range(x as int, y as int, bushes@),
        tired ==> targets_in_range(x as int, y as int, beds@),
    ensures
        seeks_need(world@, walls@, (x as int, y as int), hungry, tired, sleep_first, bushes@, beds@, a),
{
    if sleep_first {
        if tired {
            let a = seek_one(world, x, y, beds, walls, ColonistTask::MovingToBed);
            if a.is_some() {
                return a;
            }
        }
        if hungry {
            return seek_one(world, x, y, bushes, walls, ColonistTask::MovingToFood);
        }
        None
    } else {
        if hungry {
            let a = seek_one(world, x, y, bushes, walls, ColonistTask::MovingToFood);
            if a.is_some() {
                return a;
            }
        }
        if tired {
            return seek_one(world, x, y, beds, walls, ColonistTask::MovingToBed);
        }
        None
    }
}

/// Law: the needs a colonist feels decide what it seeks. A hungry colonist
/// that can use a berry bush heads for the nearest one unless it is also
/// tired, sleep is its lower need and it can use a bed; a tired colonist that
/// can use a bed heads for the nearest one unless it is also hungry, food is
/// its lower need (or the needs are equal) and it can use a bush. A colonist
/// that cannot use anything it needs is given nothing.
pub proof fn law_needs_decide_what_is_sought(
    g: Grid,
    walls: Seq<(i32, i32)>,
    s: (int, int),
    hungry: bool,
    tired: bool,
    sleep_first: bool,
    bushes: Seq<(i32, i32)>,
    beds: Seq<(i32, i32)>,
    a: Option<Assignment>,
)
    requires
        seeks_need(g, walls, s, hungry, tired, sleep_first, bushes, beds, a),
    ensures
        hungry && any_usable(g, walls, s, bushes) && !(tired && sleep_first && any_usable(g, walls, s, beds))
            ==> heads_for_nearest(g, walls, s, bushes, ColonistTask::MovingToFood, a),
        tired && any_usable(g, walls, s, beds) && !(hungry && !sleep_first && any_usable(g, walls, s, bushes))
            ==> heads_for_nearest(g, walls, s, beds, ColonistTask::MovingToBed, a),
        !(hungry && any_usable(g, walls, s, bushes)) && !(tired && any_usable(g, walls, s, beds)) ==> a is None,
        a matches Some(x) ==> (x.task == ColonistTask::MovingToFood || x.task == ColonistTask::Eating) && hungry
            || (x.task == ColonistTask::MovingToBed || x.task == ColonistTask::Sleeping) && tired,
{
}

/// Law: wandering goes exactly to the cells a colonist may stand on. When
/// the drawn cell is inside the grid and not water (grass or sand), holds no
/// wall, differs from where the colonist stands and can be reached, the
/// colonist wanders there along a shortest route; otherwise it is given
/// nothing.
pub proof fn law_wandering_goes_to_free_land(g: Grid, walls: Seq<(i32, i32)>, s: (int, int), w: (int, int), a: Option<Assignment>)
    requires
        g.wf(),
        wanders_to(g, walls, s, w, a),
    ensures
        ({
            let land = 0 <= w.0 < g.width && 0 <= w.1 < g.height && g.tiles[w.1 * g.width + w.0] != TileType::Water;
            let wall = exists|i: int| 0 <= i < walls.len() && walls[i].0 == w.0 && #[trigger] walls[i].1 == w.1;
            if land && !wall && w != s && reachable(g, walls, s, w) {
                a matches Some(x) && x.task == ColonistTask::Wandering && x.target.0 == w.0 && x.target.1 == w.1
                    && is_shortest_route(g, walls, s, w, x.path@)
            } else {
                a is None
            }
        }),
{
    let wall = exists|i: int| 0 <= i < walls.len() && walls[i].0 == w.0 && #[trigger] walls[i].1 == w.1;
    if wall {
        let i = choose|i: int| 0 <= i < walls.len() && walls[i].0 == w.0 && #[trigger] walls[i].1 == w.1;
        assert(cell(walls[i]) == w);
    }
    if is_occupied(walls, w) {
        let i = choose|i: int| 0 <= i < walls.len() && cell(#[trigger] walls[i]) == w;
        assert(walls[i].0 == w.0 && walls[i].1 == w.1);
    }
}

/// Whether a wall stands at `(x, y)`.
fn on_wall(walls: &[(i32, i32)], x: i32, y: i32) -> (b: bool)
    ensures
        b == is_occupied(walls@, (x as int, y as int)),
{
    let mut i: usize = 0;
    while i < walls.len()
        invariant
            0 <= i <= walls@.len(),
            forall|j: int| 0 <= j < i ==> cell(#[trigger] walls@[j]) != (x as int, y as int),
        decreases walls@.len() - i,
    {
        let c = walls[i];
        if c.0 == x && c.1 == y {
            assert(cell(walls@[i as int]) == (x as int, y as int));
            return true;
        }
        i = i + 1;
    }
    false
}

/// Sends an idle colonist at `(x, y)` wandering to `(x + dx, y + dy)`.
pub fn wander_to(world: &World, x: i32, y: i32, dx: i32, dy: i32, walls: &[(i32, i32)]) -> (a: Option<Assignment>)
    requires
        world@.wf(),
    ensures
        wanders_to(world@, walls@, (x as int, y as int), (x + dx, y + dy), a),
{
    let wx = x as i64 + dx as i64;
    let wy = y as i64 + dy as i64;
    if wx < 0 || wx >= world.width as i64 || wy < 0 || wy >= world.height as i64 {
        return None;
    }
    let wx = wx as i32;
    let wy = wy as i32;
    if !world.is_walkable(wx, wy) {
        return None;
    }
    let ghost s = (x as int, y as int);
    let ghost w = (wx as int, wy as int);
    if on_wall(walls, wx, wy) {
        return None;
    }
    match find_path(world, x, y, wx, wy, walls) {
        Some(path) => {
            proof {
                assert(is_route(world@, walls@, s, w, path@));
                assert(reachable(world@, walls@, s, w));
                if w == s {
                    assert(is_route(world@, walls@, s, w, Seq::<(i32, i32)>::empty()));
                }
            }
            if path.len() > 0 {
                Some(Assignment { task: ColonistTask::Wandering, path, target: (wx, wy) })
            } else {
                None
            }
        },
        None => None,
    }
}

/// An idle colonist has an urgent need for which buildings exist: it is
/// hungry and berry bushes stand somewhere, or tired and beds do.
pub open spec fn has_urgent_need(hungry: bool, tired: bool, bushes: Seq<(i32, i32)>, beds: Seq<(i32, i32)>) -> bool {
    (hungry && bushes.len() > 0) || (tired && beds.len() > 0)
}

/// Picks a task for an idle colonist: its needs first, the lower need
/// (`sleep_first` when sleep is lower than food) before the other. A colonist with an
/// urgent need whose buildings it cannot reach stays idle; one without an
/// urgent need wanders to a cell up to three steps away on each axis, drawn
/// at random.
pub fn choose_task(
    world: &World,
    x: i32,
    y: i32,
    hungry: bool,
    tired: bool,
    sleep_first: bool,
    bushes: &[(i32, i32)],
    beds: &[(i32, i32)],
    walls: &[(i32, i32)],
) -> (a: Option<Assignment>)
    requires
        world@.wf(),
        hungry ==> targets_in_range(x as int, y as int, bushes@),
        tired ==> targets_in_range(x as int, y as int, beds@),
    ensures
        ({
            let s = (x as int, y as int);
            if has_urgent_need(hungry, tired, bushes@, beds@) {
                seeks_need(world@, walls@, s, hungry, tired, sleep_first, bushes@, beds@, a)
            } else {
                exists|dx: int, dy: int| -3 <= dx <= 3 && -3 <= dy <= 3
                    && #[trigger] wanders_to(world@, walls@, s, (x + dx, y + dy), a)
            }
        }),
{
    let sought = seek_need(world, x, y, hungry, tired, sleep_first, bushes, beds, walls);
    if sought.is_some() || (hungry && bushes.len() > 0) || (tired && beds.len() > 0) {
        return sought;
    }
    let mut rng = thread_rng();
    let dx = random_range(&mut rng, -3, 4);
    let dy = random_range(&mut rng, -3, 4);
    let a = wander_to(world, x, y, dx, dy, walls);
    assert(wanders_to(world@, walls@, (x as int, y as int), (x + dx as int, y + dy as int), a));
    a
}

/// The cell a path heads for next, if it is not finished.
pub fn next_step(steps: &Vec<(i32, i32)>, current_step: usize) -> (r: Option<(i32, i32)>)
    ensures
        r == if current_step < steps@.len() { Some(steps@[current_step as int]) } else { None::<(i32, i32)> },
{
    if current_step < steps.len() {
        Some(steps[current_step])
    } else {
        None
    }
}

/// Names given to colonists, in spawn order, starting over after the last.
pub open spec fn colonist_name_spec(k: int) -> Seq<char> {
    if k == 0 {
        "Ada"@
    } else if k == 1 {
        "Rex"@
    } else if k == 2 {
        "Nova"@
    } else if k == 3 {
        "Colt"@
    } else if k == 4 {
        "Iris"@
    } else if k == 5 {
        "Juno"@
    } else if k == 6 {
        "Axel"@
    } else {
        "Wren"@
    }
}

/// Number of distinct colonist names.
pub const COLONIST_NAME_COUNT: usize = 8;

/// Name of the `k`-th colonist spawned (counting from zero).
pub fn colonist_name(k: usize) -> (name: String)
    ensures
        name@ == colonist_name_spec((k % COLONIST_NAME_COUNT) as int),
{
    let r = k % COLONIST_NAME_COUNT;
    if r == 0 {
        String::from_str("Ada")
    } else if r == 1 {
        String::from_str("Rex")
    } else if r == 2 {
        String::from_str("Nova")
    } else if r == 3 {
        String::from_str("Colt")
    } else if r == 4 {
        String::from_str("Iris")
    } else if r == 5 {
        String::from_str("Juno")
    } else if r == 6 {
        String::from_str("Axel")
    } else {
        String::from_str("Wren")
    }
}

/// The spawn position that a drawn cell `(x, y)` gives: the cell itself when
/// a colonist can stand there, nothing otherwise.
pub fn spawn_candidate(world: &World, x: i32, y: i32) -> (p: Option<Position>)
    requires
        world@.wf(),
    ensures
        p == (if world@.walkable(x as int, y as int) {
            Some(Position { x, y })
        } else {
            None
        }),
{
    if world.is_walkable(x, y) {
        Some(Position { x, y })
    } else {
        None
    }
}

/// One attempt at a spawn position: a cell drawn uniformly from the grid,
/// kept only when walkable. Attempts are repeated until one succeeds; on a
/// world whose every cell is walkable the first attempt does.
pub fn sample_spawn_position(world: &World) -> (p: Option<Position>)
    requires
        world@.wf(),
        world.width > 0,
        world.height > 0,
    ensures
        p matches Some(p) ==> world@.walkable(p.x as int, p.y as int),
        (forall|a: int, b: int| world@.in_bounds(a, b) ==> #[trigger] world@.walkable(a, b))
            ==> p is Some,
{
    let mut rng = thread_rng();
    let x = random_range(&mut rng, 0, world.width as i32);
    let y = random_range(&mut rng, 0, world.height as i32);
    spawn_candidate(world, x, y)
}


/// Places a building of kind `building_type` at `(x, y)` next to the
/// buildings at the listed cells. On success the building takes the next id;
/// on refusal the reason's message is returned and no id is used.
pub fn place_building(
    world: &World,
    buildings: &[(i32, i32)],
    ids: &mut IdCounter,
    building_type: BuildingType,
    x: i32,
    y: i32,
) -> (r: Result<Building, String>)
    requires
        world@.wf(),
        placement_outcome(world@, buildings@, x as int, y as int) is Ok ==> old(ids)@ < u32::MAX,
    ensures
        match placement_outcome(world@, buildings@, x as int, y as int) {
            Ok(()) => r matches Ok(b) && b.id == old(ids)@ && b.building_type == building_type
                && final(ids)@ == old(ids)@ + 1,
            Err(e) => r matches Err(m) && m@ == e.spec_message(x as int, y as int)
                && final(ids)@ == old(ids)@,
        },
{
    match check_placement(world, buildings, x, y) {
        Ok(()) => {
            let id = ids.next_id();
            Ok(Building { id, building_type })
        },
        Err(e) => Err(e.message(x, y)),
    }
}

/// The buildings stand at the listed cells with the listed ids: each cell
/// inside the grid and not water, no two on one cell, and every id distinct
/// and below `next`, the id the counter hands out next.
pub open spec fn valid_buildings(g: Grid, sites: Seq<(i32, i32)>, ids: Seq<nat>, next: nat) -> bool {
    &&& ids.len() == sites.len()
    &&& forall|i: int| 0 <= i < sites.len() ==> {
        let c = cell(#[trigger] sites[i]);
        g.in_bounds(c.0, c.1) && g.walkable(c.0, c.1)
    }
    &&& forall|i: int, j: int| 0 <= i < j < sites.len() ==> cell(#[trigger] sites[i]) != cell(#[trigger] sites[j])
    &&& forall|i: int| 0 <= i < ids.len() ==> #[trigger] ids[i] < next
    &&& forall|i: int, j: int| 0 <= i < j < ids.len() ==> #[trigger] ids[i] != #[trigger] ids[j]
}

/// Law: placing buildings keeps them valid. A placement that succeeds adds a
/// building at `(x, y)` with the id the counter held, and the counter moves
/// one past it; then no two buildings share a cell, none stands on water or
/// outside the grid, and ids stay distinct. A refused placement changes nothing.
pub proof fn law_placement_keeps_buildings_valid(g: Grid, sites: Seq<(i32, i32)>, ids: Seq<nat>, next: nat, x: i32, y: i32)
    requires
        valid_buildings(g, sites, ids, next),
    ensures
        placement_outcome(g, sites, x as int, y as int) is Ok
            ==> valid_buildings(g, sites.push((x, y)), ids.push(next), next + 1),
{
    if placement_outcome(g, sites, x as int, y as int) is Ok {
        let s2 = sites.push((x, y));
        let i2 = ids.push(next);
        assert forall|i: int, j: int| 0 <= i < j < s2.len() implies cell(#[trigger] s2[i]) != cell(#[trigger] s2[j]) by {
            if j == sites.len() {
                if cell(s2[i]) == cell(s2[j]) {
                    assert(cell(sites[i]) == (x as int, y as int));
                    assert(is_occupied(sites, (x as int, y as int)));
                }
            } else {
                assert(s2[i] == sites[i] && s2[j] == sites[j]);
            }
        }
        assert forall|i: int| 0 <= i < s2.len() implies {
            let c = cell(#[trigger] s2[i]);
            g.in_bounds(c.0, c.1) && g.walkable(c.0, c.1)
        } by {
            if i < sites.len() {
                assert(s2[i] == sites[i]);
            }
        }
        assert forall|i: int| 0 <= i < i2.len() implies #[trigger] i2[i] < next + 1 by {
            if i < ids.len() {
                assert(i2[i] == ids[i]);
            }
        }
        assert forall|i: int, j: int| 0 <= i < j < i2.len() implies #[trigger] i2[i] != #[trigger] i2[j] by {
            assert(i2[i] == ids[i]);
            if j < ids.len() {
                assert(i2[j] == ids[j]);
            }
        }
    }
}

/// Law: placement refuses exactly the bad cells. A cell outside the grid is
/// refused as out of bounds, a water cell inside it as water, a land cell
/// (grass or sand) that a building already holds as occupied; every other
/// cell, any land cell that is free, is accepted.
pub proof fn law_placement_refuses_exactly_bad_cells(g: Grid, buildings: Seq<(i32, i32)>, x: int, y: int)
    requires
        g.wf(),
    ensures
        ({
            let inside = 0 <= x < g.width && 0 <= y < g.height;
            let water = inside && g.tiles[y * g.width + x] == TileType::Water;
            let taken = exists|i: int| 0 <= i < buildings.len() && buildings[i].0 == x && #[trigger] buildings[i].1 == y;
            &&& (placement_outcome(g, buildings, x, y) == Err::<(), PlacementError>(PlacementError::OutOfBounds)) == !inside
            &&& (placement_outcome(g, buildings, x, y) == Err::<(), PlacementError>(PlacementError::OnWater)) == water
            &&& (placement_outcome(g, buildings, x, y) == Err::<(), PlacementError>(PlacementError::Occupied))
                == (inside && !water && taken)
            &&& (placement_outcome(g, buildings, x, y) is Ok) == (inside && !water && !taken)
        }),
{
    let taken = exists|i: int| 0 <= i < buildings.len() && buildings[i].0 == x && #[trigger] buildings[i].1 == y;
    if taken {
        let i = choose|i: int| 0 <= i < buildings.len() && buildings[i].0 == x && #[trigger] buildings[i].1 == y;
        assert(cell(buildings[i]) == (x, y));
    }
    if is_occupied(buildings, (x, y)) {
        let i = choose|i: int| 0 <= i < buildings.len() && cell(#[trigger] buildings[i]) == (x, y);
        assert(buildings[i].0 == x && buildings[i].1 == y);
    }
}

/// The cells of the buildings of one kind, in the order listed.
pub open spec fn sites_of(buildings: Seq<(BuildingType, (i32, i32))>, kind: BuildingType) -> Seq<(i32, i32)>
    decreases buildings.len(),
{
    if buildings.len() == 0 {
        Seq::empty()
    } else {
        let rest = sites_of(buildings.drop_last(), kind);
        if buildings.last().0 == kind {
            rest.push(buildings.last().1)
        } else {
            rest
        }
    }
}

/// Where the beds, berry bushes and walls stand.
pub struct BuildingSites {
    pub beds: Vec<(i32, i32)>,
    pub bushes: Vec<(i32, i32)>,
    pub walls: Vec<(i32, i32)>,
}

/// Sorts the listed buildings by kind, keeping their order.
pub fn collect_sites(buildings: &[(BuildingType, (i32, i32))]) -> (sites: BuildingSites)
    ensures
        sites.beds@ == sites_of(buildings@, BuildingType::Bed),
        sites.bushes@ == sites_of(buildings@, BuildingType::BerryBush),
        sites.walls@ == sites_of(buildings@, BuildingType::Wall),
{
    let mut beds: Vec<(i32, i32)> = Vec::new();
    let mut bushes: Vec<(i32, i32)> = Vec::new();
    let mut walls: Vec<(i32, i32)> = Vec::new();
    let mut i: usize = 0;
    while i < buildings.len()
        invariant
            0 <= i <= buildings@.len(),
            beds@ == sites_of(buildings@.take(i as int), BuildingType::Bed),
            bushes@ == sites_of(buildings@.take(i as int), BuildingType::BerryBush),
            walls@ == sites_of(buildings@.take(i as int), BuildingType::Wall),
        decreases buildings@.len() - i,
    {
        let (kind, pos) = buildings[i];
        proof {
            assert(buildings@.take(i + 1).drop_last() =~= buildings@.take(i as int));
            assert(buildings@.take(i + 1).last() == buildings@[i as int]);
        }
        match kind {
            BuildingType::Bed => beds.push(pos),
            BuildingType::BerryBush => bushes.push(pos),
            BuildingType::Wall => walls.push(pos),
        }
        i = i + 1;
    }
    proof {
        assert(buildings@.take(buildings@.len() as int) =~= buildings@);
    }
    BuildingSites { beds, bushes, walls }
}

} // verus!
