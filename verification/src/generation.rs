//! Random terrain and the rounds that make most of the land one connected region.

use vstd::prelude::*;

use crate::connectivity::{
    cell_of, component, connected, is_largest_component, lemma_cell_of, lemma_extend_connected,
    lemma_route_prefix,
};
use crate::events::TileType;
use crate::mask::count_true;
use crate::pathfinding::{adjacent, cell, is_route, passable, route_before};
use crate::random::{random_range, random_ratio, thread_rng};
use rand::rngs::ThreadRng;
use crate::world::{Grid, World, HEIGHT, WIDTH, lemma_index_coords, lemma_index_in_range};

verus! {

/// Terrain for a roll of a hundred-sided die: 15 in 100 water, 20 in 100
/// sand, the rest grass.
pub open spec fn spec_tile_for_roll(roll: int) -> TileType {
    if roll < 15 {
        TileType::Water
    } else if roll < 35 {
        TileType::Sand
    } else {
        TileType::Grass
    }
}

/// Mask of the tiles that are not water.
pub open spec fn land_mask(tiles: Seq<TileType>) -> Seq<bool> {
    Seq::new(tiles.len(), |i: int| tiles[i] != TileType::Water)
}

/// Number of tiles that are not water.
pub open spec fn land_count(tiles: Seq<TileType>) -> nat {
    count_true(land_mask(tiles))
}

/// Some connected region holds at least nine in ten land tiles.
pub open spec fn has_dominant_region(g: Grid) -> bool {
    &&& land_count(g.tiles) > 0
    &&& exists|s0: int| {
        &&& 0 <= s0 < g.tiles.len()
        &&& g.walkable(cell_of(g, s0).0, cell_of(g, s0).1)
        &&& 10 * count_true(#[trigger] component(g, cell_of(g, s0))) >= 9 * land_count(g.tiles)
    }
}

/// A round succeeds when some tile is land and the region holds at least
/// nine in ten land tiles.
pub open spec fn round_succeeds(old: Seq<TileType>, region: Seq<bool>) -> bool {
    land_count(old) > 0 && 10 * count_true(region) >= 9 * land_count(old)
}

/// After a successful round: a land tile outside the region becomes water
/// when its coin shows `true` and sand otherwise; every other tile is kept.
pub open spec fn settled_tile(t: TileType, in_region: bool, coin: bool) -> TileType {
    if t != TileType::Water && !in_region {
        if coin { TileType::Water } else { TileType::Sand }
    } else {
        t
    }
}

/// After a failed round: a water tile becomes grass when its coin shows
/// `true`; every other tile is kept.
pub open spec fn regrown_tile(t: TileType, coin: bool) -> TileType {
    if t == TileType::Water && coin { TileType::Grass } else { t }
}

/// The tiles after a successful round with the given region and coins.
pub open spec fn settled_tiles(old: Seq<TileType>, region: Seq<bool>, coins: Seq<bool>) -> Seq<TileType> {
    Seq::new(old.len(), |i: int| settled_tile(old[i], region[i], coins[i]))
}

/// The tiles after a failed round with the given coins.
pub open spec fn regrown_tiles(old: Seq<TileType>, coins: Seq<bool>) -> Seq<TileType> {
    Seq::new(old.len(), |i: int| regrown_tile(old[i], coins[i]))
}

/// The tiles a round leaves, given its outcome and one coin per tile.
pub open spec fn round_tiles(old: Seq<TileType>, region: Seq<bool>, done: bool, coins: Seq<bool>) -> Seq<TileType> {
    if done {
        settled_tiles(old, region, coins)
    } else {
        regrown_tiles(old, coins)
    }
}

/// One round of the connectivity check on `old`, given the largest region
/// `region` and the round's outcome `done`, produced `new` for some tossing
/// of one fair coin per tile.
pub open spec fn connectivity_round_result(old: Seq<TileType>, region: Seq<bool>, done: bool, new: Seq<TileType>) -> bool {
    &&& done == round_succeeds(old, region)
    &&& exists|coins: Seq<bool>| coins.len() == old.len() && new == #[trigger] round_tiles(old, region, done, coins)
}

/// Law: rolls of a hundred-sided die split into three bands. Rolls 0 to 14
/// (fifteen of them) give water, 15 to 34 (twenty) give sand and 35 to 99
/// (sixty-five) give grass.
pub proof fn law_rolls_split_into_terrain_bands(r: int)
    requires
        0 <= r < 100,
    ensures
        r < 15 <==> spec_tile_for_roll(r) == TileType::Water,
        15 <= r < 35 <==> spec_tile_for_roll(r) == TileType::Sand,
        35 <= r <==> spec_tile_for_roll(r) == TileType::Grass,
{
}

/// Law: a failed round never takes land away. Every tile that is not water
/// keeps its terrain, and a water tile either stays water or becomes grass;
/// so every land tile before the round is land after it.
pub proof fn law_failed_round_keeps_land(old: Seq<TileType>, region: Seq<bool>, new: Seq<TileType>)
    requires
        connectivity_round_result(old, region, false, new),
    ensures
        new.len() == old.len(),
        forall|i: int| 0 <= i < old.len() && old[i] != TileType::Water ==> #[trigger] new[i] == old[i],
        forall|i: int| 0 <= i < old.len() && old[i] == TileType::Water
            ==> #[trigger] new[i] == TileType::Water || new[i] == TileType::Grass,
        forall|i: int| 0 <= i < old.len() && #[trigger] land_mask(old)[i] ==> land_mask(new)[i],
        land_count(old) <= land_count(new),
{
    let coins = choose|coins: Seq<bool>| coins.len() == old.len() && new == #[trigger] round_tiles(old, region, false, coins);
    assert(new == regrown_tiles(old, coins));
    lemma_count_mono(land_mask(old), land_mask(new));
}

/// Law: regrowing water after a failed round keeps every land tile and turns
/// a water tile to grass exactly where its coin shows `true`.
pub proof fn law_regrowth_only_turns_water_to_grass(old: Seq<TileType>, coins: Seq<bool>)
    requires
        coins.len() == old.len(),
    ensures
        ({
            let new = regrown_tiles(old, coins);
            &&& new.len() == old.len()
            &&& forall|i: int| 0 <= i < old.len() && old[i] != TileType::Water ==> #[trigger] new[i] == old[i]
            &&& forall|i: int| 0 <= i < old.len() && old[i] == TileType::Water
                ==> #[trigger] new[i] == (if coins[i] { TileType::Grass } else { TileType::Water })
        }),
{
}

/// Law: settling after a successful round keeps the region and the water,
/// and turns each land tile outside the region to water or sand, water
/// exactly where its coin shows `true`.
pub proof fn law_settling_only_touches_stray_land(old: Seq<TileType>, region: Seq<bool>, coins: Seq<bool>)
    requires
        coins.len() == old.len(),
        region.len() == old.len(),
    ensures
        ({
            let new = settled_tiles(old, region, coins);
            &&& new.len() == old.len()
            &&& forall|i: int| 0 <= i < old.len() && (old[i] == TileType::Water || region[i])
                ==> #[trigger] new[i] == old[i]
            &&& forall|i: int| 0 <= i < old.len() && old[i] != TileType::Water && !region[i]
                ==> #[trigger] new[i] == (if coins[i] { TileType::Water } else { TileType::Sand })
        }),
{
}

/// Counting a prefix one more entry.
proof fn lemma_count_take(s: Seq<bool>, i: int)
    requires
        0 <= i < s.len(),
    ensures
        count_true(s.take(i + 1)) == count_true(s.take(i)) + if s[i] { 1nat } else { 0nat },
{
    assert(s.take(i + 1).drop_last() =~= s.take(i));
}

/// A mask that is pointwise below another counts no more.
proof fn lemma_count_mono(s: Seq<bool>, t: Seq<bool>)
    requires
        s.len() == t.len(),
        forall|i: int| 0 <= i < s.len() && #[trigger] s[i] ==> t[i],
    ensures
        count_true(s) <= count_true(t),
    decreases s.len(),
{
    if s.len() > 0 {
        lemma_count_mono(s.drop_last(), t.drop_last());
    }
}

/// The start of the largest region, when some tile is land.
proof fn lemma_region_start(g: Grid, region: Seq<bool>) -> (s0: int)
    requires
        g.wf(),
        is_largest_component(g, region),
        land_count(g.tiles) > 0,
    ensures
        0 <= s0 < g.tiles.len(),
        g.walkable(cell_of(g, s0).0, cell_of(g, s0).1),
        region == component(g, cell_of(g, s0)),
        region[s0],
{
    let total = g.tiles.len() as int;
    if forall|i: int| 0 <= i < total ==> !land_mask(g.tiles)[i] {
        crate::mask::lemma_count_all_false(land_mask(g.tiles));
        assert(false);
    }
    let k = choose|i: int| 0 <= i < total && land_mask(g.tiles)[i];
    lemma_cell_of(g, k);
    assert(g.walkable(cell_of(g, k).0, cell_of(g, k).1));
    let s0 = choose|s0: int| {
        &&& 0 <= s0 < g.tiles.len()
        &&& g.walkable(cell_of(g, s0).0, cell_of(g, s0).1)
        &&& region == #[trigger] component(g, cell_of(g, s0))
        &&& forall|i: int| 0 <= i < g.tiles.len() && g.walkable(cell_of(g, i).0, cell_of(g, i).1)
            ==> count_true(#[trigger] component(g, cell_of(g, i))) <= count_true(region)
                && (i < s0 ==> count_true(component(g, cell_of(g, i))) < count_true(region))
    };
    let s = cell_of(g, s0);
    lemma_cell_of(g, s0);
    assert(is_route(g, Seq::empty(), s, s, Seq::<(i32, i32)>::empty()));
    s0
}

/// After a successful round, region tiles are unchanged and land only shrank.
proof fn lemma_round_tiles(g: Grid, region: Seq<bool>, g2: Grid)
    requires
        g.wf(),
        g2.width == g.width,
        g2.height == g.height,
        region.len() == g.tiles.len(),
        connectivity_round_result(g.tiles, region, true, g2.tiles),
    ensures
        g2.wf(),
        forall|x: int, y: int| g.in_bounds(x, y) && region[g.index_of(x, y)]
            ==> #[trigger] g2.tile_at(x, y) == g.tile_at(x, y),
        forall|x: int, y: int| #[trigger] g2.walkable(x, y) ==> g.walkable(x, y),
        forall|i: int| 0 <= i < g.tiles.len() && #[trigger] land_mask(g2.tiles)[i] ==> land_mask(g.tiles)[i],
{
    let coins = choose|coins: Seq<bool>| coins.len() == g.tiles.len()
        && g2.tiles == #[trigger] round_tiles(g.tiles, region, true, coins);
    assert(g2.tiles.len() == g.tiles.len());
    assert forall|x: int, y: int| g.in_bounds(x, y) && region[g.index_of(x, y)]
        implies #[trigger] g2.tile_at(x, y) == g.tile_at(x, y) by {
        lemma_index_in_range(g, x, y);
    }
    assert forall|x: int, y: int| #[trigger] g2.walkable(x, y) implies g.walkable(x, y) by {
        lemma_index_in_range(g, x, y);
    }
}

/// After a successful round the largest region is still exactly the cells
/// connected to its start.
proof fn lemma_region_survives(g: Grid, region: Seq<bool>, g2: Grid, s0: int)
    requires
        g.wf(),
        g2.wf(),
        g2.width == g.width,
        g2.height == g.height,
        g2.tiles.len() == g.tiles.len(),
        0 <= s0 < g.tiles.len(),
        g.walkable(cell_of(g, s0).0, cell_of(g, s0).1),
        region == component(g, cell_of(g, s0)),
        forall|x: int, y: int| g.in_bounds(x, y) && region[g.index_of(x, y)]
            ==> #[trigger] g2.tile_at(x, y) == g.tile_at(x, y),
        forall|x: int, y: int| #[trigger] g2.walkable(x, y) ==> g.walkable(x, y),
    ensures
        component(g2, cell_of(g, s0)) == region,
{
    let total = g.tiles.len() as int;
    let s = cell_of(g, s0);
    assert forall|i: int| 0 <= i < total implies component(g2, s)[i] == region[i] by {
        let x = cell_of(g, i);
        lemma_cell_of(g, i);
        if region[i] {
            let r = choose|r: Seq<(i32, i32)>| is_route(g, Seq::empty(), s, x, r);
            lemma_region_start_walkable(g, g2, region, s0);
            assert forall|j: int| 0 <= j < r.len() implies passable(g2, Seq::empty(), x, cell(#[trigger] r[j])) by {
                lemma_route_prefix(g, s, x, r, j);
                let c = cell(r[j]);
                assert(passable(g, Seq::empty(), x, c));
                lemma_index_in_range(g, c.0, c.1);
                lemma_index_coords(g.width, c.0, c.1);
                assert(cell_of(g, g.index_of(c.0, c.1)) == c);
                assert(connected(g, s, c));
                assert(region[g.index_of(c.0, c.1)]);
                assert(g2.tile_at(c.0, c.1) == g.tile_at(c.0, c.1));
            }
            assert forall|j: int| 0 <= j < r.len() implies adjacent(route_before(s, r, j), cell(#[trigger] r[j])) by {
            }
            assert(is_route(g2, Seq::empty(), s, x, r));
        }
        if component(g2, s)[i] {
            let r = choose|r: Seq<(i32, i32)>| is_route(g2, Seq::empty(), s, x, r);
            lemma_route_stays_in_region(g, g2, region, s0, x, r, r.len() as int);
        }
    }
    assert(component(g2, s) =~= region);
}

/// The start of the region keeps its tile.
proof fn lemma_region_start_walkable(g: Grid, g2: Grid, region: Seq<bool>, s0: int)
    requires
        g.wf(),
        0 <= s0 < g.tiles.len(),
        g.walkable(cell_of(g, s0).0, cell_of(g, s0).1),
        region == component(g, cell_of(g, s0)),
        forall|x: int, y: int| g.in_bounds(x, y) && region[g.index_of(x, y)]
            ==> #[trigger] g2.tile_at(x, y) == g.tile_at(x, y),
    ensures
        g2.walkable(cell_of(g, s0).0, cell_of(g, s0).1),
{
    let s = cell_of(g, s0);
    lemma_cell_of(g, s0);
    assert(is_route(g, Seq::empty(), s, s, Seq::<(i32, i32)>::empty()));
    assert(region[g.index_of(s.0, s.1)]);
    assert(g2.tile_at(s.0, s.1) == g.tile_at(s.0, s.1));
}

/// Law: a round that succeeds leaves a world where one connected region holds
/// at least nine in ten land tiles.
pub proof fn law_successful_round_leaves_dominant_region(g: Grid, region: Seq<bool>, g2: Grid)
    requires
        g.wf(),
        g2.width == g.width,
        g2.height == g.height,
        is_largest_component(g, region),
        connectivity_round_result(g.tiles, region, true, g2.tiles),
    ensures
        g2.wf(),
        has_dominant_region(g2),
{
    let s0 = lemma_region_start(g, region);
    lemma_round_tiles(g, region, g2);
    lemma_region_start_walkable(g, g2, region, s0);
    lemma_region_survives(g, region, g2, s0);
    lemma_count_mono(land_mask(g2.tiles), land_mask(g.tiles));
    let s = cell_of(g, s0);
    lemma_cell_of(g, s0);
    assert(land_mask(g2.tiles)[s0]);
    crate::mask::lemma_count_pos(land_mask(g2.tiles), s0);
    assert(cell_of(g2, s0) == s);
    assert(10 * count_true(component(g2, cell_of(g2, s0))) >= 9 * land_count(g2.tiles));
}

/// Every cell of a route in the new world, from the region's start, lies in
/// the region (a cell of the old region never borders other old land).
proof fn lemma_route_stays_in_region(
    g: Grid,
    g2: Grid,
    region: Seq<bool>,
    s0: int,
    x: (int, int),
    r: Seq<(i32, i32)>,
    j: int,
)
    requires
        g.wf(),
        g2.width == g.width,
        g2.height == g.height,
        g2.tiles.len() == g.tiles.len(),
        0 <= s0 < g.tiles.len(),
        g.walkable(cell_of(g, s0).0, cell_of(g, s0).1),
        region == component(g, cell_of(g, s0)),
        forall|xx: int, yy: int| g2.walkable(xx, yy) ==> #[trigger] g.walkable(xx, yy),
        is_route(g2, Seq::empty(), cell_of(g, s0), x, r),
        0 <= j <= r.len(),
    ensures
        connected(g, cell_of(g, s0), route_before(cell_of(g, s0), r, j)),
    decreases j,
{
    let s = cell_of(g, s0);
    if j == 0 {
        assert(is_route(g, Seq::empty(), s, s, Seq::<(i32, i32)>::empty()));
    } else {
        lemma_route_stays_in_region(g, g2, region, s0, x, r, j - 1);
        let c = cell(r[j - 1]);
        assert(passable(g2, Seq::empty(), x, c));
        assert(adjacent(route_before(s, r, j - 1), c));
        assert(g.walkable(c.0, c.1));
        lemma_extend_connected(g, s, route_before(s, r, j - 1), c);
    }
}

/// Terrain for a roll of a hundred-sided die.
pub fn tile_for_roll(roll: i32) -> (t: TileType)
    ensures
        t == spec_tile_for_roll(roll as int),
{
    if roll < 15 {
        TileType::Water
    } else if roll < 35 {
        TileType::Sand
    } else {
        TileType::Grass
    }
}

impl World {
    /// A world of the standard size whose tiles follow the given rolls, one
    /// per tile in row-major order.
    pub fn terrain_from_rolls(rolls: &Vec<i32>) -> (w: World)
        requires
            rolls.len() == WIDTH * HEIGHT,
        ensures
            w.width == WIDTH,
            w.height == HEIGHT,
            w@.wf(),
            w.tiles@.len() == rolls@.len(),
            forall|i: int| 0 <= i < rolls@.len() ==> w.tiles@[i] == spec_tile_for_roll(rolls@[i] as int),
    {
        let mut tiles: Vec<TileType> = Vec::new();
        let mut i: usize = 0;
        while i < rolls.len()
            invariant
                0 <= i <= rolls@.len(),
                tiles@.len() == i,
                forall|j: int| 0 <= j < i ==> tiles@[j] == spec_tile_for_roll(rolls@[j] as int),
            decreases rolls@.len() - i,
        {
            tiles.push(tile_for_roll(rolls[i]));
            i = i + 1;
        }
        World { tiles, width: WIDTH, height: HEIGHT }
    }

    /// A fresh world of the standard size with every tile rolled at random
    /// (15% water, 20% sand, 65% grass), before any connectivity round.
    pub fn random_terrain() -> (w: World)
        ensures
            w.width == WIDTH,
            w.height == HEIGHT,
            w@.wf(),
    {
        let mut rng = thread_rng();
        let mut rolls: Vec<i32> = Vec::new();
        let mut i: usize = 0;
        while i < WIDTH * HEIGHT
            invariant
                0 <= i <= WIDTH * HEIGHT,
                rolls@.len() == i,
            decreases WIDTH * HEIGHT - i,
        {
            rolls.push(random_range(&mut rng, 0, 100));
            i = i + 1;
        }
        World::terrain_from_rolls(&rolls)
    }

    /// One round of making the land connected.
    ///
    /// Finds the largest connected region of land. If it holds at least nine
    /// in ten land tiles, every land tile outside it turns to water or sand at
    /// random (a fair coin each) and the round returns `true`. Otherwise every
    /// water tile turns to grass on a fair coin and the round returns `false`;
    /// rounds are repeated until one returns `true`. One coin is drawn per
    /// tile, and `settle_stray_land` or `regrow_water` applies them.
    pub fn connectivity_round(&mut self) -> (done: bool)
        requires
            old(self)@.wf(),
        ensures
            final(self).width == old(self).width,
            final(self).height == old(self).height,
            final(self)@.wf(),
            exists|region: Seq<bool>|
                is_largest_component(old(self)@, region)
                && connectivity_round_result(old(self).tiles@, region, done, final(self).tiles@),
            done ==> has_dominant_region(final(self)@),
    {
        let ghost g = self@;
        let visited = self.find_largest_walkable_component();
        let n = self.tiles.len();
        let mut land: usize = 0;
        let mut in_region: usize = 0;
        let mut i: usize = 0;
        while i < n
            invariant
                g == self@,
                n == g.tiles.len(),
                visited@.len() == n,
                0 <= i <= n,
                land == count_true(land_mask(g.tiles).take(i as int)),
                in_region == count_true(visited@.take(i as int)),
                land <= i,
                in_region <= i,
            decreases n - i,
        {
            proof {
                lemma_count_take(land_mask(g.tiles), i as int);
                lemma_count_take(visited@, i as int);
            }
            if self.tiles[i] != TileType::Water {
                land = land + 1;
            }
            if visited[i] {
                in_region = in_region + 1;
            }
            i = i + 1;
        }
        proof {
            assert(land_mask(g.tiles).take(n as int) =~= land_mask(g.tiles));
            assert(visited@.take(n as int) =~= visited@);
        }
        let mut rng = thread_rng();
        let coins = draw_coins(&mut rng, n);
        if land > 0 && (in_region as u128) * 10 >= (land as u128) * 9 {
            self.settle_stray_land(&visited, &coins);
            proof {
                assert(self.tiles@ == round_tiles(g.tiles, visited@, true, coins@));
                assert(connectivity_round_result(g.tiles, visited@, true, self.tiles@));
                law_successful_round_leaves_dominant_region(g, visited@, self@);
            }
            true
        } else {
            self.regrow_water(&coins);
            proof {
                assert(!round_succeeds(g.tiles, visited@));
                assert(self.tiles@ == round_tiles(g.tiles, visited@, false, coins@));
                assert(connectivity_round_result(g.tiles, visited@, false, self.tiles@));
            }
            false
        }
    }

    /// The tiles after a successful round: every land tile outside `region`
    /// becomes water where its coin shows `true` and sand where it shows
    /// `false`; all other tiles are kept.
    pub fn settle_stray_land(&mut self, region: &Vec<bool>, coins: &Vec<bool>)
        requires
            region@.len() == old(self).tiles@.len(),
            coins@.len() == old(self).tiles@.len(),
        ensures
            final(self).width == old(self).width,
            final(self).height == old(self).height,
            final(self).tiles@ == settled_tiles(old(self).tiles@, region@, coins@),
    {
        let ghost old_tiles = self.tiles@;
        let n = self.tiles.len();
        let mut j: usize = 0;
        while j < n
            invariant
                n == old_tiles.len(),
                region@.len() == n,
                coins@.len() == n,
                self.width == old(self).width,
                self.height == old(self).height,
                old_tiles == old(self).tiles@,
                self.tiles@.len() == n,
                0 <= j <= n,
                forall|k: int| j <= k < n ==> self.tiles@[k] == old_tiles[k],
                forall|k: int| 0 <= k < j ==> self.tiles@[k] == settled_tile(old_tiles[k], region@[k], coins@[k]),
            decreases n - j,
        {
            if self.tiles[j] != TileType::Water && !region[j] {
                let t = if coins[j] { TileType::Water } else { TileType::Sand };
                self.tiles.set(j, t);
            }
            j = j + 1;
        }
        assert(self.tiles@ =~= settled_tiles(old_tiles, region@, coins@));
    }

    /// The tiles after a failed round: every water tile becomes grass where
    /// its coin shows `true`; all other tiles are kept.
    pub fn regrow_water(&mut self, coins: &Vec<bool>)
        requires
            coins@.len() == old(self).tiles@.len(),
        ensures
            final(self).width == old(self).width,
            final(self).height == old(self).height,
            final(self).tiles@ == regrown_tiles(old(self).tiles@, coins@),
    {
        let ghost old_tiles = self.tiles@;
        let n = self.tiles.len();
        let mut j: usize = 0;
        while j < n
            invariant
                n == old_tiles.len(),
                coins@.len() == n,
                self.width == old(self).width,
                self.height == old(self).height,
                old_tiles == old(self).tiles@,
                self.tiles@.len() == n,
                0 <= j <= n,
                forall|k: int| j <= k < n ==> self.tiles@[k] == old_tiles[k],
                forall|k: int| 0 <= k < j ==> self.tiles@[k] == regrown_tile(old_tiles[k], coins@[k]),
            decreases n - j,
        {
            if self.tiles[j] == TileType::Water && coins[j] {
                self.tiles.set(j, TileType::Grass);
            }
            j = j + 1;
        }
        assert(self.tiles@ =~= regrown_tiles(old_tiles, coins@));
    }
}

/// One fair coin per tile, drawn from the generator.
fn draw_coins(rng: &mut ThreadRng, n: usize) -> (coins: Vec<bool>)
    ensures
        coins@.len() == n,
{
    let mut coins: Vec<bool> = Vec::new();
    let mut i: usize = 0;
    while i < n
        invariant
            0 <= i <= n,
            coins@.len() == i,
        decreases n - i,
    {
        coins.push(random_ratio(rng, 1, 2));
        i = i + 1;
    }
    coins
}

} // verus!
