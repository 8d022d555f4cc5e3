use std::collections::HashMap;

use pathfinding::prelude::astar;
use vstd::prelude::*;

use crate::tile::{TileVec, manhattan};
use crate::search::{
    first_match, last_match, lemma_first_match_facts, lemma_first_match_unique,
    lemma_last_match_unique,
};
use crate::text::{decimal, floor_layer_name, floor_prefix, floor_prefix_spec, parse_i16, parse_i16_spec, str_eq};
use crate::tiled::{objects_of, layer_named, property_named, TiledLayer, TiledMap, TiledObject, TiledProperty};

verus! {

broadcast use vstd::std_specs::hash::group_hash_axioms;

/// What stands on a tile of one floor.
#[derive(Clone, Copy, Debug, PartialEq, Eq, Structural)]
pub enum TileOccupant {
    Empty,
    Collider,
    /// A hole; whoever steps in falls to the given floor.
    Hole(i16),
}

/// Tile position of an entity: column/row `vec` on floor `z`.
#[derive(Clone, Copy, Debug, PartialEq, Eq, Structural)]
pub struct TilePos {
    pub vec: TileVec,
    pub z: i16,
}

/// A position on floor 0.
impl From<TileVec> for TilePos {
    fn from(value: TileVec) -> (r: Self) {
        TilePos { vec: value, z: 0 }
    }
}

impl vstd::std_specs::convert::FromSpecImpl<TileVec> for TilePos {
    open spec fn obeys_from_spec() -> bool {
        true
    }

    open spec fn from_spec(value: TileVec) -> Self {
        TilePos { vec: value, z: 0 }
    }
}

/// Marks an entity that blocks the tile it stands on.
pub struct Collider;

/// The occupancy of every tile of every floor: one row-major vector of
/// `width * height` cells per floor.
pub struct TileGrid {
    width: usize,
    height: usize,
    layers: HashMap<i16, Vec<TileOccupant>>,
}

pub open spec fn in_bounds(w: int, h: int, t: TileVec) -> bool {
    0 <= t.x < w && 0 <= t.y < h
}

pub open spec fn cell_index(w: int, t: TileVec) -> int {
    t.y * w + t.x
}

pub proof fn lemma_cell_index_bounds(w: int, h: int, t: TileVec)
    requires
        in_bounds(w, h, t),
    ensures
        0 <= cell_index(w, t) < w * h,
{
    assert(0 <= t.y * w + t.x < w * h) by (nonlinear_arith)
        requires
            0 <= t.x < w,
            0 <= t.y < h,
    ;
}

pub proof fn lemma_cell_index_injective(w: int, h: int, a: TileVec, b: TileVec)
    requires
        in_bounds(w, h, a),
        in_bounds(w, h, b),
        cell_index(w, a) == cell_index(w, b),
    ensures
        a == b,
{
    assert(a.y == b.y && a.x == b.x) by (nonlinear_arith)
        requires
            0 <= a.x < w,
            0 <= b.x < w,
            0 <= a.y,
            0 <= b.y,
            a.y * w + a.x == b.y * w + b.x,
    {
        if a.y < b.y {
            assert(a.y * w + w <= b.y * w);
        } else if b.y < a.y {
            assert(b.y * w + w <= a.y * w);
        }
    }
}

/// Some collider in `colliders` stands on cell `i` of floor `z`.
pub open spec fn collider_on(colliders: Seq<TilePos>, w: int, h: int, z: i16, i: int) -> bool {
    exists|k: int|
        0 <= k < colliders.len() && #[trigger] colliders[k].z == z && in_bounds(
            w,
            h,
            colliders[k].vec,
        ) && cell_index(w, colliders[k].vec) == i
}

impl TileGrid {
    pub closed spec fn grid_width(&self) -> int {
        self.width as int
    }

    pub closed spec fn grid_height(&self) -> int {
        self.height as int
    }

    /// The cells of each floor, row-major.
    pub closed spec fn cells(&self) -> Map<i16, Seq<TileOccupant>> {
        Map::new(|z: i16| self.layers@.contains_key(z), |z: i16| self.layers@[z]@)
    }

    pub closed spec fn wf(&self) -> bool {
        &&& self.width * self.height <= usize::MAX
        &&& forall|z: i16| #[trigger]
            self.layers@.contains_key(z) ==> self.layers@[z]@.len() == self.width * self.height
    }

    /// What stands on `tile` of floor `z`; none outside the grid or on an unknown floor.
    pub open spec fn occupant(&self, z: i16, tile: TileVec) -> Option<TileOccupant> {
        if !in_bounds(self.grid_width(), self.grid_height(), tile) || !self.cells().contains_key(
            z,
        ) {
            None
        } else {
            Some(self.cells()[z][cell_index(self.grid_width(), tile)])
        }
    }

    /// Empty tiles and holes can be walked on; colliders and tiles off the grid cannot.
    pub open spec fn walkable(&self, z: i16, tile: TileVec) -> bool {
        match self.occupant(z, tile) {
            Some(TileOccupant::Empty) | Some(TileOccupant::Hole(_)) => true,
            _ => false,
        }
    }

    pub fn get(&self, z: i16, tile: TileVec) -> (r: Option<TileOccupant>)
        requires
            self.wf(),
        ensures
            r == self.occupant(z, tile),
    {
        if tile.x < 0 || tile.y < 0 || tile.x as usize >= self.width || tile.y as usize
            >= self.height {
            return None;
        }
        proof {
            lemma_cell_index_bounds(self.width as int, self.height as int, tile);
        }
        match self.layers.get(&z) {
            Some(grid) => {
                let idx = tile.y as usize * self.width + tile.x as usize;
                Some(grid[idx])
            },
            None => None,
        }
    }

    pub fn is_walkable(&self, z: i16, tile: TileVec) -> (r: bool)
        requires
            self.wf(),
        ensures
            r == self.walkable(z, tile),
    {
        match self.get(z, tile) {
            Some(TileOccupant::Empty) | Some(TileOccupant::Hole(_)) => true,
            Some(TileOccupant::Collider) | None => false,
        }
    }

    /// Marks the tile of every collider as taken on its floor; colliders off
    /// the grid or on an unknown floor change nothing.
    pub fn update(&mut self, colliders: &[TilePos])
        requires
            old(self).wf(),
        ensures
            final(self).wf(),
            final(self).grid_width() == old(self).grid_width(),
            final(self).grid_height() == old(self).grid_height(),
            final(self).cells().dom() == old(self).cells().dom(),
            forall|z: i16, i: int|
                old(self).cells().contains_key(z) && 0 <= i < old(self).grid_width() * old(
                    self,
                ).grid_height() ==> #[trigger] final(self).cells()[z][i] == if collider_on(
                    colliders@,
                    old(self).grid_width(),
                    old(self).grid_height(),
                    z,
                    i,
                ) {
                    TileOccupant::Collider
                } else {
                    old(self).cells()[z][i]
                },
            forall|k: int|
                0 <= k < colliders@.len() && old(self).cells().contains_key(colliders@[k].z)
                    && in_bounds(old(self).grid_width(), old(self).grid_height(), colliders@[k].vec)
                    ==> !final(self).walkable(colliders@[k].z, #[trigger] colliders@[k].vec),
    {
        let ghost w = self.width as int;
        let ghost h = self.height as int;
        let n = colliders.len();
        let mut k: usize = 0;
        while k < n
            invariant
                n == colliders@.len(),
                k <= n,
                self.wf(),
                self.width == w,
                self.height == h,
                self.cells().dom() == old(self).cells().dom(),
                forall|z: i16, i: int|
                    old(self).cells().contains_key(z) && 0 <= i < w * h ==> #[trigger] self.cells()[z][i]
                        == if collider_on(colliders@.take(k as int), w, h, z, i) {
                        TileOccupant::Collider
                    } else {
                        old(self).cells()[z][i]
                    },
            decreases n - k,
        {
            let tp = colliders[k];
            let ghost before = self.cells();
            let z = tp.z;
            let x = tp.vec.x;
            let y = tp.vec.y;
            if x >= 0 && y >= 0 && (x as usize) < self.width && (y as usize) < self.height
                && self.layers.contains_key(&z) {
                proof {
                    lemma_cell_index_bounds(w, h, tp.vec);
                }
                let idx = y as usize * self.width + x as usize;
                let mut grid = self.layers.remove(&z).unwrap();
                grid.set(idx, TileOccupant::Collider);
                self.layers.insert(z, grid);
                proof {
                    assert(self.cells().dom() =~= before.dom());
                    assert forall|zz: i16, i: int|
                        old(self).cells().contains_key(zz) && 0 <= i < w * h implies #[trigger] self.cells()[zz][i]
                            == if collider_on(colliders@.take(k + 1), w, h, zz, i) {
                            TileOccupant::Collider
                        } else {
                            old(self).cells()[zz][i]
                        } by {
                        let pre = colliders@.take(k as int);
                        let post = colliders@.take(k + 1);
                        assert(post[k as int] == tp);
                        if zz == z && i == idx {
                            assert(collider_on(post, w, h, zz, i));
                        } else {
                            assert(self.cells()[zz][i] == before[zz][i]);
                            if collider_on(post, w, h, zz, i) {
                                let j = choose|j: int|
                                    0 <= j < post.len() && #[trigger] post[j].z == zz && in_bounds(
                                        w,
                                        h,
                                        post[j].vec,
                                    ) && cell_index(w, post[j].vec) == i;
                                assert(j != k);
                                assert(pre[j] == post[j]);
                            }
                            if collider_on(pre, w, h, zz, i) {
                                let j = choose|j: int|
                                    0 <= j < pre.len() && #[trigger] pre[j].z == zz && in_bounds(
                                        w,
                                        h,
                                        pre[j].vec,
                                    ) && cell_index(w, pre[j].vec) == i;
                                assert(pre[j] == post[j]);
                            }
                        }
                    }
                }
            } else {
                proof {
                    assert forall|zz: i16, i: int|
                        old(self).cells().contains_key(zz) && 0 <= i < w * h implies #[trigger] self.cells()[zz][i]
                            == if collider_on(colliders@.take(k + 1), w, h, zz, i) {
                            TileOccupant::Collider
                        } else {
                            old(self).cells()[zz][i]
                        } by {
                        let pre = colliders@.take(k as int);
                        let post = colliders@.take(k + 1);
                        assert(post[k as int] == tp);
                        if collider_on(post, w, h, zz, i) {
                            let j = choose|j: int|
                                0 <= j < post.len() && #[trigger] post[j].z == zz && in_bounds(
                                    w,
                                    h,
                                    post[j].vec,
                                ) && cell_index(w, post[j].vec) == i;
                            if j == k {
                                assert(self.cells().contains_key(zz));
                                assert(false);
                            }
                            assert(pre[j] == post[j]);
                        }
                        if collider_on(pre, w, h, zz, i) {
                            let j = choose|j: int|
                                0 <= j < pre.len() && #[trigger] pre[j].z == zz && in_bounds(
                                    w,
                                    h,
                                    pre[j].vec,
                                ) && cell_index(w, pre[j].vec) == i;
                            assert(pre[j] == post[j]);
                        }
                    }
                }
            }
            k = k + 1;
        }
        proof {
            assert(colliders@.take(n as int) =~= colliders@);
            assert forall|k: int|
                0 <= k < colliders@.len() && old(self).cells().contains_key(colliders@[k].z)
                    && in_bounds(w, h, colliders@[k].vec) implies !self.walkable(
                colliders@[k].z,
                #[trigger] colliders@[k].vec,
            ) by {
                let c = colliders@[k];
                lemma_cell_index_bounds(w, h, c.vec);
                assert(collider_on(colliders@, w, h, c.z, cell_index(w, c.vec)));
            }
        }
    }
}


/// The floor being played on, over its tile map.
pub struct ServerMap {
    pub tiled: TiledMap,
    pub current_z: i16,
}

/// Width of the map in tiles, as the movement code reads it.
pub open spec fn map_w(map: &ServerMap) -> int {
    (map.tiled.width as i32) as int
}

/// Height of the map in tiles, as the movement code reads it.
pub open spec fn map_h(map: &ServerMap) -> int {
    (map.tiled.height as i32) as int
}

/// One move from `a` to the cardinal neighbour `b`, which lies on the map
/// and can be walked on floor `z`.
pub open spec fn step_ok(map: &ServerMap, grid: &TileGrid, z: i16, a: TileVec, b: TileVec) -> bool {
    &&& manhattan(a, b) == 1
    &&& in_bounds(map_w(map), map_h(map), b)
    &&& grid.walkable(z, b)
}

/// `p` is a walk on floor `z`: every next tile is one move from the one before.
pub open spec fn is_walk(map: &ServerMap, grid: &TileGrid, z: i16, p: Seq<TileVec>) -> bool {
    &&& p.len() >= 1
    &&& forall|i: int| 0 <= i < p.len() - 1 ==> #[trigger] step_ok(map, grid, z, p[i], p[i + 1])
}

/// `p` is a walk on floor `z` from `a` to `b`.
pub open spec fn walk_between(
    map: &ServerMap,
    grid: &TileGrid,
    z: i16,
    p: Seq<TileVec>,
    a: TileVec,
    b: TileVec,
) -> bool {
    &&& is_walk(map, grid, z, p)
    &&& p[0] == a
    &&& p.last() == b
}

/// The candidate neighbour at column `x`, row `y` is kept as a successor:
/// it lies on the map and can be walked on floor `z`.
pub open spec fn keep_if(map: &ServerMap, grid: &TileGrid, z: i16, x: int, y: int) -> Seq<
    (TileVec, u32),
> {
    let t = TileVec { x: x as i32, y: y as i32 };
    if 0 <= x < map_w(map) && 0 <= y < map_h(map) && grid.walkable(z, t) {
        seq![(t, 1u32)]
    } else {
        Seq::empty()
    }
}

/// The neighbours below, right of, above and left of `p` (in that order)
/// that lie on the map and can be walked on floor `z`, each at cost 1.
pub open spec fn successors_spec(map: &ServerMap, grid: &TileGrid, z: i16, p: TileVec) -> Seq<
    (TileVec, u32),
> {
    keep_if(map, grid, z, p.x as int, p.y + 1) + keep_if(map, grid, z, p.x + 1, p.y as int)
        + keep_if(map, grid, z, p.x as int, p.y - 1) + keep_if(map, grid, z, p.x - 1, p.y as int)
}

/// The neighbours of `p` can be computed in `i32`.
pub open spec fn neighbours_fit(p: TileVec) -> bool {
    i32::MIN < p.x < i32::MAX && i32::MIN < p.y < i32::MAX
}

/// The search succeeds on reaching `end`.
fn is_goal(p: TileVec, end: TileVec) -> (r: bool)
    ensures
        r == (p == end),
{
    p == end
}

/// The cells of floor `z` of the grid, if it has that floor.
pub open spec fn floor_of(grid: &TileGrid, z: i16) -> Option<Seq<TileOccupant>> {
    if grid.cells().contains_key(z) {
        Some(grid.cells()[z])
    } else {
        None
    }
}

/// The walk, both ends included, that the A* search of the `pathfinding`
/// crate returns on a map `map_w` x `map_h` tiles whose floor holds the
/// cells `floor` of a grid `grid_w` x `grid_h` cells, from `start` to `end`.
pub uninterp spec fn astar_route(
    map_w: int,
    map_h: int,
    floor: Option<Seq<TileOccupant>>,
    grid_w: int,
    grid_h: int,
    start: TileVec,
    end: TileVec,
) -> Option<Seq<TileVec>>;

pub open spec fn opt_view(o: Option<Vec<TileVec>>) -> Option<Seq<TileVec>> {
    match o {
        Some(v) => Some(v@),
        None => None,
    }
}

/// A route without its first tile.
pub open spec fn after_start(o: Option<Seq<TileVec>>) -> Option<Seq<TileVec>> {
    match o {
        Some(p) => Some(
            if p.len() == 0 {
                p
            } else {
                p.drop_first()
            },
        ),
        None => None,
    }
}

/// The path `find_path_on` gives on floor `z`: nothing left to walk when
/// already there, none to a tile off the map or that cannot be walked, else
/// the route the search finds, without its first tile.
pub open spec fn route_on(map: &ServerMap, grid: &TileGrid, z: i16, start: TileVec, end: TileVec) -> Option<
    Seq<TileVec>,
> {
    if start == end {
        Some(Seq::empty())
    } else if !(in_bounds(map_w(map), map_h(map), end) && grid.walkable(z, end)) {
        None
    } else {
        after_start(
            astar_route(
                map_w(map),
                map_h(map),
                floor_of(grid, z),
                grid.grid_width(),
                grid.grid_height(),
                start,
                end,
            ),
        )
    }
}

/// A route found by the search without its first tile (the one the walker
/// stands on).
pub fn path_after_start(route: Option<Vec<TileVec>>) -> (r: Option<Vec<TileVec>>)
    ensures
        opt_view(r) == after_start(opt_view(route)),
{
    match route {
        Some(path) => {
            let mut rest = path;
            if rest.len() > 0 {
                let ghost full = rest@;
                rest.remove(0);
                assert(rest@ =~= full.drop_first());
            }
            Some(rest)
        },
        None => None,
    }
}

/// Shortest walk on floor `z` from `start` to `end`, both ends included,
/// by `pathfinding::directed::astar::astar`.
///
/// Trusted: the crate documents that `astar` returns a shortest path from
/// `start` to a node where `success` holds, comprising both ends, when the
/// heuristic never exceeds the real cost (the Manhattan distance, capped at
/// `u32::MAX`, does not on this 4-connected grid with steps of cost 1), and
/// `None` when no path exists. The successors handed to it are the verified
/// `walkable_successors_on`, so a path is a walk as `walk_between` states.
/// The search is deterministic (a binary heap and an index map with a fixed
/// hasher), and what it is handed is determined by the map's size, the
/// floor's cells and the grid's size, `start` and `end`: its result is named
/// `astar_route` of these. Which of several shortest walks it picks is left
/// to the crate.
#[verifier::external_body]
fn astar_walk(map: &ServerMap, grid: &TileGrid, z: i16, start: TileVec, end: TileVec) -> (r: Option<
    Vec<TileVec>,
>)
    requires
        grid.wf(),
        in_bounds(map_w(map), map_h(map), end),
        grid.walkable(z, end),
    ensures
        match r {
            Some(p) => walk_between(map, grid, z, p@, start, end) && forall|q: Seq<TileVec>|
                #[trigger] walk_between(map, grid, z, q, start, end) ==> p@.len() <= q.len(),
            None => forall|q: Seq<TileVec>| !#[trigger] walk_between(map, grid, z, q, start, end),
        },
        opt_view(r) == astar_route(
            map_w(map),
            map_h(map),
            floor_of(grid, z),
            grid.grid_width(),
            grid.grid_height(),
            start,
            end,
        ),
{
    astar(
        &start,
        |p: &TileVec| map.walkable_successors_on(z, *p, grid),
        |p: &TileVec| ServerMap::manhattan_distance(*p, end),
        |p: &TileVec| is_goal(*p, end),
    ).map(|(path, _cost)| path)
}

impl ServerMap {
    pub fn new(tiled: TiledMap, z: i16) -> (r: ServerMap)
        ensures
            r.tiled == tiled,
            r.current_z == z,
    {
        ServerMap { tiled, current_z: z }
    }

    /// Whether `tile_pos` can be walked on the current floor.
    pub fn is_walkable(&self, tile_pos: TileVec, grid: &TileGrid) -> (r: bool)
        requires
            grid.wf(),
        ensures
            r == grid.walkable(self.current_z, tile_pos),
    {
        grid.is_walkable(self.current_z, tile_pos)
    }

    /// Whether `tile_pos` can be walked on floor `z`.
    pub fn is_walkable_at(&self, z: i16, tile_pos: TileVec, grid: &TileGrid) -> (r: bool)
        requires
            grid.wf(),
        ensures
            r == grid.walkable(z, tile_pos),
    {
        grid.is_walkable(z, tile_pos)
    }

    /// The Manhattan distance from `a` to `b`, the estimate the path search
    /// uses; distances past `u32::MAX` count as `u32::MAX`.
    fn manhattan_distance(a: TileVec, b: TileVec) -> (r: u32)
        ensures
            r == (if manhattan(a, b) <= u32::MAX {
                manhattan(a, b)
            } else {
                u32::MAX as int
            }),
    {
        let dx: i64 = a.x as i64 - b.x as i64;
        let dy: i64 = a.y as i64 - b.y as i64;
        let ax: i64 = if dx < 0 { -dx } else { dx };
        let ay: i64 = if dy < 0 { -dy } else { dy };
        let d = ax + ay;
        if d > u32::MAX as i64 {
            u32::MAX
        } else {
            d as u32
        }
    }

    /// Appends the neighbour at column `x`, row `y` if it is kept.
    fn keep_candidate(
        &self,
        z: i16,
        x: i64,
        y: i64,
        grid: &TileGrid,
        out: &mut Vec<(TileVec, u32)>,
    )
        requires
            grid.wf(),
        ensures
            final(out)@ == old(out)@ + keep_if(self, grid, z, x as int, y as int),
    {
        let w = #[verifier::truncate] (self.tiled.width as i32);
        let h = #[verifier::truncate] (self.tiled.height as i32);
        if 0 <= x && x < w as i64 && 0 <= y && y < h as i64 {
            let t = TileVec::new(x as i32, y as i32);
            if grid.is_walkable(z, t) {
                out.push((t, 1));
            }
        }
        proof {
            assert(out@ =~= old(out)@ + keep_if(self, grid, z, x as int, y as int));
        }
    }

    /// Tiles one move away from `tile_pos` on floor `z`, each at cost 1.
    fn walkable_successors_on(&self, z: i16, tile_pos: TileVec, grid: &TileGrid) -> (r: Vec<
        (TileVec, u32),
    >)
        requires
            grid.wf(),
        ensures
            r@ == successors_spec(self, grid, z, tile_pos),
    {
        let x = tile_pos.x as i64;
        let y = tile_pos.y as i64;
        let mut successors: Vec<(TileVec, u32)> = Vec::new();
        self.keep_candidate(z, x, y + 1, grid, &mut successors);
        self.keep_candidate(z, x + 1, y, grid, &mut successors);
        self.keep_candidate(z, x, y - 1, grid, &mut successors);
        self.keep_candidate(z, x - 1, y, grid, &mut successors);
        assert(successors@ =~= successors_spec(self, grid, z, tile_pos));
        successors
    }

    /// A shortest walk on floor `z` from `start` to `end`, without `start`
    /// itself; `None` when `end` cannot be reached.
    pub fn find_path_on(&self, z: i16, start: TileVec, end: TileVec, grid: &TileGrid) -> (r:
        Option<Vec<TileVec>>)
        requires
            grid.wf(),
        ensures
            match r {
                Some(p) => walk_between(self, grid, z, seq![start] + p@, start, end) && forall|
                    q: Seq<TileVec>,
                | #[trigger] walk_between(self, grid, z, q, start, end) ==> p@.len() + 1 <= q.len(),
                None => forall|q: Seq<TileVec>| !#[trigger] walk_between(self, grid, z, q, start, end),
            },
            opt_view(r) == route_on(self, grid, z, start, end),
    {
        if start == end {
            proof {
                let p = seq![start];
                assert(seq![start] + Seq::<TileVec>::empty() =~= p);
                assert(walk_between(self, grid, z, p, start, end));
            }
            return Some(Vec::new());
        }
        let w = #[verifier::truncate] (self.tiled.width as i32);
        let h = #[verifier::truncate] (self.tiled.height as i32);
        if !(end.x >= 0 && end.y >= 0 && end.x < w && end.y < h && grid.is_walkable(z, end)) {
            proof {
                assert forall|q: Seq<TileVec>| !#[trigger] walk_between(self, grid, z, q, start, end) by {
                    if walk_between(self, grid, z, q, start, end) {
                        assert(q.len() >= 2);
                        let i = q.len() - 2;
                        assert(step_ok(self, grid, z, q[i], q[i + 1]));
                    }
                }
            }
            return None;
        }
        let route = astar_walk(self, grid, z, start, end);
        let ghost full = opt_view(route);
        let r = path_after_start(route);
        proof {
            if let Some(p) = full {
                assert(seq![start] + p.drop_first() =~= p);
            }
        }
        r
    }

    /// A shortest walk on the current floor from `start` to `end`, without
    /// `start` itself; `None` when `end` cannot be reached. It is the very
    /// path `find_path_on` gives on the current floor.
    pub fn find_path(&self, start: TileVec, end: TileVec, grid: &TileGrid) -> (r: Option<
        Vec<TileVec>,
    >)
        requires
            grid.wf(),
        ensures
            match r {
                Some(p) => walk_between(self, grid, self.current_z, seq![start] + p@, start, end)
                    && forall|q: Seq<TileVec>| #[trigger]
                    walk_between(self, grid, self.current_z, q, start, end) ==> p@.len() + 1
                        <= q.len(),
                None => forall|q: Seq<TileVec>|
                    !#[trigger] walk_between(self, grid, self.current_z, q, start, end),
            },
            opt_view(r) == route_on(self, grid, self.current_z, start, end),
    {
        self.find_path_on(self.current_z, start, end, grid)
    }
}


/// `z` is the floor number of some layer of the map.
pub open spec fn is_floor(map: &ServerMap, z: i16) -> bool {
    exists|l: int|
        0 <= l < map.tiled.layers@.len() && floor_prefix_spec(#[trigger] map.tiled.layers@[l].name@)
            == Some(z)
}

pub open spec fn floor_name(z: i16, suffix: Seq<char>) -> Seq<char> {
    decimal(z as int) + seq!['/'] + suffix
}

/// Tile `(x, y)` of the collider layer `layer` is set and lands on cell `i`
/// of a floor `width` tiles wide.
pub open spec fn collider_hit(layer: TiledLayer, width: int, x: int, y: int, i: int) -> bool {
    &&& layer.data is Some
    &&& layer.width is Some
    &&& layer.height is Some
    &&& 0 <= x < layer.width->0
    &&& 0 <= y < layer.height->0
    &&& y * width + x == i
    &&& layer_tile_set(layer, x, y)
}

/// The collider layer of floor `z`: the first layer called `"{z}/colliders"`.
pub open spec fn collider_layer(map: &ServerMap, z: i16) -> Option<TiledLayer> {
    match first_match(map.tiled.layers@, layer_named(floor_name(z, "colliders"@))) {
        Some(l) => Some(map.tiled.layers@[l]),
        None => None,
    }
}

/// Cell `i` of floor `z` is marked by the collider layer.
pub open spec fn collider_cell(map: &ServerMap, z: i16, i: int) -> bool {
    match collider_layer(map, z) {
        Some(layer) => exists|x: int, y: int|
            #[trigger] collider_hit(layer, map.tiled.width as int, x, y, i),
        None => false,
    }
}

/// The obstacle objects of floor `z`: those of the first layer called `"{z}/obstacles"`.
pub open spec fn obstacles(map: &ServerMap, z: i16) -> Seq<TiledObject> {
    objects_of(map.tiled.layers@, floor_name(z, "obstacles"@))
}

pub open spec fn hole_on(width: int, i: int) -> spec_fn(TiledObject) -> bool {
    |o: TiledObject| o.name@ == "hole"@ && cell_index(width, o.tile) == i
}

/// The floor a hole drops to: its `fall_to_layer` property read as a floor
/// number, or the floor below `z`.
pub open spec fn fall_target(o: TiledObject, z: i16) -> int {
    let fallback = z - 1;
    match o.properties {
        Some(ps) => match first_match(ps@, property_named("fall_to_layer"@)) {
            Some(j) => match parse_i16_spec(ps@[j].value@) {
                Some(v) => v as int,
                None => fallback,
            },
            None => fallback,
        },
        None => fallback,
    }
}

/// Cell `i` of floor `z` of the grid built from `map`: the last hole object
/// on it, else a collider if the collider layer marks it, else empty.
pub open spec fn built_cell(map: &ServerMap, z: i16, i: int) -> TileOccupant {
    let objs = obstacles(map, z);
    match last_match(objs, hole_on(map.tiled.width as int, i)) {
        Some(k) => TileOccupant::Hole(fall_target(objs[k], z) as i16),
        None => if collider_cell(map, z, i) {
            TileOccupant::Collider
        } else {
            TileOccupant::Empty
        },
    }
}

/// Tile `(x, y)` of a tile layer is set.
pub open spec fn layer_tile_set(layer: TiledLayer, x: int, y: int) -> bool {
    layer.data->0@[y * layer.width->0 + x] != 0
}

/// The collider layer of floor `z`, if it has tiles, gives its size and
/// holds all of them, and each of its set tiles lands inside the floor.
pub open spec fn collider_layer_fits(map: &ServerMap, z: i16) -> bool {
    let w = map.tiled.width as int;
    let h = map.tiled.height as int;
    match collider_layer(map, z) {
        Some(layer) => layer.data is Some ==> {
            &&& layer.width is Some
            &&& layer.height is Some
            &&& layer.width->0 * layer.height->0 <= layer.data->0@.len()
            &&& forall|x: int, y: int|
                0 <= x < layer.width->0 && 0 <= y < layer.height->0 && #[trigger] layer_tile_set(
                    layer,
                    x,
                    y,
                ) ==> y * w + x < w * h
        },
        None => true,
    }
}

/// The map can be turned into a grid without leaving the vectors it indexes.
pub open spec fn buildable(map: &ServerMap) -> bool {
    let w = map.tiled.width as int;
    let h = map.tiled.height as int;
    &&& w * h <= usize::MAX
    &&& forall|z: i16| #[trigger] is_floor(map, z) ==> floor_buildable(map, z)
}

/// Every hole object of floor `z` lies inside the floor, and the floor
/// below it can be named.
pub open spec fn holes_fit(map: &ServerMap, z: i16) -> bool {
    let w = map.tiled.width as int;
    let h = map.tiled.height as int;
    forall|k: int|
        0 <= k < obstacles(map, z).len() && (#[trigger] obstacles(map, z)[k]).name@ == "hole"@ ==> {
            &&& z > i16::MIN
            &&& obstacles(map, z)[k].tile.x >= 0
            &&& obstacles(map, z)[k].tile.y >= 0
            &&& cell_index(w, obstacles(map, z)[k].tile) < w * h
        }
}

/// Floor `z` of the map can be laid out on the grid.
pub open spec fn floor_buildable(map: &ServerMap, z: i16) -> bool {
    collider_layer_fits(map, z) && holes_fit(map, z)
}

/// Whether the collider layer of floor `z` fits the map.
fn collider_layer_fits_check(map: &ServerMap, z: i16) -> (r: bool)
    ensures
        r == collider_layer_fits(map, z),
{
    let name = floor_layer_name(z, "colliders");
    proof {
        assert(name@ == floor_name(z, "colliders"@));
    }
    let layer = match map.tiled.get_layer(name.as_str()) {
        Some(l) => l,
        None => return true,
    };
    let ghost lay = *layer;
    assert(collider_layer(map, z) == Some(lay));
    let data = match &layer.data {
        Some(d) => d,
        None => return true,
    };
    let (lw, lh) = match (layer.width, layer.height) {
        (Some(a), Some(b)) => (a, b),
        _ => return false,
    };
    proof {
        assert((lw as u64) * (lh as u64) <= 0xFFFF_FFFF * 0xFFFF_FFFF) by (nonlinear_arith)
            requires
                lw <= 0xFFFF_FFFF,
                lh <= 0xFFFF_FFFF,
        ;
    }
    if (lw as u64) * (lh as u64) > data.len() as u64 {
        return false;
    }
    let w = map.tiled.width as u64;
    let h = map.tiled.height as u64;
    proof {
        assert(w * h <= 0xFFFF_FFFF * 0xFFFF_FFFF) by (nonlinear_arith)
            requires
                w <= 0xFFFF_FFFF,
                h <= 0xFFFF_FFFF,
        ;
    }
    let total = w * h;
    let mut y: u32 = 0;
    while y < lh
        invariant
            collider_layer(map, z) == Some(lay),
            lay.data == Some(*data),
            lay.width == Some(lw),
            lay.height == Some(lh),
            (lw as int) * (lh as int) <= data@.len(),
            w == map.tiled.width,
            h == map.tiled.height,
            w <= 0xFFFF_FFFF,
            total == w * h,
            y <= lh,
            forall|xx: int, yy: int|
                0 <= xx < lw && 0 <= yy < y && #[trigger] layer_tile_set(lay, xx, yy) ==> yy * w
                    + xx < w * h,
        decreases lh - y,
    {
        let mut x: u32 = 0;
        while x < lw
            invariant
                collider_layer(map, z) == Some(lay),
                lay.data == Some(*data),
                lay.width == Some(lw),
                lay.height == Some(lh),
                (lw as int) * (lh as int) <= data@.len(),
                w == map.tiled.width,
                h == map.tiled.height,
                w <= 0xFFFF_FFFF,
                total == w * h,
                y < lh,
                x <= lw,
                forall|xx: int, yy: int|
                    0 <= xx < lw && 0 <= yy < y && #[trigger] layer_tile_set(lay, xx, yy) ==> yy
                        * w + xx < w * h,
                forall|xx: int|
                    0 <= xx < x && #[trigger] layer_tile_set(lay, xx, y as int) ==> y * w + xx < w
                        * h,
            decreases lw - x,
        {
            let dl = data.len();
            let yu = y as usize;
            let lwu = lw as usize;
            let xu = x as usize;
            proof {
                assert(yu * lwu + xu < dl) by (nonlinear_arith)
                    requires
                        xu < lwu,
                        yu < lh,
                        (lwu as int) * (lh as int) <= dl,
                ;
                assert((y as u64) * w <= 0xFFFF_FFFF * 0xFFFF_FFFF) by (nonlinear_arith)
                    requires
                        y <= 0xFFFF_FFFF,
                        w <= 0xFFFF_FFFF,
                ;
            }
            let cell = (y as u64) * w + (x as u64);
            if data[yu * lwu + xu] != 0 && cell >= total {
                proof {
                    assert(layer_tile_set(lay, x as int, y as int));
                }
                return false;
            }
            x = x + 1;
        }
        y = y + 1;
    }
    true
}

/// Whether every hole object of floor `z` lies inside the map.
fn holes_fit_check(map: &ServerMap, z: i16) -> (r: bool)
    ensures
        r == holes_fit(map, z),
{
    let name = floor_layer_name(z, "obstacles");
    let objs = map.tiled.get_objects(name.as_str());
    proof {
        assert(name@ == floor_name(z, "obstacles"@));
        assert(objs@ == obstacles(map, z));
    }
    let w = map.tiled.width as u64;
    let h = map.tiled.height as u64;
    proof {
        assert(w * h <= 0xFFFF_FFFF * 0xFFFF_FFFF) by (nonlinear_arith)
            requires
                w <= 0xFFFF_FFFF,
                h <= 0xFFFF_FFFF,
        ;
    }
    let total = w * h;
    let n = objs.len();
    let mut k: usize = 0;
    while k < n
        invariant
            n == objs@.len(),
            objs@ == obstacles(map, z),
            total == w * h,
            w == map.tiled.width,
            h == map.tiled.height,
            w <= 0xFFFF_FFFF,
            k <= n,
            forall|j: int|
                0 <= j < k && (#[trigger] objs@[j]).name@ == "hole"@ ==> {
                    &&& z > i16::MIN
                    &&& objs@[j].tile.x >= 0
                    &&& objs@[j].tile.y >= 0
                    &&& cell_index(w as int, objs@[j].tile) < w * h
                },
        decreases n - k,
    {
        let o = &objs[k];
        if str_eq(o.name.as_str(), "hole") {
            if z == i16::MIN || o.tile.x < 0 || o.tile.y < 0 {
                return false;
            }
            proof {
                assert((o.tile.y as u64) * w <= 0x8000_0000 * 0xFFFF_FFFF) by (nonlinear_arith)
                    requires
                        0 <= o.tile.y <= 0x8000_0000,
                        w <= 0xFFFF_FFFF,
                ;
            }
            if (o.tile.y as u64) * w + (o.tile.x as u64) >= total {
                return false;
            }
        }
        k = k + 1;
    }
    true
}

impl ServerMap {
    /// Whether a grid can be built from this map: `TileGrid::new` asks this.
    pub fn is_buildable(&self) -> (r: bool)
        ensures
            r == buildable(self),
    {
        let w = self.tiled.width as u64;
        let h = self.tiled.height as u64;
        proof {
            assert(w * h <= 0xFFFF_FFFF * 0xFFFF_FFFF) by (nonlinear_arith)
                requires
                    w <= 0xFFFF_FFFF,
                    h <= 0xFFFF_FFFF,
            ;
        }
        if w * h > usize::MAX as u64 {
            return false;
        }
        let n = self.tiled.layers.len();
        let mut l: usize = 0;
        while l < n
            invariant
                n == self.tiled.layers@.len(),
                l <= n,
                w == self.tiled.width,
                h == self.tiled.height,
                w * h <= usize::MAX,
                forall|j: int|
                    0 <= j < l ==> match floor_prefix_spec(#[trigger] self.tiled.layers@[j].name@) {
                        Some(z) => floor_buildable(self, z),
                        None => true,
                    },
            decreases n - l,
        {
            if let Some(z) = floor_prefix(self.tiled.layers[l].name.as_str()) {
                let fits = collider_layer_fits_check(self, z) && holes_fit_check(self, z);
                if !fits {
                    proof {
                        assert(is_floor(self, z));
                    }
                    return false;
                }
            }
            l = l + 1;
        }
        proof {
            assert forall|z: i16| #[trigger] is_floor(self, z) implies floor_buildable(self, z) by {
                let j = choose|j: int|
                    0 <= j < self.tiled.layers@.len() && floor_prefix_spec(
                        #[trigger] self.tiled.layers@[j].name@,
                    ) == Some(z);
            }
        }
        true
    }
}

impl TileGrid {
    /// Builds the occupancy of every floor of `map`: colliders from its
    /// `"{z}/colliders"` tile layer, holes from the objects called `hole` of
    /// its `"{z}/obstacles"` layer.
    pub fn new(map: &ServerMap) -> (r: TileGrid)
        requires
            buildable(map),
        ensures
            r.wf(),
            r.grid_width() == map.tiled.width,
            r.grid_height() == map.tiled.height,
            forall|z: i16| #[trigger] r.cells().contains_key(z) <==> is_floor(map, z),
            forall|z: i16, i: int|
                r.cells().contains_key(z) && 0 <= i < r.grid_width() * r.grid_height()
                    ==> #[trigger] r.cells()[z][i] == built_cell(map, z, i),
            forall|z: i16, t: TileVec|
                r.cells().contains_key(z) && in_bounds(r.grid_width(), r.grid_height(), t)
                    && collider_tile_set(map, z, t) && no_hole_on(map, z, t)
                    ==> #[trigger] r.occupant(z, t) == Some(TileOccupant::Collider),
    {
        let width = map.tiled.width as usize;
        let height = map.tiled.height as usize;
        let mut layers: HashMap<i16, Vec<TileOccupant>> = HashMap::new();
        let n = map.tiled.layers.len();
        let mut l: usize = 0;
        while l < n
            invariant
                n == map.tiled.layers@.len(),
                l <= n,
                buildable(map),
                width == map.tiled.width,
                height == map.tiled.height,
                forall|z: i16| #[trigger]
                    layers@.contains_key(z) <==> exists|j: int|
                        0 <= j < l && floor_prefix_spec(#[trigger] map.tiled.layers@[j].name@)
                            == Some(z),
                forall|z: i16| #[trigger]
                    layers@.contains_key(z) ==> layers@[z]@.len() == width * height,
                forall|z: i16, i: int|
                    layers@.contains_key(z) && 0 <= i < width * height ==> #[trigger] layers@[z]@[i]
                        == built_cell(map, z, i),
            decreases n - l,
        {
            if let Some(z) = floor_prefix(map.tiled.layers[l].name.as_str()) {
                proof {
                    assert(is_floor(map, z));
                }
                if !layers.contains_key(&z) {
                    let grid = build_floor(map, z, width, height);
                    layers.insert(z, grid);
                }
            }
            proof {
                assert forall|z: i16| #[trigger]
                    layers@.contains_key(z) <==> exists|j: int|
                        0 <= j < l + 1 && floor_prefix_spec(
                            #[trigger] map.tiled.layers@[j].name@,
                        ) == Some(z) by {
                    if layers@.contains_key(z) {
                        if floor_prefix_spec(map.tiled.layers@[l as int].name@) != Some(z) {
                            let j = choose|j: int|
                                0 <= j < l && floor_prefix_spec(
                                    #[trigger] map.tiled.layers@[j].name@,
                                ) == Some(z);
                        }
                    }
                }
            }
            l = l + 1;
        }
        proof {
            assert forall|z: i16| #[trigger] layers@.contains_key(z) <==> is_floor(map, z) by {
                if is_floor(map, z) {
                    let j = choose|j: int|
                        0 <= j < map.tiled.layers@.len() && floor_prefix_spec(
                            #[trigger] map.tiled.layers@[j].name@,
                        ) == Some(z);
                    assert(0 <= j < n);
                }
            }
        }
        let r = TileGrid { width, height, layers };
        proof {
            assert forall|z: i16, i: int|
                r.cells().contains_key(z) && 0 <= i < r.grid_width() * r.grid_height()
                    implies #[trigger] r.cells()[z][i] == built_cell(map, z, i) by {
                assert(r.cells()[z] == r.layers@[z]@);
            }
            assert forall|z: i16, t: TileVec|
                r.cells().contains_key(z) && in_bounds(r.grid_width(), r.grid_height(), t)
                    && collider_tile_set(map, z, t) && no_hole_on(map, z, t)
                    implies #[trigger] r.occupant(z, t) == Some(TileOccupant::Collider) by {
                lemma_cell_index_bounds(r.grid_width(), r.grid_height(), t);
                lemma_set_collider_tile_blocks(map, z, t);
                assert(r.cells()[z] == r.layers@[z]@);
            }
        }
        r
    }
}

/// The collider layer of floor `z` holds a tile (any non-zero id) at `t`.
pub open spec fn collider_tile_set(map: &ServerMap, z: i16, t: TileVec) -> bool {
    match collider_layer(map, z) {
        Some(l) => match (l.data, l.width, l.height) {
            (Some(data), Some(w), Some(h)) => 0 <= t.x < w && 0 <= t.y < h && data@[t.y * w + t.x]
                != 0,
            _ => false,
        },
        None => false,
    }
}

/// No hole object of floor `z` lies on the cell of `t`.
pub open spec fn no_hole_on(map: &ServerMap, z: i16, t: TileVec) -> bool {
    forall|k: int|
        0 <= k < obstacles(map, z).len() && (#[trigger] obstacles(map, z)[k]).name@ == "hole"@
            ==> cell_index(map.tiled.width as int, obstacles(map, z)[k].tile) != cell_index(
            map.tiled.width as int,
            t,
        )
}

/// Any tile of a floor's collider layer, whatever its id, makes a wall of
/// its cell unless a hole lies there.
pub proof fn lemma_set_collider_tile_blocks(map: &ServerMap, z: i16, t: TileVec)
    requires
        collider_tile_set(map, z, t),
        no_hole_on(map, z, t),
    ensures
        built_cell(map, z, cell_index(map.tiled.width as int, t)) == TileOccupant::Collider,
{
    let w = map.tiled.width as int;
    let i = cell_index(w, t);
    let l = collider_layer(map, z)->0;
    assert(collider_hit(l, w, t.x as int, t.y as int, i));
    assert forall|k: int| 0 <= k < obstacles(map, z).len() implies !hole_on(w, i)(
        #[trigger] obstacles(map, z)[k],
    ) by {}
    crate::search::lemma_last_match_unique(obstacles(map, z), hole_on(w, i), None);
}

/// Cell `i` of floor `z` after the collider layer has been laid down.
pub open spec fn collider_stage(map: &ServerMap, z: i16, i: int) -> TileOccupant {
    if collider_cell(map, z, i) {
        TileOccupant::Collider
    } else {
        TileOccupant::Empty
    }
}

/// Some tile before row `y`, or before column `x` in row `y`, of the collider
/// layer lands on cell `i` and is set.
pub open spec fn hit_before(layer: TiledLayer, width: int, y: int, x: int, i: int) -> bool {
    exists|xx: int, yy: int|
        (yy < y || (yy == y && xx < x)) && #[trigger] collider_hit(layer, width, xx, yy, i)
}

fn build_floor(map: &ServerMap, z: i16, width: usize, height: usize) -> (grid: Vec<TileOccupant>)
    requires
        buildable(map),
        is_floor(map, z),
        width == map.tiled.width,
        height == map.tiled.height,
    ensures
        grid@.len() == width * height,
        forall|i: int| 0 <= i < width * height ==> #[trigger] grid@[i] == built_cell(map, z, i),
{
    let total = width * height;
    let mut grid: Vec<TileOccupant> = Vec::new();
    while grid.len() < total
        invariant
            grid@.len() <= total,
            forall|i: int| 0 <= i < grid@.len() ==> #[trigger] grid@[i] == TileOccupant::Empty,
        decreases total - grid@.len(),
    {
        grid.push(TileOccupant::Empty);
    }
    let colliders_name = floor_layer_name(z, "colliders");
    proof {
        assert(colliders_name@ == floor_name(z, "colliders"@));
    }
    match map.tiled.get_layer(colliders_name.as_str()) {
        Some(layer) => {
            match &layer.data {
                Some(data) => {
                    let lw = layer.width.unwrap();
                    let lh = layer.height.unwrap();
                    let ghost lay = *layer;
                    assert(collider_layer(map, z) == Some(lay));
                    proof {
                        assert((lw as int) * (lh as int) <= data@.len());
                    }
                    let mut y: u32 = 0;
                    while y < lh
                        invariant
                            collider_layer(map, z) == Some(lay),
                            lay.data == Some(*data),
                            lay.width == Some(lw),
                            lay.height == Some(lh),
                            buildable(map),
                            is_floor(map, z),
                            width == map.tiled.width,
                            height == map.tiled.height,
                            total == width * height,
                            (lw as int) * (lh as int) <= data@.len(),
                            y <= lh,
                            grid@.len() == total,
                            forall|i: int|
                                0 <= i < total ==> #[trigger] grid@[i] == if hit_before(
                                    lay,
                                    width as int,
                                    y as int,
                                    0,
                                    i,
                                ) {
                                    TileOccupant::Collider
                                } else {
                                    TileOccupant::Empty
                                },
                        decreases lh - y,
                    {
                        let mut x: u32 = 0;
                        while x < lw
                            invariant
                                collider_layer(map, z) == Some(lay),
                                lay.data == Some(*data),
                                lay.width == Some(lw),
                                lay.height == Some(lh),
                                buildable(map),
                                is_floor(map, z),
                                width == map.tiled.width,
                                height == map.tiled.height,
                                total == width * height,
                                (lw as int) * (lh as int) <= data@.len(),
                                y < lh,
                                x <= lw,
                                grid@.len() == total,
                                forall|i: int|
                                    0 <= i < total ==> #[trigger] grid@[i] == if hit_before(
                                        lay,
                                        width as int,
                                        y as int,
                                        x as int,
                                        i,
                                    ) {
                                        TileOccupant::Collider
                                    } else {
                                        TileOccupant::Empty
                                    },
                            decreases lw - x,
                        {
                            proof {
                                assert((y as int) * (lw as int) + (x as int) < (lw as int) * (
                                lh as int)) by (nonlinear_arith)
                                    requires
                                        x < lw,
                                        y < lh,
                                ;
                            }
                            let dl = data.len();
                            let yu = y as usize;
                            let lwu = lw as usize;
                            let xu = x as usize;
                            proof {
                                assert(yu * lwu + xu < dl) by (nonlinear_arith)
                                    requires
                                        xu < lwu,
                                        yu < lh,
                                        (lwu as int) * (lh as int) <= dl,
                                ;
                            }
                            let didx = yu * lwu + xu;
                            let ghost before = grid@;
                            if data[didx] != 0 {
                                proof {
                                    assert(collider_layer_fits(map, z));
                                    assert(layer_tile_set(lay, x as int, y as int));
                                    assert(((y as int) * (width as int) + (x as int)) < (
                                    width as int) * (height as int));
                                }
                                let gidx = y as usize * width + x as usize;
                                grid.set(gidx, TileOccupant::Collider);
                                proof {
                                    assert forall|i: int| 0 <= i < total implies #[trigger] grid@[i]
                                        == if hit_before(
                                        lay,
                                        width as int,
                                        y as int,
                                        x + 1,
                                        i,
                                    ) {
                                        TileOccupant::Collider
                                    } else {
                                        TileOccupant::Empty
                                    } by {
                                        if i == gidx {
                                            assert(collider_hit(
                                                lay,
                                                width as int,
                                                x as int,
                                                y as int,
                                                i,
                                            ));
                                        } else {
                                            if hit_before(lay, width as int, y as int, x + 1, i) {
                                                let (xx, yy) = choose|xx: int, yy: int|
                                                    (yy < y || (yy == y && xx < x + 1))
                                                        && #[trigger] collider_hit(
                                                        lay,
                                                        width as int,
                                                        xx,
                                                        yy,
                                                        i,
                                                    );
                                                assert(yy < y || (yy == y && xx < x));
                                            }
                                        }
                                    }
                                }
                            } else {
                                proof {
                                    assert forall|i: int| 0 <= i < total implies #[trigger] grid@[i]
                                        == if hit_before(
                                        lay,
                                        width as int,
                                        y as int,
                                        x + 1,
                                        i,
                                    ) {
                                        TileOccupant::Collider
                                    } else {
                                        TileOccupant::Empty
                                    } by {
                                        if hit_before(lay, width as int, y as int, x + 1, i) {
                                            let (xx, yy) = choose|xx: int, yy: int|
                                                (yy < y || (yy == y && xx < x + 1))
                                                    && #[trigger] collider_hit(
                                                    lay,
                                                    width as int,
                                                    xx,
                                                    yy,
                                                    i,
                                                );
                                            if yy == y && xx == x {
                                                assert(false);
                                            }
                                        }
                                    }
                                }
                            }
                            x = x + 1;
                        }
                        proof {
                            assert forall|i: int| 0 <= i < total implies #[trigger] grid@[i]
                                == if hit_before(lay, width as int, y + 1, 0, i) {
                                TileOccupant::Collider
                            } else {
                                TileOccupant::Empty
                            } by {
                                if hit_before(lay, width as int, y + 1, 0, i) {
                                    let (xx, yy) = choose|xx: int, yy: int|
                                        (yy < y + 1 || (yy == y + 1 && xx < 0))
                                            && #[trigger] collider_hit(lay, width as int, xx, yy, i);
                                    assert(hit_before(lay, width as int, y as int, lw as int, i));
                                }
                                if hit_before(lay, width as int, y as int, lw as int, i) {
                                    let (xx, yy) = choose|xx: int, yy: int|
                                        (yy < y || (yy == y && xx < lw))
                                            && #[trigger] collider_hit(lay, width as int, xx, yy, i);
                                    assert(hit_before(lay, width as int, y + 1, 0, i));
                                }
                            }
                        }
                        y = y + 1;
                    }
                    proof {
                        assert forall|i: int| 0 <= i < total implies #[trigger] grid@[i]
                            == collider_stage(map, z, i) by {
                            if collider_cell(map, z, i) {
                                let (xx, yy) = choose|xx: int, yy: int|
                                    #[trigger] collider_hit(lay, width as int, xx, yy, i);
                                assert(hit_before(lay, width as int, lh as int, 0, i));
                            }
                        }
                    }
                },
                None => {
                    proof {
                        assert forall|i: int| 0 <= i < total implies #[trigger] grid@[i]
                            == collider_stage(map, z, i) by {}
                    }
                },
            }
        },
        None => {
            proof {
                assert forall|i: int| 0 <= i < total implies #[trigger] grid@[i]
                    == collider_stage(map, z, i) by {}
            }
        },
    }
    let ghost stage = grid@;
    let obstacles_name = floor_layer_name(z, "obstacles");
    let objs = map.tiled.get_objects(obstacles_name.as_str());
    proof {
        assert(objs@ == obstacles(map, z));
    }
    let m = objs.len();
    let mut k: usize = 0;
    while k < m
        invariant
            m == objs@.len(),
            objs@ == obstacles(map, z),
            k <= m,
            buildable(map),
            is_floor(map, z),
            width == map.tiled.width,
            height == map.tiled.height,
            total == width * height,
            grid@.len() == total,
            forall|i: int| 0 <= i < total ==> #[trigger] stage[i] == collider_stage(map, z, i),
            forall|i: int|
                0 <= i < total ==> #[trigger] grid@[i] == match last_match(
                    objs@.take(k as int),
                    hole_on(width as int, i),
                ) {
                    Some(j) => TileOccupant::Hole(fall_target(objs@[j], z) as i16),
                    None => stage[i],
                },
        decreases m - k,
    {
        let o = &objs[k];
        proof {
            assert(objs@.take(k + 1).drop_last() =~= objs@.take(k as int));
            assert(objs@.take(k + 1).last() == objs@[k as int]);
        }
        if str_eq(o.name.as_str(), "hole") {
            let fall_to = fall_destination(o, z);
            proof {
                assert(cell_index(width as int, o.tile) < total);
            }
            let gidx = o.tile.y as usize * width + o.tile.x as usize;
            grid.set(gidx, TileOccupant::Hole(fall_to));
            proof {
                assert forall|i: int| 0 <= i < total implies #[trigger] grid@[i] == match last_match(
                    objs@.take(k + 1),
                    hole_on(width as int, i),
                ) {
                    Some(j) => TileOccupant::Hole(fall_target(objs@[j], z) as i16),
                    None => stage[i],
                } by {
                    assert(hole_on(width as int, i)(objs@[k as int]) == (i == gidx));
                }
            }
        } else {
            proof {
                assert forall|i: int| 0 <= i < total implies #[trigger] grid@[i] == match last_match(
                    objs@.take(k + 1),
                    hole_on(width as int, i),
                ) {
                    Some(j) => TileOccupant::Hole(fall_target(objs@[j], z) as i16),
                    None => stage[i],
                } by {
                    assert(!hole_on(width as int, i)(objs@[k as int]));
                }
            }
        }
        k = k + 1;
    }
    proof {
        assert(objs@.take(m as int) =~= objs@);
    }
    grid
}

/// The floor a hole object drops to.
fn fall_destination(o: &TiledObject, z: i16) -> (r: i16)
    requires
        z > i16::MIN,
    ensures
        r == fall_target(*o, z),
{
    let fallback = z - 1;
    match &o.properties {
        Some(props) => {
            let n = props.len();
            let mut j: usize = 0;
            while j < n
                invariant
                    n == props@.len(),
                    o.properties == Some(*props),
                    fallback == z - 1,
                    j <= n,
                    forall|i: int| 0 <= i < j ==> !property_named("fall_to_layer"@)(#[trigger] props@[i]),
                decreases n - j,
            {
                if str_eq(props[j].name.as_str(), "fall_to_layer") {
                    proof {
                        lemma_first_match_unique(
                            props@,
                            property_named("fall_to_layer"@),
                            Some(j as int),
                        );
                    }
                    let parsed = parse_i16(props[j].value.as_str());
                    proof {
                        assert(first_match(props@, property_named("fall_to_layer"@)) == Some(j as int));
                        assert(parsed == parse_i16_spec(props@[j as int].value@));
                    }
                    return match parsed {
                        Some(v) => v,
                        None => fallback,
                    };
                }
                j = j + 1;
            }
            proof {
                lemma_first_match_unique(props@, property_named("fall_to_layer"@), None);
            }
            fallback
        },
        None => fallback,
    }
}


/// Name and tile of each object, in order.
pub open spec fn named_tiles(objs: Seq<TiledObject>) -> Seq<(Seq<char>, TileVec)> {
    objs.map_values(|o: TiledObject| (o.name@, o.tile))
}

pub open spec fn pairs_view(v: Seq<(String, TileVec)>) -> Seq<(Seq<char>, TileVec)> {
    v.map_values(|p: (String, TileVec)| (p.0@, p.1))
}

fn collect_named_tiles(objs: &[TiledObject]) -> (r: Vec<(String, TileVec)>)
    ensures
        pairs_view(r@) == named_tiles(objs@),
{
    let mut out: Vec<(String, TileVec)> = Vec::new();
    let n = objs.len();
    let mut i: usize = 0;
    while i < n
        invariant
            n == objs@.len(),
            i <= n,
            out@.len() == i,
            pairs_view(out@) =~= named_tiles(objs@.take(i as int)),
        decreases n - i,
    {
        let ghost before = out@;
        let nm = objs[i].name.clone();
        proof {
            assert(nm@ == objs@[i as int].name@);
        }
        out.push((nm, objs[i].tile));
        proof {
            assert(out@ == before.push((nm, objs@[i as int].tile)));
            assert(pairs_view(out@).len() == i + 1);
            assert(pairs_view(out@)[i as int] == (nm@, objs@[i as int].tile));
            assert forall|j: int| 0 <= j < i + 1 implies pairs_view(out@)[j] == named_tiles(
                objs@.take(i + 1),
            )[j] by {
                if j < i {
                    assert(pairs_view(out@)[j] == pairs_view(before)[j]);
                    assert(named_tiles(objs@.take(i as int))[j] == named_tiles(objs@.take(i + 1))[j]);
                }
            }
            assert(objs@.take(i + 1) =~= objs@.take(i as int).push(objs@[i as int]));
            assert(pairs_view(out@) =~= named_tiles(objs@.take(i + 1)));
        }
        i = i + 1;
    }
    proof {
        assert(objs@.take(n as int) =~= objs@);
    }
    out
}

impl ServerMap {
    /// Tile of the spawn point called `name` on the current floor: the first
    /// object so called on the layer `"{z}/spawns"`.
    pub fn get_spawn(&self, name: &str) -> (r: Option<TileVec>)
        ensures
            ({
                let objs = objects_of(
                    self.tiled.layers@,
                    floor_name(self.current_z, "spawns"@),
                );
                match first_match(objs, crate::tiled::object_named(name@)) {
                    Some(i) => r == Some(objs[i].tile),
                    None => r is None,
                }
            }),
    {
        let layer = floor_layer_name(self.current_z, "spawns");
        match self.tiled.get_object(layer.as_str(), name) {
            Some(o) => Some(o.tile),
            None => None,
        }
    }

    /// Name and tile of every spawn point of the current floor.
    pub fn get_spawns(&self) -> (r: Vec<(String, TileVec)>)
        ensures
            pairs_view(r@) == named_tiles(
                objects_of(self.tiled.layers@, floor_name(self.current_z, "spawns"@)),
            ),
    {
        let layer = floor_layer_name(self.current_z, "spawns");
        collect_named_tiles(self.tiled.get_objects(layer.as_str()))
    }

    /// Name and tile of every object of the layer `"{floor}/{layer}"`.
    pub fn get_objects_on_floor(&self, floor: i16, layer: &str) -> (r: Vec<(String, TileVec)>)
        ensures
            pairs_view(r@) == named_tiles(
                objects_of(self.tiled.layers@, floor_name(floor, layer@)),
            ),
    {
        let name = floor_layer_name(floor, layer);
        collect_named_tiles(self.tiled.get_objects(name.as_str()))
    }
}

} // verus!
