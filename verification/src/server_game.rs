use vstd::prelude::*;

use crate::server_map::{
    neighbours_fit, opt_view, pairs_view, step_ok, walk_between, ServerMap, TileGrid,
};
use crate::text::str_eq;
use crate::tile::{chebyshev, manhattan, TileVec};

verus! {

/// A direction of one step: each component is -1, 0 or 1.
pub open spec fn unit_dir(d: TileVec) -> bool {
    -1 <= d.x <= 1 && -1 <= d.y <= 1
}

pub open spec fn shifted(a: TileVec, d: TileVec) -> TileVec {
    TileVec { x: (a.x + d.x) as i32, y: (a.y + d.y) as i32 }
}

pub open spec fn is_diagonal(d: TileVec) -> bool {
    d.x != 0 && d.y != 0
}

/// Where a keyboard step from `pos` in direction `dir` lands: nowhere for
/// no direction; a diagonal step needs its target and both cardinal tiles
/// beside it to be walkable, a cardinal step its target.
pub open spec fn keyboard_step_spec(map: &ServerMap, grid: &TileGrid, pos: TileVec, dir: TileVec) -> Option<
    TileVec,
> {
    let z = map.current_z;
    let next = shifted(pos, dir);
    if dir.x == 0 && dir.y == 0 {
        None
    } else if is_diagonal(dir) {
        if grid.walkable(z, next) && grid.walkable(z, shifted(pos, TileVec { x: dir.x, y: 0 }))
            && grid.walkable(z, shifted(pos, TileVec { x: 0, y: dir.y })) {
            Some(next)
        } else {
            None
        }
    } else if grid.walkable(z, next) {
        Some(next)
    } else {
        None
    }
}

fn add_dir(a: TileVec, d: TileVec) -> (r: TileVec)
    requires
        neighbours_fit(a),
        unit_dir(d),
    ensures
        r == shifted(a, d),
{
    TileVec::new(a.x + d.x, a.y + d.y)
}

/// The tile a player moves to when stepping from `pos` in direction `dir`
/// with the keyboard, if the step is allowed.
pub fn keyboard_step(map: &ServerMap, grid: &TileGrid, pos: TileVec, dir: TileVec) -> (r: Option<
    TileVec,
>)
    requires
        grid.wf(),
        unit_dir(dir),
        dir.x != 0 || dir.y != 0 ==> neighbours_fit(pos),
    ensures
        r == keyboard_step_spec(map, grid, pos, dir),
        r matches Some(t) ==> t == shifted(pos, dir) && grid.walkable(map.current_z, t),
        r is Some && dir.x != 0 && dir.y != 0 ==> grid.walkable(
            map.current_z,
            shifted(pos, TileVec { x: dir.x, y: 0 }),
        ) && grid.walkable(map.current_z, shifted(pos, TileVec { x: 0, y: dir.y })),
{
    if dir.x == 0 && dir.y == 0 {
        return None;
    }
    let next = add_dir(pos, dir);
    let walkable = if dir.x != 0 && dir.y != 0 {
        map.is_walkable(next, grid) && map.is_walkable(add_dir(pos, TileVec::new(dir.x, 0)), grid)
            && map.is_walkable(add_dir(pos, TileVec::new(0, dir.y)), grid)
    } else {
        map.is_walkable(next, grid)
    };
    if walkable {
        Some(next)
    } else {
        None
    }
}

/// What happened when an entity tried to take the next step of its path.
#[derive(Clone, Copy, Debug, PartialEq, Eq, Structural)]
pub enum PathStep {
    /// It stepped onto this tile, which has been taken off the path.
    Moved(TileVec),
    /// The next tile cannot be walked; the path is left as it was.
    Blocked,
    /// The path is empty.
    Exhausted,
}

/// Takes the next step of `path` on the current floor if its first tile
/// can be walked.
pub fn advance_on_path(map: &ServerMap, grid: &TileGrid, path: &mut Vec<TileVec>) -> (r: PathStep)
    requires
        grid.wf(),
    ensures
        old(path)@.len() == 0 ==> r == PathStep::Exhausted && final(path)@ == old(path)@,
        old(path)@.len() > 0 && grid.walkable(map.current_z, old(path)@[0]) ==> r
            == PathStep::Moved(old(path)@[0]) && final(path)@ == old(path)@.skip(1),
        old(path)@.len() > 0 && !grid.walkable(map.current_z, old(path)@[0]) ==> r
            == PathStep::Blocked && final(path)@ == old(path)@,
{
    if path.len() == 0 {
        return PathStep::Exhausted;
    }
    let next = path[0];
    if map.is_walkable(next, grid) {
        let ghost before = path@;
        path.remove(0);
        assert(path@ =~= before.skip(1));
        PathStep::Moved(next)
    } else {
        PathStep::Blocked
    }
}

/// How far (in king moves) a creature of kind `kind` notices players.
pub open spec fn follow_range_spec(kind: Seq<char>) -> i32 {
    if kind == "ghost"@ {
        8
    } else if kind == "kitty"@ {
        4
    } else {
        0
    }
}

pub fn follow_range(kind: &str) -> (r: i32)
    ensures
        r == follow_range_spec(kind@),
{
    if str_eq(kind, "ghost") {
        8
    } else if str_eq(kind, "kitty") {
        4
    } else {
        0
    }
}

/// Player `k` is within `range` king moves of `pos`.
pub open spec fn in_reach(players: Seq<TileVec>, pos: TileVec, range: int, k: int) -> bool {
    0 <= k < players.len() && chebyshev(players[k], pos) <= range
}

/// Player `k` is the first of the players within reach that is closest to `pos`.
pub open spec fn is_nearest(players: Seq<TileVec>, pos: TileVec, range: int, k: int) -> bool {
    &&& in_reach(players, pos, range, k)
    &&& forall|j: int| #[trigger]
        in_reach(players, pos, range, j) ==> chebyshev(players[k], pos) <= chebyshev(
            players[j],
            pos,
        )
    &&& forall|j: int|
        0 <= j < k && #[trigger] in_reach(players, pos, range, j) ==> chebyshev(players[k], pos)
            < chebyshev(players[j], pos)
}

/// The player a creature at `pos` goes after.
pub open spec fn nearest_ok(players: Seq<TileVec>, pos: TileVec, range: int, r: Option<TileVec>) -> bool {
    match r {
        Some(t) => exists|k: int| #[trigger] is_nearest(players, pos, range, k) && players[k] == t,
        None => forall|j: int| !#[trigger] in_reach(players, pos, range, j),
    }
}

fn king_distance(a: TileVec, b: TileVec) -> (r: i64)
    ensures
        r == chebyshev(a, b),
{
    let dx: i64 = a.x as i64 - b.x as i64;
    let dy: i64 = a.y as i64 - b.y as i64;
    let ax: i64 = if dx < 0 { -dx } else { dx };
    let ay: i64 = if dy < 0 { -dy } else { dy };
    if ax >= ay {
        ax
    } else {
        ay
    }
}

fn step_distance(a: TileVec, b: TileVec) -> (r: i64)
    ensures
        r == manhattan(a, b),
{
    let dx: i64 = a.x as i64 - b.x as i64;
    let dy: i64 = a.y as i64 - b.y as i64;
    let ax: i64 = if dx < 0 { -dx } else { dx };
    let ay: i64 = if dy < 0 { -dy } else { dy };
    ax + ay
}

/// The first of the closest players within `range` king moves of `pos`.
pub fn nearest_player(players: &[TileVec], pos: TileVec, range: i32) -> (r: Option<TileVec>)
    ensures
        nearest_ok(players@, pos, range as int, r),
{
    let n = players.len();
    let mut best: Option<usize> = None;
    let mut i: usize = 0;
    while i < n
        invariant
            n == players@.len(),
            i <= n,
            match best {
                Some(k) => k < i && is_nearest(players@.take(i as int), pos, range as int, k as int),
                None => forall|j: int| !#[trigger] in_reach(players@.take(i as int), pos, range as int, j),
            },
        decreases n - i,
    {
        let d = king_distance(players[i], pos);
        let ghost pre = players@.take(i as int);
        let ghost post = players@.take(i + 1);
        proof {
            assert forall|j: int| 0 <= j < i implies #[trigger] post[j] == pre[j] by {}
            assert(post[i as int] == players@[i as int]);
        }
        if d <= range as i64 {
            let better = match best {
                Some(k) => d < king_distance(players[k], pos),
                None => true,
            };
            if better {
                proof {
                    assert forall|j: int| #[trigger] in_reach(post, pos, range as int, j) implies chebyshev(
                        post[i as int],
                        pos,
                    ) <= chebyshev(post[j], pos) by {
                        if j < i {
                            assert(in_reach(pre, pos, range as int, j));
                        }
                    }
                    assert forall|j: int|
                        0 <= j < i && #[trigger] in_reach(post, pos, range as int, j) implies chebyshev(
                        post[i as int],
                        pos,
                    ) < chebyshev(post[j], pos) by {
                        assert(in_reach(pre, pos, range as int, j));
                    }
                }
                best = Some(i);
            } else {
                proof {
                    let k = best->0 as int;
                    assert forall|j: int| #[trigger] in_reach(post, pos, range as int, j) implies chebyshev(
                        post[k],
                        pos,
                    ) <= chebyshev(post[j], pos) by {
                        if j < i {
                            assert(in_reach(pre, pos, range as int, j));
                        }
                    }
                    assert forall|j: int|
                        0 <= j < k && #[trigger] in_reach(post, pos, range as int, j) implies chebyshev(
                        post[k],
                        pos,
                    ) < chebyshev(post[j], pos) by {
                        assert(in_reach(pre, pos, range as int, j));
                    }
                    assert(in_reach(pre, pos, range as int, k));
                }
            }
        } else {
            proof {
                match best {
                    Some(k) => {
                        let k = k as int;
                        assert(in_reach(pre, pos, range as int, k));
                        assert forall|j: int| #[trigger] in_reach(post, pos, range as int, j) implies chebyshev(
                            post[k],
                            pos,
                        ) <= chebyshev(post[j], pos) by {
                            assert(in_reach(pre, pos, range as int, j));
                        }
                        assert forall|j: int|
                            0 <= j < k && #[trigger] in_reach(post, pos, range as int, j) implies chebyshev(
                            post[k],
                            pos,
                        ) < chebyshev(post[j], pos) by {
                            assert(in_reach(pre, pos, range as int, j));
                        }
                    },
                    None => {
                        assert forall|j: int| !#[trigger] in_reach(post, pos, range as int, j) by {
                            if in_reach(post, pos, range as int, j) {
                                assert(in_reach(pre, pos, range as int, j));
                            }
                        }
                    },
                }
            }
        }
        i = i + 1;
    }
    proof {
        assert(players@.take(n as int) =~= players@);
    }
    match best {
        Some(k) => Some(players[k]),
        None => None,
    }
}

/// The tiles beside `p`, in the order above, below, left, right.
pub open spec fn around(p: TileVec) -> Seq<TileVec> {
    seq![
        shifted(p, TileVec { x: 0, y: -1i32 }),
        shifted(p, TileVec { x: 0, y: 1 }),
        shifted(p, TileVec { x: -1i32, y: 0 }),
        shifted(p, TileVec { x: 1, y: 0 }),
    ]
}

/// Candidate `k` beside `player` can be walked on the current floor.
pub open spec fn open_beside(map: &ServerMap, grid: &TileGrid, player: TileVec, k: int) -> bool {
    0 <= k < 4 && grid.walkable(map.current_z, around(player)[k])
}

/// Candidate `k` is the first walkable tile beside `player` closest to `pos`.
pub open spec fn is_chase_tile(
    map: &ServerMap,
    grid: &TileGrid,
    player: TileVec,
    pos: TileVec,
    k: int,
) -> bool {
    &&& open_beside(map, grid, player, k)
    &&& forall|j: int| #[trigger]
        open_beside(map, grid, player, j) ==> manhattan(around(player)[k], pos) <= manhattan(
            around(player)[j],
            pos,
        )
    &&& forall|j: int|
        0 <= j < k && #[trigger] open_beside(map, grid, player, j) ==> manhattan(
            around(player)[k],
            pos,
        ) < manhattan(around(player)[j], pos)
}

pub open spec fn chase_ok(
    map: &ServerMap,
    grid: &TileGrid,
    player: TileVec,
    pos: TileVec,
    r: Option<TileVec>,
) -> bool {
    match r {
        Some(t) => exists|k: int| #[trigger]
            is_chase_tile(map, grid, player, pos, k) && around(player)[k] == t,
        None => forall|j: int| !#[trigger] open_beside(map, grid, player, j),
    }
}

/// The walkable tile beside `player` that a creature at `pos` heads for:
/// the first of the closest ones in the order above, below, left, right.
pub fn chase_tile(map: &ServerMap, grid: &TileGrid, player: TileVec, pos: TileVec) -> (r: Option<
    TileVec,
>)
    requires
        grid.wf(),
        neighbours_fit(player),
    ensures
        chase_ok(map, grid, player, pos, r),
{
    let cands = [
        add_dir(player, TileVec::new(0, -1)),
        add_dir(player, TileVec::new(0, 1)),
        add_dir(player, TileVec::new(-1, 0)),
        add_dir(player, TileVec::new(1, 0)),
    ];
    assert(cands@ =~= around(player));
    let mut best: Option<usize> = None;
    let mut i: usize = 0;
    while i < 4
        invariant
            i <= 4,
            grid.wf(),
            cands@ == around(player),
            match best {
                Some(k) => k < i && open_beside(map, grid, player, k as int) && (forall|j: int|
                    0 <= j < i && #[trigger] open_beside(map, grid, player, j) ==> manhattan(
                        around(player)[k as int],
                        pos,
                    ) <= manhattan(around(player)[j], pos)) && (forall|j: int|
                    0 <= j < k && #[trigger] open_beside(map, grid, player, j) ==> manhattan(
                        around(player)[k as int],
                        pos,
                    ) < manhattan(around(player)[j], pos)),
                None => forall|j: int| 0 <= j < i ==> !#[trigger] open_beside(map, grid, player, j),
            },
        decreases 4 - i,
    {
        let t = cands[i];
        if map.is_walkable(t, grid) {
            let d = step_distance(t, pos);
            let better = match best {
                Some(k) => d < step_distance(cands[k], pos),
                None => true,
            };
            if better {
                best = Some(i);
            }
        }
        i = i + 1;
    }
    match best {
        Some(k) => {
            proof {
                assert(is_chase_tile(map, grid, player, pos, k as int));
            }
            Some(cands[k])
        },
        None => {
            proof {
                assert forall|j: int| !#[trigger] open_beside(map, grid, player, j) by {}
            }
            None
        },
    }
}

/// Where a wandering creature ends up.
#[derive(Clone, Copy, Debug, PartialEq, Eq, Structural)]
pub enum Wander {
    /// It stepped onto this tile.
    Moved(TileVec),
    /// The tile it picked cannot be walked; it waits a little.
    Blocked,
    /// It picked no direction; it waits longer.
    Idle,
}

/// A creature at `pos` that picked direction `dir` at random.
pub open spec fn wander_spec(map: &ServerMap, grid: &TileGrid, pos: TileVec, dir: TileVec) -> Wander {
    if dir.x == 0 && dir.y == 0 {
        Wander::Idle
    } else if grid.walkable(map.current_z, shifted(pos, dir)) {
        Wander::Moved(shifted(pos, dir))
    } else {
        Wander::Blocked
    }
}

/// What a creature with nothing left of its path decides.
pub enum CreatureAction {
    /// Chase: walk this path (first tile next) to a tile beside the player.
    Chase(Vec<TileVec>),
    /// A player is near but no tile beside it can be reached: do nothing.
    Stay,
    /// No player is near: wander.
    Wandered(Wander),
}

/// The decision of a creature of kind `kind` at `pos`, with players at
/// `players`, when its random pick of direction would be `dir`.
pub open spec fn creature_decision_ok(
    map: &ServerMap,
    grid: &TileGrid,
    kind: Seq<char>,
    pos: TileVec,
    players: Seq<TileVec>,
    dir: TileVec,
    r: CreatureAction,
) -> bool {
    let range = follow_range_spec(kind) as int;
    let z = map.current_z;
    if exists|k: int| #[trigger] in_reach(players, pos, range, k) {
        exists|player: TileVec|
            #![trigger nearest_ok(players, pos, range, Some(player))]
            nearest_ok(players, pos, range, Some(player)) && ((forall|j: int|
                !#[trigger] open_beside(map, grid, player, j)) ==> r is Stay) && (forall|
                t: TileVec,
            |
                #![trigger chase_ok(map, grid, player, pos, Some(t))]
                chase_ok(map, grid, player, pos, Some(t)) ==> match r {
                    CreatureAction::Chase(p) => walk_between(map, grid, z, seq![pos] + p@, pos, t)
                        && forall|q: Seq<TileVec>| #[trigger]
                        walk_between(map, grid, z, q, pos, t) ==> p@.len() + 1 <= q.len(),
                    CreatureAction::Stay => forall|q: Seq<TileVec>|
                        !#[trigger] walk_between(map, grid, z, q, pos, t),
                    CreatureAction::Wandered(_) => false,
                })
    } else {
        r == CreatureAction::Wandered(wander_spec(map, grid, pos, dir))
    }
}

/// The decision of a creature whose path is used up, given the direction
/// it would pick at random if it wanders.
pub fn creature_decide(
    map: &ServerMap,
    grid: &TileGrid,
    kind: &str,
    pos: TileVec,
    players: &[TileVec],
    dir: TileVec,
) -> (r: CreatureAction)
    requires
        grid.wf(),
        unit_dir(dir),
        forall|k: int|
            #[trigger] in_reach(players@, pos, follow_range_spec(kind@) as int, k) ==> neighbours_fit(
                players@[k],
            ),
        (dir.x != 0 || dir.y != 0) && (forall|k: int|
            !#[trigger] in_reach(players@, pos, follow_range_spec(kind@) as int, k))
            ==> neighbours_fit(pos),
    ensures
        creature_decision_ok(map, grid, kind@, pos, players@, dir, r),
        r is Wandered ==> r == CreatureAction::Wandered(wander_spec(map, grid, pos, dir)),
{
    let range = follow_range(kind);
    match nearest_player(players, pos, range) {
        Some(player) => {
            proof {
                let k = choose|k: int| #[trigger]
                    is_nearest(players@, pos, range as int, k) && players@[k] == player;
                assert(in_reach(players@, pos, range as int, k));
                assert(neighbours_fit(players@[k]));
            }
            match chase_tile(map, grid, player, pos) {
                Some(target) => {
                    let r = match map.find_path(pos, target, grid) {
                        Some(path) => CreatureAction::Chase(path),
                        None => CreatureAction::Stay,
                    };
                    proof {
                        lemma_nearest_unique(players@, pos, range as int, player);
                        lemma_chase_unique(map, grid, player, pos, target);
                    }
                    r
                },
                None => {
                    proof {
                        lemma_nearest_unique(players@, pos, range as int, player);
                        assert forall|t: TileVec|
                            #![trigger chase_ok(map, grid, player, pos, Some(t))]
                            !chase_ok(map, grid, player, pos, Some(t)) by {
                            if chase_ok(map, grid, player, pos, Some(t)) {
                                let k = choose|k: int| #[trigger]
                                    is_chase_tile(map, grid, player, pos, k) && around(player)[k]
                                        == t;
                                assert(open_beside(map, grid, player, k));
                            }
                        }
                    }
                    CreatureAction::Stay
                },
            }
        },
        None => {
            let r = if dir.x == 0 && dir.y == 0 {
                Wander::Idle
            } else {
                let next = add_dir(pos, dir);
                if map.is_walkable(next, grid) {
                    Wander::Moved(next)
                } else {
                    Wander::Blocked
                }
            };
            CreatureAction::Wandered(r)
        },
    }
}

/// Only one player is nearest.
proof fn lemma_nearest_unique(players: Seq<TileVec>, pos: TileVec, range: int, t: TileVec)
    requires
        nearest_ok(players, pos, range, Some(t)),
    ensures
        forall|u: TileVec|
            #![trigger nearest_ok(players, pos, range, Some(u))]
            nearest_ok(players, pos, range, Some(u)) ==> u == t,
{
    let k = choose|k: int| #[trigger] is_nearest(players, pos, range, k) && players[k] == t;
    assert forall|u: TileVec|
        #![trigger nearest_ok(players, pos, range, Some(u))]
        nearest_ok(players, pos, range, Some(u)) implies u == t by {
        let m = choose|m: int| #[trigger] is_nearest(players, pos, range, m) && players[m] == u;
        if m < k {
            assert(in_reach(players, pos, range, m));
        } else if k < m {
            assert(in_reach(players, pos, range, k));
        }
    }
}

/// Only one tile beside a player is the one to chase.
proof fn lemma_chase_unique(
    map: &ServerMap,
    grid: &TileGrid,
    player: TileVec,
    pos: TileVec,
    t: TileVec,
)
    requires
        chase_ok(map, grid, player, pos, Some(t)),
    ensures
        forall|u: TileVec|
            #![trigger chase_ok(map, grid, player, pos, Some(u))]
            chase_ok(map, grid, player, pos, Some(u)) ==> u == t,
{
    let k = choose|k: int| #[trigger] is_chase_tile(map, grid, player, pos, k) && around(player)[k] == t;
    assert forall|u: TileVec|
        #![trigger chase_ok(map, grid, player, pos, Some(u))]
        chase_ok(map, grid, player, pos, Some(u)) implies u == t by {
        let m = choose|m: int| #[trigger] is_chase_tile(map, grid, player, pos, m) && around(player)[m] == u;
        if m < k {
            assert(open_beside(map, grid, player, m));
        } else if k < m {
            assert(open_beside(map, grid, player, k));
        }
    }
}


/// One coordinate of a random direction, by `rand::random_range(-1..=1)`.
///
/// Trusted: the crate documents that `random_range` returns a value in the
/// given range; which value is left to chance.
#[verifier::external_body]
fn random_unit() -> (r: i32)
    ensures
        -1 <= r <= 1,
{
    rand::random_range(-1..=1)
}

/// The decision of a creature whose path is used up; if it wanders, it
/// picks its direction at random.
pub fn creature_act(
    map: &ServerMap,
    grid: &TileGrid,
    kind: &str,
    pos: TileVec,
    players: &[TileVec],
) -> (r: CreatureAction)
    requires
        grid.wf(),
        forall|k: int|
            #[trigger] in_reach(players@, pos, follow_range_spec(kind@) as int, k) ==> neighbours_fit(
                players@[k],
            ),
        (forall|k: int| !#[trigger] in_reach(players@, pos, follow_range_spec(kind@) as int, k))
            ==> neighbours_fit(pos),
    ensures
        exists|dir: TileVec|
            unit_dir(dir) && #[trigger] creature_decision_ok(map, grid, kind@, pos, players@, dir, r)
                && (r is Wandered ==> r == CreatureAction::Wandered(wander_spec(map, grid, pos, dir))),
{
    let dir = TileVec::new(random_unit(), random_unit());
    creature_decide(map, grid, kind, pos, players, dir)
}


/// What one step along an entity's path `path` does: the tile stepped onto,
/// if any, and the path left.
pub open spec fn follow_ok(
    map: &ServerMap,
    grid: &TileGrid,
    keep_when_done: bool,
    path: Option<Seq<TileVec>>,
    r: Option<TileVec>,
    after: Option<Seq<TileVec>>,
) -> bool {
    &&& r matches Some(t) ==> grid.walkable(map.current_z, t)
    &&& match path {
        None => r is None && after is None,
        Some(p) => if p.len() == 0 {
            &&& r is None
            &&& after == (if keep_when_done {
                Some(p)
            } else {
                None
            })
        } else if grid.walkable(map.current_z, p[0]) {
            r == Some(p[0]) && after == Some(p.skip(1))
        } else {
            r is None && after is None
        },
    }
}

/// Takes the next step of the path `path` an entity follows, if it has one:
/// a step onto a tile that cannot be walked drops the path, and so does
/// reaching its end unless `keep_when_done`. Gives the tile stepped onto.
pub fn follow_path(map: &ServerMap, grid: &TileGrid, path: &mut Option<Vec<TileVec>>, keep_when_done: bool) -> (r:
    Option<TileVec>)
    requires
        grid.wf(),
    ensures
        follow_ok(map, grid, keep_when_done, opt_view(*old(path)), r, opt_view(*final(path))),
{
    let mut taken: Option<Vec<TileVec>> = None;
    std::mem::swap(&mut taken, path);
    match taken {
        None => None,
        Some(mut p) => {
            let ghost before = p@;
            match advance_on_path(map, grid, &mut p) {
                PathStep::Moved(t) => {
                    *path = Some(p);
                    Some(t)
                },
                PathStep::Blocked => None,
                PathStep::Exhausted => {
                    if keep_when_done {
                        *path = Some(p);
                    }
                    None
                },
            }
        },
    }
}

/// What a creature did in one tick of the game.
#[derive(Clone, Copy, Debug, PartialEq, Eq, Structural)]
pub enum CreatureStep {
    /// It stepped onto this tile.
    Moved(TileVec),
    /// It stays where it is for now (its path ended or was blocked, it
    /// planned a chase, or it cannot reach the player it noticed).
    Waiting,
    /// It tried to wander onto a tile that cannot be walked.
    Bumped,
    /// It picked no direction to wander in.
    Idle,
}

/// The step a decision `a` makes, and the path it leaves the creature with.
pub open spec fn decided_step(a: CreatureAction, r: CreatureStep, path: Option<Seq<TileVec>>) -> bool {
    match a {
        CreatureAction::Chase(q) => r == CreatureStep::Waiting && path == Some(q@),
        CreatureAction::Stay => r == CreatureStep::Waiting && path is None,
        CreatureAction::Wandered(Wander::Moved(t)) => r == CreatureStep::Moved(t) && path is None,
        CreatureAction::Wandered(Wander::Blocked) => r == CreatureStep::Bumped && path is None,
        CreatureAction::Wandered(Wander::Idle) => r == CreatureStep::Idle && path is None,
    }
}

/// What one tick does to a creature of kind `kind` at `pos` holding the
/// path `path`: the step it takes and the path it is left with.
pub open spec fn creature_tick_ok(
    map: &ServerMap,
    grid: &TileGrid,
    kind: Seq<char>,
    pos: TileVec,
    players: Seq<TileVec>,
    path: Option<Seq<TileVec>>,
    r: CreatureStep,
    after: Option<Seq<TileVec>>,
) -> bool {
    &&& r matches CreatureStep::Moved(t) ==> grid.walkable(map.current_z, t)
    &&& match path {
        Some(p) => if p.len() > 0 && grid.walkable(map.current_z, p[0]) {
            r == CreatureStep::Moved(p[0]) && after == Some(p.skip(1))
        } else {
            r == CreatureStep::Waiting && after is None
        },
        None => exists|dir: TileVec, a: CreatureAction|
            #![trigger creature_decision_ok(map, grid, kind, pos, players, dir, a)]
            unit_dir(dir) && creature_decision_ok(map, grid, kind, pos, players, dir, a)
                && decided_step(a, r, after),
    }
}

/// The creature tick asks this of the players around a creature with no
/// path: those near it, and the creature itself if none is, lie away from
/// the edges of the coordinates.
pub open spec fn tick_fits(kind: Seq<char>, pos: TileVec, players: Seq<TileVec>) -> bool {
    &&& forall|k: int|
        #[trigger] in_reach(players, pos, follow_range_spec(kind) as int, k) ==> neighbours_fit(
            players[k],
        )
    &&& (forall|k: int| !#[trigger] in_reach(players, pos, follow_range_spec(kind) as int, k))
        ==> neighbours_fit(pos)
}

/// One tick of a creature of kind `kind` at `pos` that is ready to act: it
/// follows its path if it has one (dropping it when it ends or is
/// blocked), else it decides what to do, wandering in a random direction
/// if no player is near.
pub fn creature_tick(
    map: &ServerMap,
    grid: &TileGrid,
    kind: &str,
    pos: TileVec,
    path: &mut Option<Vec<TileVec>>,
    players: &[TileVec],
) -> (r: CreatureStep)
    requires
        grid.wf(),
        opt_view(*old(path)) is None ==> tick_fits(kind@, pos, players@),
    ensures
        creature_tick_ok(map, grid, kind@, pos, players@, opt_view(*old(path)), r, opt_view(*final(path))),
{
    if path.is_some() {
        return match follow_path(map, grid, path, false) {
            Some(t) => CreatureStep::Moved(t),
            None => CreatureStep::Waiting,
        };
    }
    let action = creature_act(map, grid, kind, pos, players);
    let ghost a = action;
    let ghost dir = choose|dir: TileVec|
        unit_dir(dir) && #[trigger] creature_decision_ok(map, grid, kind@, pos, players@, dir, a)
            && (a is Wandered ==> a == CreatureAction::Wandered(wander_spec(map, grid, pos, dir)));
    match action {
        CreatureAction::Chase(q) => {
            *path = Some(q);
            CreatureStep::Waiting
        },
        CreatureAction::Stay => CreatureStep::Waiting,
        CreatureAction::Wandered(Wander::Moved(t)) => CreatureStep::Moved(t),
        CreatureAction::Wandered(Wander::Blocked) => CreatureStep::Bumped,
        CreatureAction::Wandered(Wander::Idle) => CreatureStep::Idle,
    }
}

/// A player in a tick: the path it follows, and whether it is ready to
/// take its next step.
pub struct Follower {
    pub path: Option<Vec<TileVec>>,
    pub ready: bool,
}

/// One tick of the players: each one ready takes the next step of its path,
/// all on the same grid. Gives the tile each one stepped onto, if any: a
/// player moves at most once in a tick, only if ready, and only onto a
/// walkable tile.
pub fn players_tick(map: &ServerMap, grid: &TileGrid, players: Vec<Follower>) -> (r: (
    Vec<Follower>,
    Vec<Option<TileVec>>,
))
    requires
        grid.wf(),
    ensures
        r.0@.len() == players@.len(),
        r.1@.len() == players@.len(),
        forall|i: int|
            0 <= i < players@.len() ==> (#[trigger] r.0@[i]).ready == players@[i].ready,
        forall|i: int|
            0 <= i < players@.len() && !players@[i].ready ==> #[trigger] r.1@[i] is None
                && r.0@[i] == players@[i],
        forall|i: int|
            0 <= i < players@.len() && players@[i].ready ==> follow_ok(
                map,
                grid,
                true,
                opt_view(players@[i].path),
                #[trigger] r.1@[i],
                opt_view(r.0@[i].path),
            ),
        forall|i: int|
            0 <= i < players@.len() ==> (#[trigger] r.1@[i] matches Some(t) ==> players@[i].ready
                && grid.walkable(map.current_z, t)),
{
    let ghost orig = players@;
    let mut rest = players;
    let mut out: Vec<Follower> = Vec::new();
    let mut moves: Vec<Option<TileVec>> = Vec::new();
    let n = rest.len();
    let mut i: usize = 0;
    while i < n
        invariant
            grid.wf(),
            n == orig.len(),
            i <= n,
            rest@ == orig.skip(i as int),
            out@.len() == i,
            moves@.len() == i,
            forall|j: int| 0 <= j < i ==> (#[trigger] out@[j]).ready == orig[j].ready,
            forall|j: int|
                0 <= j < i && !orig[j].ready ==> #[trigger] moves@[j] is None && out@[j] == orig[j],
            forall|j: int|
                0 <= j < i && orig[j].ready ==> follow_ok(
                    map,
                    grid,
                    true,
                    opt_view(orig[j].path),
                    #[trigger] moves@[j],
                    opt_view(out@[j].path),
                ),
        decreases n - i,
    {
        let f = rest.remove(0);
        proof {
            assert(f == orig[i as int]);
            assert(rest@ =~= orig.skip(i + 1));
        }
        if f.ready {
            let Follower { path, ready } = f;
            let mut path = path;
            let step = follow_path(map, grid, &mut path, true);
            out.push(Follower { path, ready });
            moves.push(step);
        } else {
            out.push(f);
            moves.push(None);
        }
        i = i + 1;
    }
    (out, moves)
}

/// A creature in a tick: its kind, tile and path, and whether it is ready
/// to act.
pub struct Mover {
    pub kind: String,
    pub pos: TileVec,
    pub path: Option<Vec<TileVec>>,
    pub ready: bool,
}

/// One tick of the creatures: each one ready follows its path or decides
/// what to do, all on the same grid and seeing the same players. Gives
/// each one's step: a creature moves at most once in a tick, only if ready,
/// and only onto a walkable tile, which becomes its tile.
pub fn creatures_tick(map: &ServerMap, grid: &TileGrid, creatures: Vec<Mover>, players: &[TileVec]) -> (r: (
    Vec<Mover>,
    Vec<CreatureStep>,
))
    requires
        grid.wf(),
        forall|i: int|
            0 <= i < creatures@.len() && (#[trigger] creatures@[i]).ready && creatures@[i].path is None
                ==> tick_fits(creatures@[i].kind@, creatures@[i].pos, players@),
    ensures
        r.0@.len() == creatures@.len(),
        r.1@.len() == creatures@.len(),
        forall|i: int|
            0 <= i < creatures@.len() ==> (#[trigger] r.0@[i]).kind == creatures@[i].kind
                && r.0@[i].ready == creatures@[i].ready && r.0@[i].pos == match r.1@[i] {
                CreatureStep::Moved(t) => t,
                _ => creatures@[i].pos,
            },
        forall|i: int|
            0 <= i < creatures@.len() && !creatures@[i].ready ==> #[trigger] r.1@[i]
                == CreatureStep::Waiting && r.0@[i] == creatures@[i],
        forall|i: int|
            0 <= i < creatures@.len() && creatures@[i].ready ==> creature_tick_ok(
                map,
                grid,
                creatures@[i].kind@,
                creatures@[i].pos,
                players@,
                opt_view(creatures@[i].path),
                #[trigger] r.1@[i],
                opt_view(r.0@[i].path),
            ),
        forall|i: int|
            0 <= i < creatures@.len() ==> (#[trigger] r.1@[i] matches CreatureStep::Moved(t)
                ==> creatures@[i].ready && grid.walkable(map.current_z, t)),
{
    let ghost orig = creatures@;
    let mut rest = creatures;
    let mut out: Vec<Mover> = Vec::new();
    let mut steps: Vec<CreatureStep> = Vec::new();
    let n = rest.len();
    let mut i: usize = 0;
    while i < n
        invariant
            grid.wf(),
            n == orig.len(),
            i <= n,
            rest@ == orig.skip(i as int),
            forall|k: int|
                0 <= k < orig.len() && (#[trigger] orig[k]).ready && orig[k].path is None
                    ==> tick_fits(orig[k].kind@, orig[k].pos, players@),
            out@.len() == i,
            steps@.len() == i,
            forall|j: int|
                0 <= j < i ==> (#[trigger] out@[j]).kind == orig[j].kind && out@[j].ready
                    == orig[j].ready && out@[j].pos == match steps@[j] {
                    CreatureStep::Moved(t) => t,
                    _ => orig[j].pos,
                },
            forall|j: int|
                0 <= j < i && !orig[j].ready ==> #[trigger] steps@[j] == CreatureStep::Waiting
                    && out@[j] == orig[j],
            forall|j: int|
                0 <= j < i && orig[j].ready ==> creature_tick_ok(
                    map,
                    grid,
                    orig[j].kind@,
                    orig[j].pos,
                    players@,
                    opt_view(orig[j].path),
                    #[trigger] steps@[j],
                    opt_view(out@[j].path),
                ),
        decreases n - i,
    {
        let m = rest.remove(0);
        proof {
            assert(m == orig[i as int]);
            assert(rest@ =~= orig.skip(i + 1));
        }
        if m.ready {
            let Mover { kind, pos, path, ready } = m;
            let mut path = path;
            let step = creature_tick(map, grid, kind.as_str(), pos, &mut path, players);
            let new_pos = match step {
                CreatureStep::Moved(t) => t,
                _ => pos,
            };
            out.push(Mover { kind, pos: new_pos, path, ready });
            steps.push(step);
        } else {
            out.push(m);
            steps.push(CreatureStep::Waiting);
        }
        i = i + 1;
    }
    (out, steps)
}

/// A keyboard step only ever lands on a walkable tile of the current floor,
/// one king move away.
pub proof fn lemma_keyboard_step_lands_on_walkable(
    map: &ServerMap,
    grid: &TileGrid,
    pos: TileVec,
    dir: TileVec,
)
    requires
        unit_dir(dir),
        neighbours_fit(pos),
        keyboard_step_spec(map, grid, pos, dir) is Some,
    ensures
        ({
            let t = keyboard_step_spec(map, grid, pos, dir)->0;
            grid.walkable(map.current_z, t) && chebyshev(t, pos) == 1
        }),
{
}

/// A diagonal keyboard step never cuts a wall corner: when it is taken,
/// both tiles beside it (one step along each axis) can be walked, as well
/// as the tile it lands on; if either side tile is blocked, no step is taken.
pub proof fn lemma_diagonal_step_keeps_off_corners(
    map: &ServerMap,
    grid: &TileGrid,
    pos: TileVec,
    dir: TileVec,
)
    requires
        unit_dir(dir),
        dir.x != 0,
        dir.y != 0,
    ensures
        keyboard_step_spec(map, grid, pos, dir) is Some ==> {
            &&& grid.walkable(map.current_z, shifted(pos, dir))
            &&& grid.walkable(map.current_z, shifted(pos, TileVec { x: dir.x, y: 0 }))
            &&& grid.walkable(map.current_z, shifted(pos, TileVec { x: 0, y: dir.y }))
        },
        !grid.walkable(map.current_z, shifted(pos, TileVec { x: dir.x, y: 0 }))
            || !grid.walkable(map.current_z, shifted(pos, TileVec { x: 0, y: dir.y }))
            ==> keyboard_step_spec(map, grid, pos, dir) is None,
{
}

/// A path found for a walk can be followed step by step on the same grid:
/// its first tile is walkable and one step away, and what is left after
/// that step is again a walk to the same end.
pub proof fn lemma_found_path_can_be_followed(
    map: &ServerMap,
    grid: &TileGrid,
    start: TileVec,
    end: TileVec,
    path: Seq<TileVec>,
)
    requires
        walk_between(map, grid, map.current_z, seq![start] + path, start, end),
        path.len() > 0,
    ensures
        grid.walkable(map.current_z, path[0]),
        manhattan(start, path[0]) == 1,
        walk_between(map, grid, map.current_z, path, path[0], end),
{
    let full = seq![start] + path;
    assert(full[0int + 1] == path[0]);
    assert(step_ok(map, grid, map.current_z, full[0], full[0int + 1]));
    assert forall|i: int| 0 <= i < path.len() - 1 implies #[trigger] step_ok(
        map,
        grid,
        map.current_z,
        path[i],
        path[i + 1],
    ) by {
        assert(full[i + 1] == path[i]);
        assert(full[(i + 1) + 1] == path[i + 1]);
        assert(step_ok(map, grid, map.current_z, full[i + 1], full[(i + 1) + 1]));
    }
    assert(full.last() == path.last());
}

/// A creature that wanders only ever ends up on a walkable tile of the
/// current floor, at most one king move away.
pub proof fn lemma_wander_stays_close(map: &ServerMap, grid: &TileGrid, pos: TileVec, dir: TileVec)
    requires
        unit_dir(dir),
        neighbours_fit(pos),
    ensures
        wander_spec(map, grid, pos, dir) matches Wander::Moved(t) ==> grid.walkable(
            map.current_z,
            t,
        ) && chebyshev(t, pos) == 1,
{
}


pub open spec fn not_player_spawn() -> spec_fn((Seq<char>, TileVec)) -> bool {
    |p: (Seq<char>, TileVec)| p.0 != "player"@
}

/// The creatures a floor starts with: every spawn point but the one called
/// `player`, in order.
pub fn creature_spawns(spawns: &Vec<(String, TileVec)>) -> (r: Vec<(String, TileVec)>)
    ensures
        pairs_view(r@) == pairs_view(spawns@).filter(not_player_spawn()),
{
    broadcast use vstd::seq_lib::group_seq_properties;

    let mut out: Vec<(String, TileVec)> = Vec::new();
    let n = spawns.len();
    let mut i: usize = 0;
    while i < n
        invariant
            n == spawns@.len(),
            i <= n,
            pairs_view(out@) == pairs_view(spawns@.take(i as int)).filter(not_player_spawn()),
        decreases n - i,
    {
        let ghost pre = pairs_view(spawns@.take(i as int));
        proof {
            assert(pairs_view(spawns@.take(i + 1)) =~= pre.push((spawns@[i as int].0@, spawns@[i as int].1)));
            pre.lemma_filter_push((spawns@[i as int].0@, spawns@[i as int].1), not_player_spawn());
        }
        if !str_eq(spawns[i].0.as_str(), "player") {
            let ghost before = out@;
            let name = spawns[i].0.clone();
            out.push((name, spawns[i].1));
            proof {
                assert(pairs_view(out@) =~= pairs_view(before).push((name@, spawns@[i as int].1)));
            }
        }
        i = i + 1;
    }
    proof {
        assert(spawns@.take(n as int) =~= spawns@);
    }
    out
}

} // verus!
