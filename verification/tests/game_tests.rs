use dyrah::combat::{resolve_cast, CastTarget, DamageEntry, Health};
use dyrah::messages::ClientInput;
use dyrah::server_game::{
    advance_on_path, chase_tile, creature_act, creature_decide, creature_tick, creatures_tick,
    follow_path, follow_range, keyboard_step, nearest_player, players_tick, CreatureAction,
    CreatureStep, Follower, Mover, PathStep, Wander,
};
use dyrah::auth::AuthRequest;
use dyrah::server_map::{path_after_start, ServerMap, TileGrid};
use dyrah::session::{AuthStep, ClientSession, ServerSessions};
use dyrah::spells::{area, get, gran_mas_flam};
use dyrah::tile::TileVec;
use dyrah::tiled::{TiledLayer, TiledMap};

/// A 6x6 floor with colliders at (1, 0) and (0, 1) and at (4, 4).
fn arena() -> (ServerMap, TileGrid) {
    let mut data = vec![0u32; 36];
    data[1] = 1;
    data[6] = 1;
    data[4 * 6 + 4] = 1;
    let tiled = TiledMap {
        width: 6,
        height: 6,
        tilewidth: 16,
        tileheight: 16,
        layers: vec![TiledLayer {
            name: "0/colliders".to_string(),
            visible: true,
            width: Some(6),
            height: Some(6),
            data: Some(data),
            objects: Vec::new(),
        }],
        tilesets: Vec::new(),
    };
    let map = ServerMap::new(tiled, 0);
    let grid = TileGrid::new(&map);
    (map, grid)
}

#[test]
fn keys_give_a_direction() {
    let input = ClientInput { left: true, up: false, right: false, down: true, mouse_tile_pos: None };
    assert_eq!(input.to_direction(), TileVec::new(-1, 1));
    let both = ClientInput { left: true, up: true, right: true, down: true, mouse_tile_pos: None };
    assert_eq!(both.to_direction(), TileVec::new(0, 0));
}

#[test]
fn diagonal_steps_cannot_cut_corners() {
    let (map, grid) = arena();
    // (0,0) -> (1,1): target free but both side tiles are walls
    assert_eq!(keyboard_step(&map, &grid, TileVec::new(0, 0), TileVec::new(1, 1)), None);
    // (2,2) -> (3,3): all free
    assert_eq!(
        keyboard_step(&map, &grid, TileVec::new(2, 2), TileVec::new(1, 1)),
        Some(TileVec::new(3, 3))
    );
    // cardinal step into a wall, and off the map
    assert_eq!(keyboard_step(&map, &grid, TileVec::new(2, 0), TileVec::new(-1, 0)), None);
    assert_eq!(keyboard_step(&map, &grid, TileVec::new(0, 3), TileVec::new(-1, 0)), None);
    assert_eq!(
        keyboard_step(&map, &grid, TileVec::new(2, 0), TileVec::new(0, 1)),
        Some(TileVec::new(2, 1))
    );
    assert_eq!(keyboard_step(&map, &grid, TileVec::new(2, 0), TileVec::new(0, 0)), None);
}

#[test]
fn path_steps_advance_block_or_run_out() {
    let (map, grid) = arena();
    let mut path = vec![TileVec::new(2, 1), TileVec::new(2, 2)];
    assert_eq!(advance_on_path(&map, &grid, &mut path), PathStep::Moved(TileVec::new(2, 1)));
    assert_eq!(path, vec![TileVec::new(2, 2)]);
    let mut blocked = vec![TileVec::new(4, 4), TileVec::new(4, 5)];
    assert_eq!(advance_on_path(&map, &grid, &mut blocked), PathStep::Blocked);
    assert_eq!(blocked.len(), 2);
    let mut empty: Vec<TileVec> = Vec::new();
    assert_eq!(advance_on_path(&map, &grid, &mut empty), PathStep::Exhausted);
}

#[test]
fn creatures_notice_players_by_kind() {
    assert_eq!(follow_range("ghost"), 8);
    assert_eq!(follow_range("kitty"), 4);
    assert_eq!(follow_range("bat"), 0);
    let players = [TileVec::new(9, 9), TileVec::new(3, 0), TileVec::new(0, 3), TileVec::new(3, 3)];
    // (3,0) and (0,3) are both 3 king moves away: the first one wins
    assert_eq!(nearest_player(&players, TileVec::new(0, 0), 4), Some(TileVec::new(3, 0)));
    assert_eq!(nearest_player(&players, TileVec::new(0, 0), 2), None);
    assert_eq!(nearest_player(&[], TileVec::new(0, 0), 8), None);
}

#[test]
fn creatures_head_for_the_closest_free_side_of_a_player() {
    let (map, grid) = arena();
    // player at (4,3): above (4,2), below (4,4) is a wall, left (3,3), right (5,3)
    assert_eq!(chase_tile(&map, &grid, TileVec::new(4, 3), TileVec::new(0, 3)), Some(TileVec::new(3, 3)));
    assert_eq!(chase_tile(&map, &grid, TileVec::new(4, 3), TileVec::new(4, 0)), Some(TileVec::new(4, 2)));
    // player in the corner (0,0): both free neighbours are walls or off the map
    assert_eq!(chase_tile(&map, &grid, TileVec::new(0, 0), TileVec::new(3, 3)), None);
}

#[test]
fn creature_decisions() {
    let (map, grid) = arena();
    let players = [TileVec::new(4, 3)];
    match creature_decide(&map, &grid, "kitty", TileVec::new(1, 3), &players, TileVec::new(0, 0)) {
        CreatureAction::Chase(p) => {
            assert_eq!(p, vec![TileVec::new(2, 3), TileVec::new(3, 3)]);
        }
        _ => panic!("the kitty should chase"),
    }
    // a bat does not notice anyone: it wanders in the given direction
    match creature_decide(&map, &grid, "bat", TileVec::new(1, 3), &players, TileVec::new(1, -1)) {
        CreatureAction::Wandered(w) => assert_eq!(w, Wander::Moved(TileVec::new(2, 2))),
        _ => panic!("the bat should wander"),
    }
    match creature_decide(&map, &grid, "bat", TileVec::new(1, 1), &players, TileVec::new(-1, 0)) {
        CreatureAction::Wandered(w) => assert_eq!(w, Wander::Blocked),
        _ => panic!("the bat should wander"),
    }
    match creature_decide(&map, &grid, "bat", TileVec::new(1, 1), &players, TileVec::new(0, 0)) {
        CreatureAction::Wandered(w) => assert_eq!(w, Wander::Idle),
        _ => panic!("the bat should wander"),
    }
    // player in the walled corner: noticed but out of reach
    match creature_decide(&map, &grid, "ghost", TileVec::new(3, 3), &[TileVec::new(0, 0)], TileVec::new(1, 0)) {
        CreatureAction::Stay => {}
        _ => panic!("the ghost should stay"),
    }
    // random wandering stays within one tile
    for _ in 0..20 {
        match creature_act(&map, &grid, "bat", TileVec::new(2, 2), &players) {
            CreatureAction::Wandered(Wander::Moved(t)) => {
                assert!((t.x - 2).abs() <= 1 && (t.y - 2).abs() <= 1);
            }
            CreatureAction::Wandered(_) => {}
            _ => panic!("the bat should wander"),
        }
    }
}

#[test]
fn spells_are_looked_up_by_name() {
    let s = get("exevo gran mas flam").unwrap();
    assert_eq!(s.name, "exevo gran mas flam");
    assert_eq!((s.mana_cost, s.cooldown_ms, s.damage, s.range), (60, 4000, 10, 4));
    assert!(get("exura").is_none());
    assert_eq!(gran_mas_flam().range, 4);
}

#[test]
fn area_is_a_diamond_in_row_order() {
    let tiles = area(TileVec::new(10, 10), 1);
    assert_eq!(
        tiles,
        vec![
            TileVec::new(10, 9),
            TileVec::new(9, 10),
            TileVec::new(10, 10),
            TileVec::new(11, 10),
            TileVec::new(10, 11),
        ]
    );
    assert_eq!(area(TileVec::new(0, 0), 4).len(), 41);
    assert_eq!(area(TileVec::new(0, 0), 0), vec![TileVec::new(0, 0)]);
    assert!(area(TileVec::new(0, 0), -1).is_empty());
}

#[test]
fn casting_damages_and_kills_creatures_in_the_area() {
    let spell = gran_mas_flam();
    let creatures = [
        CastTarget { id: 1, tile: TileVec::new(1, 1), health: Some(Health { current: 20, max: 20 }) },
        CastTarget { id: 2, tile: TileVec::new(9, 9), health: Some(Health { current: 20, max: 20 }) },
        CastTarget { id: 3, tile: TileVec::new(0, 4), health: Some(Health { current: 7, max: 20 }) },
        CastTarget { id: 4, tile: TileVec::new(2, 0), health: None },
        CastTarget { id: 5, tile: TileVec::new(0, 0), health: Some(Health { current: 10, max: 30 }) },
    ];
    let out = resolve_cast(&spell, TileVec::new(0, 0), &creatures);
    assert_eq!(out.affected_tiles.len(), 41);
    assert_eq!(out.hit_entities, vec![1, 3, 4, 5]);
    assert_eq!(
        out.damage_entries,
        vec![
            DamageEntry { id: 1, damage: 10, current: 10, max: 20 },
            DamageEntry { id: 3, damage: 7, current: 0, max: 20 },
            DamageEntry { id: 5, damage: 10, current: 0, max: 30 },
        ]
    );
    assert_eq!(out.died_ids, vec![3, 5]);
}

#[test]
fn players_far_away_are_ignored() {
    let (map, grid) = arena();
    // a player at the very edge of the coordinates is far out of reach
    let players = [TileVec::new(i32::MAX, i32::MIN), TileVec::new(4, 3)];
    match creature_decide(&map, &grid, "kitty", TileVec::new(1, 3), &players, TileVec::new(0, 0)) {
        CreatureAction::Chase(p) => assert_eq!(p, vec![TileVec::new(2, 3), TileVec::new(3, 3)]),
        _ => panic!("the kitty should chase the near player"),
    }
    assert_eq!(nearest_player(&players, TileVec::new(1, 3), 4), Some(TileVec::new(4, 3)));
    assert_eq!(nearest_player(&players, TileVec::new(-5, 3), 4), None);
}

#[test]
fn server_sessions_admit_and_refuse() {
    let mut s = ServerSessions::new();
    s.connect(1, "a:1".to_string());
    s.connect(2, "b:2".to_string());
    match s.answer_auth(2, AuthRequest::Login, &Ok(false)) {
        AuthStep::Refuse { addr, reason } => {
            assert_eq!(addr, "b:2");
            assert_eq!(reason, "Invalid username or password");
        }
        _ => panic!("a wrong password is refused"),
    }
    assert!(s.pending.contains_key(&2));
    match s.answer_auth(1, AuthRequest::Register, &Ok(true)) {
        AuthStep::Admit { addr } => assert_eq!(addr, "a:1"),
        _ => panic!("a new player is admitted"),
    }
    // admitted once: a second answer finds nobody waiting
    assert!(matches!(s.answer_auth(1, AuthRequest::Register, &Ok(true)), AuthStep::Ignore));
    assert!(!s.may_chat(1));
    s.join(1, 40, "ann".to_string());
    assert!(s.may_chat(1));
    assert_eq!(s.player_entity(1), Some(40));
    assert_eq!(s.disconnect(1), Some(40));
    assert_eq!(s.disconnect(2), None);
    assert!(s.pending.is_empty() && s.lobby.is_empty());
}

#[test]
fn client_session_follows_the_server() {
    let mut c = ClientSession::new();
    assert!(!c.in_game);
    c.on_auth_failed("Username already taken".to_string());
    assert_eq!(c.auth_error.as_deref(), Some("Username already taken"));
    c.on_auth_success(7);
    assert!(c.in_game && c.auth_error.is_none());
    c.on_player_spawned(3, "bob".to_string(), 30);
    assert_eq!(c.player, None);
    c.on_player_spawned(7, "ann".to_string(), 70);
    assert_eq!(c.player, Some(70));
    assert_eq!(c.sender_name(3), "bob");
    assert_eq!(c.sender_name(12345), "12345");
    assert_eq!(c.player_entity(3), Some(30));
    assert_eq!(c.on_player_despawned(3), Some(30));
    assert_eq!(c.on_player_despawned(3), None);
    c.on_disconnected();
    assert!(!c.in_game);
    assert_eq!(c.auth_error.as_deref(), Some("Lost connection to server"));
}

#[test]
fn shortest_paths_on_the_current_floor_are_the_same() {
    let (map, grid) = arena();
    let a = map.find_path(TileVec::new(0, 0), TileVec::new(5, 5), &grid);
    let b = map.find_path_on(map.current_z, TileVec::new(0, 0), TileVec::new(5, 5), &grid);
    assert_eq!(a, b);
    assert_eq!(path_after_start(Some(vec![TileVec::new(1, 1), TileVec::new(1, 2)])), Some(vec![TileVec::new(1, 2)]));
    assert_eq!(path_after_start(Some(Vec::new())), Some(Vec::new()));
    assert_eq!(path_after_start(None), None);
}

#[test]
fn spell_areas_move_with_their_origin() {
    let base = area(TileVec::new(0, 0), 2);
    let moved: Vec<TileVec> = base.iter().map(|t| TileVec::new(t.x + 10, t.y - 3)).collect();
    assert_eq!(area(TileVec::new(10, -3), 2), moved);
}

#[test]
fn frames_come_back_after_a_full_cycle() {
    let mut f = 6;
    for _ in 0..3 {
        f = dyrah::sprite::next_frame(f, 4, 12);
        assert_eq!(f % 4, 2);
    }
    assert_eq!(f, 6);
}

#[test]
fn following_a_path_tick_by_tick() {
    let (map, grid) = arena();
    let mut path = Some(vec![TileVec::new(2, 2), TileVec::new(2, 3)]);
    assert_eq!(follow_path(&map, &grid, &mut path, true), Some(TileVec::new(2, 2)));
    assert_eq!(path, Some(vec![TileVec::new(2, 3)]));
    assert_eq!(follow_path(&map, &grid, &mut path, true), Some(TileVec::new(2, 3)));
    // at the end: kept when asked to, dropped otherwise
    assert_eq!(follow_path(&map, &grid, &mut path, true), None);
    assert_eq!(path, Some(Vec::new()));
    assert_eq!(follow_path(&map, &grid, &mut path, false), None);
    assert_eq!(path, None);
    // a blocked step drops the path
    let mut blocked = Some(vec![TileVec::new(4, 4), TileVec::new(4, 5)]);
    assert_eq!(follow_path(&map, &grid, &mut blocked, true), None);
    assert_eq!(blocked, None);
}

#[test]
fn creature_ticks() {
    let (map, grid) = arena();
    let players = [TileVec::new(4, 3)];
    // with a path: follow it
    let mut path = Some(vec![TileVec::new(2, 3)]);
    assert_eq!(creature_tick(&map, &grid, "kitty", TileVec::new(1, 3), &mut path, &players), CreatureStep::Moved(TileVec::new(2, 3)));
    assert_eq!(path, Some(Vec::new()));
    // the path has run out: it is dropped
    assert_eq!(creature_tick(&map, &grid, "kitty", TileVec::new(2, 3), &mut path, &players), CreatureStep::Waiting);
    assert_eq!(path, None);
    // no path and a player near: plan a chase
    assert_eq!(creature_tick(&map, &grid, "kitty", TileVec::new(1, 3), &mut path, &players), CreatureStep::Waiting);
    assert_eq!(path, Some(vec![TileVec::new(2, 3), TileVec::new(3, 3)]));
    // nobody near: wander at random, one step at most, onto a walkable tile
    for _ in 0..20 {
        let mut none = None;
        match creature_tick(&map, &grid, "bat", TileVec::new(2, 2), &mut none, &players) {
            CreatureStep::Moved(t) => {
                assert!((t.x - 2).abs() <= 1 && (t.y - 2).abs() <= 1);
                assert!(map.is_walkable(t, &grid));
            }
            CreatureStep::Bumped | CreatureStep::Idle => {}
            CreatureStep::Waiting => panic!("a wandering creature does not wait"),
        }
        assert_eq!(none, None);
    }
}

#[test]
fn a_whole_tick_moves_each_ready_entity_once() {
    let (map, grid) = arena();
    let followers = vec![
        Follower { path: Some(vec![TileVec::new(2, 2), TileVec::new(2, 3)]), ready: true },
        Follower { path: Some(vec![TileVec::new(3, 3)]), ready: false },
        Follower { path: Some(vec![TileVec::new(4, 4)]), ready: true },
    ];
    let (after, moves) = players_tick(&map, &grid, followers);
    assert_eq!(moves, vec![Some(TileVec::new(2, 2)), None, None]);
    assert_eq!(after[0].path, Some(vec![TileVec::new(2, 3)]));
    assert_eq!(after[1].path, Some(vec![TileVec::new(3, 3)]));
    assert_eq!(after[2].path, None);

    let movers = vec![
        Mover { kind: "kitty".to_string(), pos: TileVec::new(1, 3), path: Some(vec![TileVec::new(2, 3)]), ready: true },
        Mover { kind: "ghost".to_string(), pos: TileVec::new(5, 5), path: None, ready: false },
        Mover { kind: "kitty".to_string(), pos: TileVec::new(1, 3), path: None, ready: true },
    ];
    let (after, steps) = creatures_tick(&map, &grid, movers, &[TileVec::new(4, 3)]);
    assert_eq!(steps, vec![CreatureStep::Moved(TileVec::new(2, 3)), CreatureStep::Waiting, CreatureStep::Waiting]);
    assert_eq!(after[0].pos, TileVec::new(2, 3));
    assert_eq!(after[1].pos, TileVec::new(5, 5));
    assert_eq!(after[2].path, Some(vec![TileVec::new(2, 3), TileVec::new(3, 3)]));
}
