use dyrah::server_map::{ServerMap, TileGrid, TileOccupant, TilePos};
use dyrah::text::{floor_layer_name, floor_prefix, parse_i16};
use dyrah::tile::TileVec;
use dyrah::tiled::{TiledLayer, TiledMap, TiledObject, TiledProperty};

fn tile_layer(name: &str, w: u32, h: u32, data: Vec<u32>) -> TiledLayer {
    TiledLayer {
        name: name.to_string(),
        visible: true,
        width: Some(w),
        height: Some(h),
        data: Some(data),
        objects: Vec::new(),
    }
}

fn object_layer(name: &str, objects: Vec<TiledObject>) -> TiledLayer {
    TiledLayer {
        name: name.to_string(),
        visible: true,
        width: None,
        height: None,
        data: None,
        objects,
    }
}

fn object(name: &str, x: i32, y: i32, props: Option<Vec<(&str, &str)>>) -> TiledObject {
    TiledObject {
        name: name.to_string(),
        tile: TileVec::new(x, y),
        properties: props.map(|ps| {
            ps.into_iter()
                .map(|(n, v)| TiledProperty { name: n.to_string(), value: v.to_string() })
                .collect()
        }),
    }
}

/// A 5x4 map: floor 0 has a wall in column 2 (rows 0..3), floor 1 has a hole.
fn sample_map() -> TiledMap {
    let walls = vec![
        0, 0, 1, 0, 0,
        0, 0, 1, 0, 0,
        0, 0, 1, 0, 0,
        0, 0, 0, 0, 0,
    ];
    TiledMap {
        width: 5,
        height: 4,
        tilewidth: 16,
        tileheight: 16,
        layers: vec![
            tile_layer("0/ground", 5, 4, vec![1; 20]),
            tile_layer("0/colliders", 5, 4, walls),
            object_layer(
                "0/spawns",
                vec![object("kitty", 4, 0, None), object("player", 0, 0, None), object("ghost", 1, 3, None)],
            ),
            object_layer(
                "0/obstacles",
                vec![
                    object("hole", 3, 3, None),
                    object("rock", 1, 1, None),
                    object("hole", 4, 3, Some(vec![("fall_to_layer", "-5")])),
                ],
            ),
            tile_layer("1/ground", 5, 4, vec![1; 20]),
            object_layer("1/obstacles", vec![object("hole", 0, 0, Some(vec![("other", "5")]))]),
        ],
        tilesets: Vec::new(),
    }
}

#[test]
fn parses_floor_prefix_like_str_parse() {
    assert_eq!(floor_prefix("1/colliders"), Some(1));
    assert_eq!(floor_prefix("-2/roof"), Some(-2));
    assert_eq!(floor_prefix("+7/x"), Some(7));
    assert_eq!(floor_prefix("ground"), None);
    assert_eq!(floor_prefix("a1/x"), None);
    assert_eq!(floor_prefix("/x"), None);
    assert_eq!(floor_prefix("32768/x"), None);
    assert_eq!(floor_prefix("-32768/x"), Some(-32768));
    assert_eq!(parse_i16("-"), None);
    assert_eq!(parse_i16("+"), None);
    assert_eq!(parse_i16("0042"), Some(42));
    assert_eq!(parse_i16("99999999999"), None);
}

#[test]
fn formats_floor_layer_names() {
    assert_eq!(floor_layer_name(0, "spawns"), "0/spawns");
    assert_eq!(floor_layer_name(-3, "roof"), "-3/roof");
    assert_eq!(floor_layer_name(i16::MIN, "a"), "-32768/a");
    assert_eq!(floor_layer_name(1200, "colliders"), "1200/colliders");
}

#[test]
fn grid_marks_colliders_and_holes() {
    let map = ServerMap::new(sample_map(), 0);
    let grid = TileGrid::new(&map);
    assert_eq!(grid.get(0, TileVec::new(2, 0)), Some(TileOccupant::Collider));
    assert_eq!(grid.get(0, TileVec::new(2, 3)), Some(TileOccupant::Empty));
    assert_eq!(grid.get(0, TileVec::new(3, 3)), Some(TileOccupant::Hole(-1)));
    assert_eq!(grid.get(0, TileVec::new(4, 3)), Some(TileOccupant::Hole(-5)));
    assert_eq!(grid.get(0, TileVec::new(1, 1)), Some(TileOccupant::Empty));
    // property other than fall_to_layer: falls one floor down
    assert_eq!(grid.get(1, TileVec::new(0, 0)), Some(TileOccupant::Hole(0)));
    assert_eq!(grid.get(1, TileVec::new(2, 0)), Some(TileOccupant::Empty));
    // unknown floor and off-grid tiles
    assert_eq!(grid.get(2, TileVec::new(0, 0)), None);
    assert_eq!(grid.get(0, TileVec::new(5, 0)), None);
    assert_eq!(grid.get(0, TileVec::new(-1, 0)), None);
    assert!(grid.is_walkable(0, TileVec::new(3, 3)));
    assert!(!grid.is_walkable(0, TileVec::new(2, 1)));
    assert!(!grid.is_walkable(0, TileVec::new(0, 4)));
}

#[test]
fn grid_update_marks_collider_positions_only_on_grid() {
    let map = ServerMap::new(sample_map(), 0);
    let mut grid = TileGrid::new(&map);
    grid.update(&[
        TilePos { vec: TileVec::new(0, 1), z: 0 },
        TilePos { vec: TileVec::new(9, 9), z: 0 },
        TilePos { vec: TileVec::new(1, 1), z: 7 },
        TilePos { vec: TileVec::new(4, 2), z: 1 },
    ]);
    assert_eq!(grid.get(0, TileVec::new(0, 1)), Some(TileOccupant::Collider));
    assert_eq!(grid.get(1, TileVec::new(4, 2)), Some(TileOccupant::Collider));
    assert_eq!(grid.get(0, TileVec::new(1, 1)), Some(TileOccupant::Empty));
    assert_eq!(grid.get(7, TileVec::new(1, 1)), None);
}

#[test]
fn find_path_goes_around_the_wall() {
    let map = ServerMap::new(sample_map(), 0);
    let grid = TileGrid::new(&map);
    let path = map.find_path(TileVec::new(0, 0), TileVec::new(4, 0), &grid).unwrap();
    // the wall blocks rows 0..3 of column 2: down to row 3, across, back up
    assert_eq!(path.len(), 10);
    assert_eq!(*path.last().unwrap(), TileVec::new(4, 0));
    assert!(path.contains(&TileVec::new(2, 3)));
    let mut prev = TileVec::new(0, 0);
    for t in &path {
        assert_eq!((t.x - prev.x).abs() + (t.y - prev.y).abs(), 1);
        assert!(map.is_walkable(*t, &grid));
        prev = *t;
    }
}

#[test]
fn find_path_edge_cases() {
    let map = ServerMap::new(sample_map(), 0);
    let mut grid = TileGrid::new(&map);
    // already there: nothing left to walk
    assert_eq!(map.find_path(TileVec::new(1, 1), TileVec::new(1, 1), &grid), Some(Vec::new()));
    // off the map, or into a wall
    assert_eq!(map.find_path(TileVec::new(0, 0), TileVec::new(7, 0), &grid), None);
    assert_eq!(map.find_path(TileVec::new(0, 0), TileVec::new(2, 1), &grid), None);
    // closing the gap at (2, 3) cuts the map in two
    grid.update(&[TilePos { vec: TileVec::new(2, 3), z: 0 }]);
    assert_eq!(map.find_path(TileVec::new(0, 0), TileVec::new(4, 0), &grid), None);
    // another floor
    let p = map.find_path_on(1, TileVec::new(0, 0), TileVec::new(2, 0), &grid).unwrap();
    assert_eq!(p, vec![TileVec::new(1, 0), TileVec::new(2, 0)]);
}

#[test]
fn spawns_come_from_the_current_floor() {
    let map = ServerMap::new(sample_map(), 0);
    assert_eq!(map.get_spawn("player"), Some(TileVec::new(0, 0)));
    assert_eq!(map.get_spawn("dragon"), None);
    let spawns = map.get_spawns();
    assert_eq!(
        spawns,
        vec![
            ("kitty".to_string(), TileVec::new(4, 0)),
            ("player".to_string(), TileVec::new(0, 0)),
            ("ghost".to_string(), TileVec::new(1, 3)),
        ]
    );
    let holes = map.get_objects_on_floor(1, "obstacles");
    assert_eq!(holes, vec![("hole".to_string(), TileVec::new(0, 0))]);
    assert!(map.get_objects_on_floor(3, "obstacles").is_empty());
    let other = ServerMap::new(sample_map(), 1);
    assert!(other.get_spawns().is_empty());
}

#[test]
fn tiled_lookups_take_the_first_match() {
    let mut tiled = sample_map();
    tiled.layers.push(object_layer("0/spawns", vec![object("late", 0, 0, None)]));
    assert_eq!(tiled.layer_index("0/spawns"), Some(2));
    assert_eq!(tiled.get_layer("nope").is_none(), true);
    assert_eq!(tiled.get_objects("0/spawns").len(), 3);
    assert_eq!(tiled.get_object("0/spawns", "ghost").unwrap().tile, TileVec::new(1, 3));
    assert!(tiled.has_tile("0/colliders", TileVec::new(2, 2)));
    assert!(!tiled.has_tile("0/colliders", TileVec::new(2, 3)));
    assert!(!tiled.has_tile("0/colliders", TileVec::new(9, 0)));
    assert!(!tiled.has_tile("0/spawns", TileVec::new(0, 0)));
}

#[test]
fn a_bare_tile_is_on_floor_zero() {
    let p = TilePos::from(TileVec::new(4, -2));
    assert_eq!(p, TilePos { vec: TileVec::new(4, -2), z: 0 });
    let q: TilePos = TileVec::new(0, 7).into();
    assert_eq!(q.z, 0);
    assert_eq!(q.vec, TileVec::new(0, 7));
}

#[test]
fn maps_are_checked_before_building_a_grid() {
    assert!(ServerMap::new(sample_map(), 0).is_buildable());
    // a hole below the map
    let mut off = sample_map();
    off.layers[3].objects.push(object("hole", 0, 4, None));
    assert!(!ServerMap::new(off, 0).is_buildable());
    // a negative tile only matters for holes
    let mut rock = sample_map();
    rock.layers[3].objects.push(object("rock", -1, 0, None));
    assert!(ServerMap::new(rock, 0).is_buildable());
    // a collider layer that holds fewer tiles than its size says
    let mut short = sample_map();
    short.layers[1].data = Some(vec![0; 3]);
    assert!(!ServerMap::new(short, 0).is_buildable());
    // a set collider tile past the last row of the map
    let mut tall = sample_map();
    tall.layers[1] = tile_layer("0/colliders", 5, 5, [vec![0; 20], vec![0, 0, 0, 0, 1]].concat());
    assert!(!ServerMap::new(tall, 0).is_buildable());
    // the same layer with its extra row empty fits
    let mut tall_empty = sample_map();
    tall_empty.layers[1] = tile_layer("0/colliders", 5, 5, vec![0; 25]);
    assert!(ServerMap::new(tall_empty, 0).is_buildable());
}

#[test]
fn floor_names_read_back() {
    for z in [i16::MIN, -300, -1, 0, 7, 1200, i16::MAX] {
        assert_eq!(floor_prefix(&floor_layer_name(z, "colliders")), Some(z));
        assert_eq!(floor_prefix(&floor_layer_name(z, "a/b")), Some(z));
        assert_eq!(floor_prefix(&floor_layer_name(z, "")), Some(z));
    }
}

#[test]
fn find_path_from_off_the_map() {
    let map = ServerMap::new(sample_map(), 0);
    let grid = TileGrid::new(&map);
    // one step onto the map, then along it
    assert_eq!(
        map.find_path(TileVec::new(-1, 0), TileVec::new(1, 0), &grid),
        Some(vec![TileVec::new(0, 0), TileVec::new(1, 0)])
    );
    // nowhere near the map, at the very edge of the coordinates
    assert_eq!(map.find_path(TileVec::new(i32::MIN, i32::MAX), TileVec::new(1, 0), &grid), None);
    assert_eq!(map.find_path(TileVec::new(i32::MAX, 0), TileVec::new(i32::MIN, 0), &grid), None);
}
