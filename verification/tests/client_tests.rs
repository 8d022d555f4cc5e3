use dyrah::auth::{auth_refusal, check_login, hash_new_password, AuthRequest};
use dyrah::chat::{find_speaker, latest_lines_by_player};
use dyrah::client_map::{ClientMap, TileDraw, Tileset};
use dyrah::sprite::{creature_sheet, direction_column, face_direction, next_frame, row_start, Direction};
use dyrah::texture::TextureManager;
use dyrah::tile::TileVec;
use dyrah::tiled::{TileOffset, TiledLayer, TiledMap, TiledTileset};

fn tileset(firstgid: u32, image: &str) -> TiledTileset {
    TiledTileset {
        firstgid,
        image: Some(image.to_string()),
        tilewidth: Some(16),
        tileheight: Some(32),
        tileoffset: None,
    }
}

fn layer(name: &str, visible: bool, data: Option<Vec<u32>>) -> TiledLayer {
    TiledLayer {
        name: name.to_string(),
        visible,
        width: Some(3),
        height: Some(2),
        data,
        objects: Vec::new(),
    }
}

fn town() -> TiledMap {
    TiledMap {
        width: 3,
        height: 2,
        tilewidth: 16,
        tileheight: 16,
        layers: vec![
            layer("0/ground", true, Some(vec![1, 2, 0, 101, 0x8000_0001, 0])),
            layer("0/hidden", false, Some(vec![1; 6])),
            layer("1/roof", true, Some(vec![0, 0, 0, 0, 0, 5])),
            layer("2/walls", true, Some(vec![0; 6])),
            layer("-1/cellar", true, Some(vec![0; 6])),
            layer("notes", true, Some(vec![0; 6])),
        ],
        tilesets: vec![tileset(100, "b.png"), tileset(1, "a.png"), tileset(100, "c.png")],
    }
}

#[test]
fn tilesets_are_sorted_stably_by_first_id() {
    let map = ClientMap::new(town());
    let images: Vec<String> = map
        .tiled
        .tilesets
        .iter()
        .map(|t| t.image.clone().unwrap())
        .collect();
    assert_eq!(images, vec!["a.png", "b.png", "c.png"]);
    assert_eq!(map.current_z, 0);
}

#[test]
fn tile_draws_pick_the_source_rectangle() {
    let mut map = ClientMap::new(town());
    map.insert_tileset(1, Tileset { dimensions: (64, 64), texture: 7 });
    // tilesets starting at 100 have no image loaded: their tiles are skipped
    let draws = map.tile_draws("0/ground");
    assert_eq!(
        draws,
        vec![
            TileDraw {
                col: 0, row: 0, texture: 7, src_x: 0, src_y: 0, src_w: 16, src_h: 32,
                image_w: 64, image_h: 64, offset: None,
            },
            TileDraw {
                col: 1, row: 0, texture: 7, src_x: 16, src_y: 0, src_w: 16, src_h: 32,
                image_w: 64, image_h: 64, offset: None,
            },
            // the flip flag of 0x8000_0001 is dropped
            TileDraw {
                col: 1, row: 1, texture: 7, src_x: 0, src_y: 0, src_w: 16, src_h: 32,
                image_w: 64, image_h: 64, offset: None,
            },
        ]
    );
    map.insert_tileset(100, Tileset { dimensions: (32, 32), texture: 9 });
    let draws = map.tile_draws("0/ground");
    assert_eq!(draws.len(), 4);
    // id 101 falls in the second tileset starting at 100 (c.png comes last)
    assert_eq!(draws[2].texture, 9);
    assert_eq!((draws[2].src_x, draws[2].src_y), (16, 0));
    assert!(map.tile_draws("missing").is_empty());
    let _ = TileOffset { x: 0, y: 0 };
}

#[test]
fn layers_drawn_depend_on_the_roof() {
    let mut map = ClientMap::new(town());
    // outside: the visible layers of floor 0 and above
    assert_eq!(map.layers_to_draw(TileVec::new(0, 0)), vec![0, 2, 3]);
    // next to the roof tile at (2, 1): inside, only the current floor
    assert_eq!(map.layers_to_draw(TileVec::new(1, 0)), vec![0]);
    map.current_z = -1;
    assert_eq!(map.layers_to_draw(TileVec::new(0, 0)), vec![4]);
}

#[test]
fn sprite_frames_move_along_columns() {
    assert_eq!(next_frame(1, 4, 12), 5);
    assert_eq!(next_frame(9, 4, 12), 1);
    assert_eq!(next_frame(0, 4, 4), 0);
    assert_eq!(row_start(5, 4, 2), Some(8));
    assert_eq!(row_start(9, 4, 2), None);
    assert_eq!(direction_column(Direction::Right), 2);
    assert_eq!(face_direction(6, 4, Direction::Right), (6, false));
    assert_eq!(face_direction(6, 4, Direction::Down), (3, true));
    assert_eq!(creature_sheet("kitty"), Some((4, 4)));
    assert_eq!(creature_sheet("ghost"), Some((3, 4)));
    assert_eq!(creature_sheet("dragon"), None);
}

#[test]
fn textures_are_found_by_name() {
    let mut t = TextureManager::new();
    t.insert("player", 3);
    t.insert("kitty", 4);
    assert_eq!(t.get("player"), 3);
    assert_eq!(t.get("kitty"), 4);
    t.insert("player", 9);
    assert_eq!(t.get("player"), 9);
}

#[test]
fn registered_password_logs_in() {
    let hash = hash_new_password("hunter2").unwrap();
    assert_eq!(check_login(Some(&hash), "hunter2"), Ok(true));
    assert_eq!(check_login(Some(&hash), "hunter3"), Ok(false));
    // two registrations of one password are salted differently
    let again = hash_new_password("hunter2").unwrap();
    assert_ne!(hash, again);
}

#[test]
fn unknown_users_and_broken_hashes() {
    assert_eq!(check_login(None, "anything"), Ok(false));
    assert!(check_login(Some("not a phc string"), "anything").is_err());
}

#[test]
fn layers_are_checked_before_drawing() {
    let mut map = ClientMap::new(town());
    map.insert_tileset(1, Tileset { dimensions: (64, 64), texture: 7 });
    assert!(map.layer_can_draw("0/ground"));
    assert!(map.layer_can_draw("missing"));
    assert!(map.cell_fits(0));
    assert!(map.cell_fits(2));
    // an image narrower than one tile cannot be cut into tiles
    map.insert_tileset(100, Tileset { dimensions: (8, 64), texture: 9 });
    assert!(!map.cell_fits(101));
    assert!(!map.layer_can_draw("0/ground"));
    // a layer that holds fewer cells than its size says
    let mut short = town();
    short.layers[0].data = Some(vec![1, 2]);
    assert!(!ClientMap::new(short).layer_can_draw("0/ground"));
    let mut sizeless = town();
    sizeless.layers[0].width = None;
    assert!(!ClientMap::new(sizeless).layer_can_draw("0/ground"));
}

#[test]
fn textures_report_what_they_hold() {
    let mut t = TextureManager::new();
    assert!(!t.contains("ghost"));
    t.insert("ghost", 2);
    assert!(t.contains("ghost"));
    assert!(!t.contains("kitty"));
}

#[test]
fn chat_keeps_each_players_last_line() {
    let players = vec![(7u64, "ann".to_string()), (9u64, "bob".to_string()), (11u64, "ann".to_string())];
    let senders: Vec<String> = ["ann", "bob", "eve", "ann", "bob", "ann"]
        .iter()
        .map(|s| s.to_string())
        .collect();
    let latest = latest_lines_by_player(&senders, &players);
    assert_eq!(latest.len(), 2);
    // two players called ann: the first one speaks for the name
    assert_eq!(latest.get(&7), Some(&5));
    assert_eq!(latest.get(&9), Some(&4));
    assert_eq!(latest.get(&11), None);
    assert_eq!(find_speaker(&players, "eve"), None);
    assert_eq!(find_speaker(&players, "bob"), Some(9));
    assert!(latest_lines_by_player(&[], &players).is_empty());
}

#[test]
fn refused_requests_get_their_reason() {
    assert_eq!(auth_refusal(AuthRequest::Register, &Ok(true)), None);
    assert_eq!(auth_refusal(AuthRequest::Login, &Ok(true)), None);
    assert_eq!(
        auth_refusal(AuthRequest::Register, &Err("UNIQUE constraint failed".to_string())),
        Some("Username already taken".to_string())
    );
    assert_eq!(
        auth_refusal(AuthRequest::Login, &Ok(false)),
        Some("Invalid username or password".to_string())
    );
    assert_eq!(
        auth_refusal(AuthRequest::Login, &Err("bad hash".to_string())),
        Some("Invalid username or password".to_string())
    );
}

fn png(width: u32, height: u32) -> Vec<u8> {
    let mut bytes = Vec::new();
    image::RgbaImage::new(width, height)
        .write_to(&mut std::io::Cursor::new(&mut bytes), image::ImageFormat::Png)
        .unwrap();
    bytes
}

#[test]
fn tileset_images_are_decoded_for_their_size() {
    let mut map = ClientMap::new(town());
    assert!(map.load_tileset(1, &png(48, 32), 3));
    assert_eq!(map.loaded_set(1).map(|t| (t.dimensions, t.texture)), Some(((48, 32), 3)));
    // bytes that are no image leave the tileset unloaded
    assert!(!map.load_tileset(100, b"not an image", 4));
    assert!(map.loaded_set(100).is_none());
    assert_eq!(map.current_z, 0);
}

#[test]
fn cells_past_the_layer_size_are_never_read() {
    let mut map = town();
    // a seventh cell, past 3 x 2, pointing into a tileset too narrow to cut
    map.layers[0].data.as_mut().unwrap().push(101);
    let mut map = ClientMap::new(map);
    map.insert_tileset(1, Tileset { dimensions: (64, 64), texture: 7 });
    map.insert_tileset(100, Tileset { dimensions: (8, 64), texture: 9 });
    assert!(!map.cell_fits(101));
    // cell 3 holds 101 too: the layer cannot be drawn until it is cleared
    assert!(!map.layer_can_draw("0/ground"));
    let mut tiled = town();
    tiled.layers[0].data = Some(vec![1, 2, 0, 0, 1, 0, 101]);
    let mut map = ClientMap::new(tiled);
    map.insert_tileset(1, Tileset { dimensions: (64, 64), texture: 7 });
    map.insert_tileset(100, Tileset { dimensions: (8, 64), texture: 9 });
    assert!(map.layer_can_draw("0/ground"));
    assert_eq!(map.tile_draws("0/ground").len(), 3);
}

#[test]
fn roofs_only_matter_when_there_are_some() {
    let map = ClientMap::new(town());
    assert!(map.has_roof_layer());
    let mut tiled = town();
    tiled.layers.remove(2);
    let map = ClientMap::new(tiled);
    assert!(!map.has_roof_layer());
    // no roof: a tile at the edge of the coordinates is fine
    assert_eq!(map.layers_to_draw(TileVec::new(i32::MAX, i32::MIN)), vec![0, 2]);
}

#[test]
fn decoded_sizes_are_recorded() {
    let mut map = ClientMap::new(town());
    assert!(map.record_tileset(1, Some((64, 32)), 5));
    assert_eq!(map.loaded_set(1).map(|t| (t.dimensions, t.texture)), Some(((64, 32), 5)));
    assert!(!map.record_tileset(100, None, 6));
    assert!(map.loaded_set(100).is_none());
}
