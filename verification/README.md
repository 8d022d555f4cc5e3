# dyrah

A small online tile game, with its game logic verified by Verus.

`src/` is the library. Every function of it is proved against its contract,
but for a few small wrappers around outside crates (listed below), whose
contracts are trusted:

- `tiled` — the tile map (layers, objects, tilesets) and lookups by name;
- `text` — reading and writing floor numbers in layer names (`"-1/roof"`);
- `server_map` — the walkability grid of every floor and shortest paths on it;
- `server_game` — keyboard steps, path following and what creatures decide;
- `spells`, `combat` — spell areas and the damage a cast deals;
- `auth` — password hashing and login decisions;
- `chat` — which chat line each player's bubble shows;
- `session` — who waits to log in, who plays, and what the client knows of it;
- `client_map`, `sprite`, `texture` — what the client draws and how sprites animate;
- `search`, `tile`, `messages` — shared definitions.

Path search, password hashing, image decoding and random numbers come from
the `pathfinding`, `argon2`, `image` and `rand` crates, each behind a small
trusted wrapper (`astar_walk`, `hash_with_fresh_salt`, `verify_with_hash`,
`decode_image_size`, `random_unit`) whose contract says what the crate's
source shows, and no more.

`app/` is the program around it: the window and drawing (`egor`), the network
(`wrym`, `bincode`), the account database (`rusqlite`), the entity world
(`secs`) and everything that runs on floating-point time and positions.
Run `dyrah server` for the server, `dyrah` for the client.

`tests/` runs the library on concrete maps and inputs.
