//! Game logic of the Dyrah online tile game: the map model, the
//! walkability grid and path finding, creature behaviour, spells and
//! authentication, and what the client draws.
pub mod auth;
pub mod chat;
pub mod client_map;
pub mod combat;
pub mod messages;
pub mod search;
pub mod server_game;
pub mod server_map;
pub mod session;
pub mod spells;
pub mod sprite;
pub mod text;
pub mod texture;
pub mod tile;
pub mod tiled;
