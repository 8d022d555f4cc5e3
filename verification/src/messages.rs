use vstd::prelude::*;

use crate::tile::TileVec;

verus! {

/// What a player asks for in one update: keys held, or a tile clicked.
#[derive(Clone, Copy, Debug, PartialEq, Eq, Structural)]
pub struct ClientInput {
    pub left: bool,
    pub up: bool,
    pub right: bool,
    pub down: bool,
    pub mouse_tile_pos: Option<TileVec>,
}

pub open spec fn b2i(b: bool) -> int {
    if b {
        1
    } else {
        0
    }
}

impl ClientInput {
    /// The step the held keys ask for: right minus left, down minus up.
    pub fn to_direction(&self) -> (r: TileVec)
        ensures
            r.x == b2i(self.right) - b2i(self.left),
            r.y == b2i(self.down) - b2i(self.up),
            -1 <= r.x <= 1,
            -1 <= r.y <= 1,
    {
        let r: i32 = if self.right { 1 } else { 0 };
        let l: i32 = if self.left { 1 } else { 0 };
        let d: i32 = if self.down { 1 } else { 0 };
        let u: i32 = if self.up { 1 } else { 0 };
        TileVec::new(r - l, d - u)
    }
}

/// A message from a client to the server.
pub enum ClientMessage {
    Login { username: String, password: String },
    Register { username: String, password: String },
    PlayerUpdate { input: ClientInput },
    ChatMessage { text: String },
    CastSpell { spell: String },
}

} // verus!
