use std::collections::HashMap;

use vstd::prelude::*;

use crate::auth::{auth_refusal, refusal_text, AuthRequest};
use crate::text::{decimal, decimal_u64};

verus! {

broadcast use vstd::std_specs::hash::group_hash_axioms;

/// What the server does with the answer to a client's authentication request.
pub enum AuthStep {
    /// Let the client at `addr` play.
    Admit { addr: String },
    /// Tell the client at `addr` why it may not play.
    Refuse { addr: String, reason: String },
    /// The client is not waiting to authenticate: nothing to do.
    Ignore,
}

/// The server's clients: those connected and not yet playing, by id with
/// their address, and the players, by id with their entity and name.
pub struct ServerSessions {
    pub pending: HashMap<u64, String>,
    pub lobby: HashMap<u64, (u64, String)>,
}

impl ServerSessions {
    pub fn new() -> (r: ServerSessions)
        ensures
            r.pending@ == Map::<u64, String>::empty(),
            r.lobby@ == Map::<u64, (u64, String)>::empty(),
    {
        ServerSessions { pending: HashMap::new(), lobby: HashMap::new() }
    }

    /// A client connected from `addr`: it waits to authenticate.
    pub fn connect(&mut self, id: u64, addr: String)
        ensures
            final(self).pending@ == old(self).pending@.insert(id, addr),
            final(self).lobby@ == old(self).lobby@,
    {
        self.pending.insert(id, addr);
    }

    /// The answer `outcome` to the authentication request of client `id`:
    /// a waiting client that succeeded leaves the waiting list and is let in;
    /// a waiting client that failed is told why and keeps waiting; any other
    /// client is ignored.
    pub fn answer_auth(&mut self, id: u64, request: AuthRequest, outcome: &Result<bool, String>) -> (r:
        AuthStep)
        ensures
            final(self).lobby@ == old(self).lobby@,
            match outcome {
                Ok(true) => if old(self).pending@.contains_key(id) {
                    &&& r == AuthStep::Admit { addr: old(self).pending@[id] }
                    &&& final(self).pending@ == old(self).pending@.remove(id)
                } else {
                    &&& r is Ignore
                    &&& final(self).pending@ == old(self).pending@
                },
                _ => {
                    &&& final(self).pending@ == old(self).pending@
                    &&& if old(self).pending@.contains_key(id) {
                        r matches AuthStep::Refuse { addr, reason } && addr@
                            == old(self).pending@[id]@ && reason@ == refusal_text(request)
                    } else {
                        r is Ignore
                    }
                },
            },
    {
        match auth_refusal(request, outcome) {
            None => match self.pending.remove(&id) {
                Some(addr) => AuthStep::Admit { addr },
                None => AuthStep::Ignore,
            },
            Some(reason) => match self.pending.get(&id) {
                Some(addr) => AuthStep::Refuse { addr: addr.clone(), reason },
                None => AuthStep::Ignore,
            },
        }
    }

    /// Client `id` now plays as `entity`, called `username`.
    pub fn join(&mut self, id: u64, entity: u64, username: String)
        ensures
            final(self).lobby@ == old(self).lobby@.insert(id, (entity, username)),
            final(self).pending@ == old(self).pending@,
    {
        self.lobby.insert(id, (entity, username));
    }

    /// Client `id` is gone: it stops waiting and playing; the entity it
    /// played as, if any, is to be removed.
    pub fn disconnect(&mut self, id: u64) -> (r: Option<u64>)
        ensures
            final(self).pending@ == old(self).pending@.remove(id),
            final(self).lobby@ == old(self).lobby@.remove(id),
            r == (if old(self).lobby@.contains_key(id) {
                Some(old(self).lobby@[id].0)
            } else {
                None
            }),
    {
        self.pending.remove(&id);
        match self.lobby.remove(&id) {
            Some((entity, _)) => Some(entity),
            None => None,
        }
    }

    /// Only players may chat.
    pub fn may_chat(&self, id: u64) -> (r: bool)
        ensures
            r == self.lobby@.contains_key(id),
    {
        self.lobby.contains_key(&id)
    }

    /// The entity client `id` plays as.
    pub fn player_entity(&self, id: u64) -> (r: Option<u64>)
        ensures
            r == (if self.lobby@.contains_key(id) {
                Some(self.lobby@[id].0)
            } else {
                None
            }),
    {
        match self.lobby.get(&id) {
            Some(p) => Some(p.0),
            None => None,
        }
    }
}

/// An authenticated client is admitted once: after it is let in it no
/// longer waits, so a second answer to it is ignored.
pub proof fn lemma_admitted_once(before: Map<u64, String>, after: Map<u64, String>, id: u64)
    requires
        before.contains_key(id),
        after == before.remove(id),
    ensures
        !after.contains_key(id),
{
}

/// What the client knows of the game: whether it plays, why it could not
/// log in, its own id and entity, and the players by id with their entity
/// and name.
pub struct ClientSession {
    pub in_game: bool,
    pub auth_error: Option<String>,
    pub player_id: Option<u64>,
    pub player: Option<u64>,
    pub lobby: HashMap<u64, (u64, String)>,
}

impl ClientSession {
    /// Not logged in yet, knowing no one.
    pub fn new() -> (r: ClientSession)
        ensures
            !r.in_game,
            r.auth_error is None,
            r.player_id is None,
            r.player is None,
            r.lobby@ == Map::<u64, (u64, String)>::empty(),
    {
        ClientSession {
            in_game: false,
            auth_error: None,
            player_id: None,
            player: None,
            lobby: HashMap::new(),
        }
    }

    /// The server let this client in as `id`.
    pub fn on_auth_success(&mut self, id: u64)
        ensures
            final(self).in_game,
            final(self).auth_error is None,
            final(self).player_id == Some(id),
            final(self).player == old(self).player,
            final(self).lobby@ == old(self).lobby@,
    {
        self.player_id = Some(id);
        self.in_game = true;
        self.auth_error = None;
    }

    /// The server refused this client, saying `reason`.
    pub fn on_auth_failed(&mut self, reason: String)
        ensures
            final(self).auth_error == Some(reason),
            final(self).in_game == old(self).in_game,
            final(self).player_id == old(self).player_id,
            final(self).player == old(self).player,
            final(self).lobby@ == old(self).lobby@,
    {
        self.auth_error = Some(reason);
    }

    /// The connection to the server was lost: back to logging in.
    pub fn on_disconnected(&mut self)
        ensures
            !final(self).in_game,
            final(self).auth_error matches Some(e) && e@ == "Lost connection to server"@,
            final(self).player_id == old(self).player_id,
            final(self).player == old(self).player,
            final(self).lobby@ == old(self).lobby@,
    {
        self.in_game = false;
        self.auth_error = Some("Lost connection to server".to_owned());
    }

    /// Player `id`, called `username`, appeared as `entity`; if it is this
    /// client's own player, the client plays as it.
    pub fn on_player_spawned(&mut self, id: u64, username: String, entity: u64)
        ensures
            final(self).lobby@ == old(self).lobby@.insert(id, (entity, username)),
            final(self).player_id == old(self).player_id,
            old(self).player_id == Some(id) ==> final(self).player == Some(entity)
                && final(self).in_game,
            old(self).player_id != Some(id) ==> final(self).player == old(self).player
                && final(self).in_game == old(self).in_game,
            final(self).auth_error == old(self).auth_error,
    {
        self.lobby.insert(id, (entity, username));
        if self.player_id == Some(id) {
            self.player = Some(entity);
            self.in_game = true;
        }
    }

    /// Player `id` disappeared; its entity, if it was known, is to be removed.
    pub fn on_player_despawned(&mut self, id: u64) -> (r: Option<u64>)
        ensures
            final(self).lobby@ == old(self).lobby@.remove(id),
            r == (if old(self).lobby@.contains_key(id) {
                Some(old(self).lobby@[id].0)
            } else {
                None
            }),
            final(self).in_game == old(self).in_game,
            final(self).player_id == old(self).player_id,
            final(self).player == old(self).player,
            final(self).auth_error == old(self).auth_error,
    {
        match self.lobby.remove(&id) {
            Some((entity, _)) => Some(entity),
            None => None,
        }
    }

    /// The entity player `id` appears as.
    pub fn player_entity(&self, id: u64) -> (r: Option<u64>)
        ensures
            r == (if self.lobby@.contains_key(id) {
                Some(self.lobby@[id].0)
            } else {
                None
            }),
    {
        match self.lobby.get(&id) {
            Some(p) => Some(p.0),
            None => None,
        }
    }

    /// The name a chat line from `sender_id` is shown under: the player's
    /// name, or the id itself for someone not known.
    pub fn sender_name(&self, sender_id: u64) -> (r: String)
        ensures
            r@ == (if self.lobby@.contains_key(sender_id) {
                self.lobby@[sender_id].1@
            } else {
                decimal(sender_id as int)
            }),
    {
        match self.lobby.get(&sender_id) {
            Some(p) => p.1.clone(),
            None => decimal_u64(sender_id),
        }
    }
}

} // verus!
