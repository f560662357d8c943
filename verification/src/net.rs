//! Wire packet variants exchanged between client and server, and the
//! application-level actions and result codes they carry.

use vstd::prelude::*;

verus! {

/// Longest game-slot name accepted at the protocol level, in characters.
pub const MAX_GAME_SLOT_NAME: usize = 16;

/// What a client asks the session authority to do.
pub enum RequestAction {
    NoAction,
    Connect { name: String, client_version: String },
    Disconnect,
    KeepAlive,
    ListPlayers,
    ChatMessage { message: String },
    ListGameSlots,
    NewGameSlot { name: String },
    JoinGameSlot { name: String },
    LeaveGameSlot,
}

/// One row of a `GameSlotList` response: a slot's name, how many players
/// are in it, and whether its game is running.
pub struct GameSlotSummary {
    pub name: String,
    pub player_count: u64,
    pub game_running: bool,
}

/// Application-level result delivered back to the requesting client.
pub enum ResponseCode {
    OK,
    LoggedIn { cookie: String },
    Unauthorized,
    BadRequest,
    PlayerList { names: Vec<String> },
    GameSlotList { slots: Vec<GameSlotSummary> },
}

/// Tagged union of everything that can cross the wire.
pub enum Packet {
    Request {
        sequence: u64,
        response_ack: Option<u64>,
        cookie: Option<String>,
        action: RequestAction,
    },
    Response {
        sequence: u64,
        request_ack: Option<u64>,
        code: ResponseCode,
    },
    Update {
        sequence: u64,
    },
    UpdateReply {
        sequence: u64,
    },
}

} // verus!
