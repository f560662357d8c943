//! Session authority: authenticates clients by opaque cookie, tracks
//! per-player response sequencing, and arbitrates chat and game-slot
//! (matchmaking) operations. The whole state is mutated by exactly one
//! owner, one event at a time.

use vstd::prelude::*;
use vstd::string::StrSliceExecFns;
use vstd::utf8::{encode_utf8, encode_utf8_decode_utf8};

use crate::net::{Packet, RequestAction, ResponseCode, GameSlotSummary, MAX_GAME_SLOT_NAME};
use crate::transport::Endpoint;

verus! {

/// Dense, append-only player identity: an index into the player table.
#[derive(PartialEq, Eq, Structural, Clone, Copy, Debug)]
pub struct PlayerID(pub usize);

/// A player's membership in a game slot; absent while in the lobby.
#[derive(PartialEq, Eq, Structural, Clone, Copy, Debug)]
pub struct PlayerInGameInfo {
    pub game_slot_id: u64,
}

/// One connected player's identity record.
pub struct Player {
    pub player_id: PlayerID,
    /// Opaque bearer token proving session identity; unique among live
    /// players and never reused.
    pub cookie: String,
    pub addr: Endpoint,
    pub player_name: String,
    /// Most recent request sequence number received.
    pub request_ack: Option<u64>,
    /// Next outgoing response sequence number; starts at 0 and increases
    /// by exactly one per issued response.
    pub next_resp_seq: u64,
    pub game_info: Option<PlayerInGameInfo>,
}

/// One pending chat line relayed through a game slot.
pub struct ChatEntry {
    pub player_id: PlayerID,
    pub message: String,
}

/// A matchmaking grouping of players sharing gameplay and chat.
pub struct GameSlot {
    pub game_slot_id: u64,
    /// At most [`MAX_GAME_SLOT_NAME`] characters.
    pub name: String,
    pub player_ids: Vec<PlayerID>,
    pub game_running: bool,
    pub universe: u64,
    pub pending_messages: Vec<ChatEntry>,
}

/// The aggregate session state: all players, all game slots, and the
/// tick counter. Owned exclusively by the event loop.
pub struct ServerState {
    pub tick: u64,
    /// Count of auto-pairings performed.
    pub ctr: u64,
    pub players: Vec<Player>,
    pub game_slots: Vec<GameSlot>,
    /// Identity of the next game slot to be created.
    pub next_slot_id: u64,
    /// Identity of the next player to connect; equals the player count.
    pub next_player_id: PlayerID,
}

/// Failures outside the in-protocol response channel: decode and
/// authentication rejections abort one datagram; `NotImplemented` names a
/// request this design iteration deliberately refuses; and
/// `InvariantViolation` and `CookieSpaceExhausted` are typed fatal
/// conditions signalling a bug upstream or resource exhaustion.
#[derive(PartialEq, Eq, Structural, Clone, Copy, Debug)]
pub enum ProcessError {
    /// A `Response` or `Update` arrived where only client-originated
    /// packets are expected.
    ServerOnlyPacket,
    /// A non-`Connect` request arrived without a cookie.
    MissingCookie,
    /// The request's cookie does not identify any live player.
    PermissionDenied,
    /// `Disconnect`, `KeepAlive`, `LeaveGameSlot` or `UpdateReply`.
    NotImplemented,
    /// `Connect` or `NoAction` reached the per-action dispatcher.
    InvariantViolation,
    /// Fresh-cookie generation kept colliding with issued cookies.
    CookieSpaceExhausted,
}

/// Some live player carries this display name.
pub open spec fn name_taken(players: Seq<Player>, name: Seq<char>) -> bool {
    exists|i: int| 0 <= i < players.len() && players[i].player_name@ == name
}

/// Some live player carries this cookie.
pub open spec fn cookie_known(players: Seq<Player>, cookie: Seq<char>) -> bool {
    exists|i: int| 0 <= i < players.len() && players[i].cookie@ == cookie
}

/// Index of the player carrying this cookie; meaningful when the cookie
/// is known, and then unique by well-formedness.
pub open spec fn player_index_by_cookie(players: Seq<Player>, cookie: Seq<char>) -> int {
    choose|i: int| 0 <= i < players.len() && players[i].cookie@ == cookie
}

/// Some slot carries this identity.
pub open spec fn slot_id_exists(slots: Seq<GameSlot>, id: u64) -> bool {
    exists|i: int| 0 <= i < slots.len() && slots[i].game_slot_id == id
}

/// Index of the slot with this identity; meaningful when it exists, and
/// then unique by well-formedness.
pub open spec fn slot_index_by_id(slots: Seq<GameSlot>, id: u64) -> int {
    choose|i: int| 0 <= i < slots.len() && slots[i].game_slot_id == id
}

/// Some slot carries this name.
pub open spec fn slot_name_taken(slots: Seq<GameSlot>, name: Seq<char>) -> bool {
    exists|i: int| 0 <= i < slots.len() && slots[i].name@ == name
}

impl ServerState {
    /// Structural invariant: player ids are dense indices, cookies and
    /// display names are unique among live players, slot ids are unique
    /// and below the allocator, slot names fit the protocol cap, and
    /// every slot membership points at an existing slot.
    pub open spec fn wf(self) -> bool {
        &&& self.next_player_id.0 == self.players@.len()
        &&& forall|i: int|
            0 <= i < self.players@.len() ==> (#[trigger] self.players@[i]).player_id.0 == i
        &&& forall|i: int, j: int|
            #![trigger self.players@[i], self.players@[j]]
            0 <= i < j < self.players@.len() ==> self.players@[i].cookie@
                != self.players@[j].cookie@ && self.players@[i].player_name@
                != self.players@[j].player_name@
        &&& forall|i: int, j: int|
            #![trigger self.game_slots@[i], self.game_slots@[j]]
            0 <= i < j < self.game_slots@.len() ==> self.game_slots@[i].game_slot_id
                != self.game_slots@[j].game_slot_id
        &&& forall|i: int|
            0 <= i < self.game_slots@.len() ==> (#[trigger] self.game_slots@[i]).game_slot_id
                < self.next_slot_id
        &&& forall|i: int|
            0 <= i < self.game_slots@.len() ==> (#[trigger] self.game_slots@[i]).name@.len()
                <= MAX_GAME_SLOT_NAME
        &&& forall|i: int|
            0 <= i < self.players@.len() ==> match (#[trigger] self.players@[i]).game_info {
                Option::Some(g) => slot_id_exists(self.game_slots@, g.game_slot_id),
                Option::None => true,
            }
    }

    /// A session authority with no players, no slots, and tick 0.
    pub fn new() -> (r: ServerState)
        ensures
            r.wf(),
            r.tick == 0,
            r.ctr == 0,
            r.players@.len() == 0,
            r.game_slots@.len() == 0,
            r.next_slot_id == 0,
            r.next_player_id.0 == 0,
    {
        ServerState {
            tick: 0,
            ctr: 0,
            players: Vec::new(),
            game_slots: Vec::new(),
            next_slot_id: 0,
            next_player_id: PlayerID(0),
        }
    }

    /// No live player carries this display name.
    pub fn is_unique_name(&self, name: &str) -> (r: bool)
        ensures
            r == !name_taken(self.players@, name@),
    {
        let mut i: usize = 0;
        while i < self.players.len()
            invariant
                i <= self.players@.len(),
                forall|k: int| 0 <= k < i ==> self.players@[k].player_name@ != name@,
            decreases self.players@.len() - i,
        {
            if str_eq(self.players[i].player_name.as_str(), name) {
                proof {
                    assert(name_taken(self.players@, name@));
                }
                return false;
            }
            i = i + 1;
        }
        proof {
            false_name_proof(self, name);
        }
        true
    }

    /// The live player identified by this cookie, if any.
    pub fn get_player_id_by_cookie(&self, cookie: &str) -> (r: Option<PlayerID>)
        requires
            self.wf(),
        ensures
            match r {
                Option::Some(pid) => cookie_known(self.players@, cookie@) && pid.0 < self.players@.len()
                    && self.players@[pid.0 as int].cookie@ == cookie@ && pid.0
                    == player_index_by_cookie(self.players@, cookie@),
                Option::None => !cookie_known(self.players@, cookie@),
            },
    {
        let mut i: usize = 0;
        while i < self.players.len()
            invariant
                self.wf(),
                i <= self.players@.len(),
                forall|k: int| 0 <= k < i ==> self.players@[k].cookie@ != cookie@,
            decreases self.players@.len() - i,
        {
            if str_eq(self.players[i].cookie.as_str(), cookie) {
                let pid = self.players[i].player_id;
                proof {
                    assert(cookie_known(self.players@, cookie@));
                    let j = player_index_by_cookie(self.players@, cookie@);
                    assert(0 <= j < self.players@.len() && self.players@[j].cookie@ == cookie@);
                    if (i as int) < j {
                        assert(self.players@[i as int].cookie@ != self.players@[j].cookie@);
                    } else if j < i as int {
                        assert(self.players@[j].cookie@ != self.players@[i as int].cookie@);
                    }
                }
                return Some(pid);
            }
            i = i + 1;
        }
        None
    }

    /// A cookie currently in use by some live player.
    fn cookie_in_use(&self, cookie: &str) -> (r: bool)
        ensures
            r == cookie_known(self.players@, cookie@),
    {
        let mut i: usize = 0;
        while i < self.players.len()
            invariant
                i <= self.players@.len(),
                forall|k: int| 0 <= k < i ==> self.players@[k].cookie@ != cookie@,
            decreases self.players@.len() - i,
        {
            if str_eq(self.players[i].cookie.as_str(), cookie) {
                proof {
                    assert(cookie_known(self.players@, cookie@));
                }
                return true;
            }
            i = i + 1;
        }
        false
    }

    /// Draws fresh cookies until one differs from every issued cookie,
    /// giving up after a bounded number of collisions. `None` is a
    /// resource-exhaustion condition, not a protocol event.
    fn fresh_cookie(&self) -> (r: Option<String>)
        ensures
            r matches Option::Some(c) ==> !cookie_known(self.players@, c@) && c@.len() == 24,
    {
        let mut attempts: usize = 0;
        while attempts < 16
            invariant
                attempts <= 16,
            decreases 16 - attempts,
        {
            let c = new_cookie();
            if !self.cookie_in_use(c.as_str()) {
                return Some(c);
            }
            attempts = attempts + 1;
        }
        None
    }

    /// Allocates and registers a fresh player: new dense id, the given
    /// (unused) cookie, response sequence 0, no slot membership.
    pub fn new_player(&mut self, name: String, addr: Endpoint, cookie: String) -> (pid: PlayerID)
        requires
            old(self).wf(),
            !name_taken(old(self).players@, name@),
            !cookie_known(old(self).players@, cookie@),
        ensures
            final(self).wf(),
            pid.0 == old(self).players@.len(),
            final(self).players@.len() == old(self).players@.len() + 1,
            final(self).players@.subrange(0, old(self).players@.len() as int) == old(
                self,
            ).players@,
            final(self).players@.last().player_id == pid,
            final(self).players@.last().cookie@ == cookie@,
            final(self).players@.last().addr == addr,
            final(self).players@.last().player_name@ == name@,
            final(self).players@.last().request_ack is None,
            final(self).players@.last().next_resp_seq == 0,
            final(self).players@.last().game_info is None,
            final(self).game_slots == old(self).game_slots,
            final(self).tick == old(self).tick,
            final(self).ctr == old(self).ctr,
            final(self).next_slot_id == old(self).next_slot_id,
            final(self).next_player_id.0 == old(self).next_player_id.0 + 1,
    {
        let id = self.next_player_id;
        let player = Player {
            player_id: id,
            cookie,
            addr,
            player_name: name,
            request_ack: None,
            next_resp_seq: 0,
            game_info: None,
        };
        self.players.push(player);
        self.next_player_id = PlayerID(self.players.len());
        proof {
            assert(final(self).players@.subrange(0, old(self).players@.len() as int) =~= old(
                self,
            ).players@);
        }
        id
    }

    /// Hands out the player's next response sequence number and advances
    /// it by exactly one: consecutive responses to one player carry 0, 1,
    /// 2, ... with no gaps or repeats.
    pub fn issue_response_seq(&mut self, pid: PlayerID) -> (seq: u64)
        requires
            old(self).wf(),
            pid.0 < old(self).players@.len(),
            old(self).players@[pid.0 as int].next_resp_seq < u64::MAX,
        ensures
            final(self).wf(),
            seq == old(self).players@[pid.0 as int].next_resp_seq,
            final(self).players@.len() == old(self).players@.len(),
            forall|i: int|
                0 <= i < old(self).players@.len() && i != pid.0 ==> final(self).players@[i] == old(
                    self,
                ).players@[i],
            final(self).players@[pid.0 as int].player_id == old(
                self,
            ).players@[pid.0 as int].player_id,
            final(self).players@[pid.0 as int].cookie == old(self).players@[pid.0 as int].cookie,
            final(self).players@[pid.0 as int].addr == old(self).players@[pid.0 as int].addr,
            final(self).players@[pid.0 as int].player_name == old(
                self,
            ).players@[pid.0 as int].player_name,
            final(self).players@[pid.0 as int].request_ack == old(
                self,
            ).players@[pid.0 as int].request_ack,
            final(self).players@[pid.0 as int].next_resp_seq == seq + 1,
            final(self).players@[pid.0 as int].game_info == old(
                self,
            ).players@[pid.0 as int].game_info,
            final(self).game_slots == old(self).game_slots,
            final(self).tick == old(self).tick,
            final(self).ctr == old(self).ctr,
            final(self).next_slot_id == old(self).next_slot_id,
            final(self).next_player_id == old(self).next_player_id,
    {
        let player = &mut self.players[pid.0];
        let seq = player.next_resp_seq;
        player.next_resp_seq = seq + 1;
        seq
    }
}

/// The tick counter, pairing counter and id allocators are untouched.
pub open spec fn counters_unchanged(pre: ServerState, post: ServerState) -> bool {
    &&& post.tick == pre.tick
    &&& post.ctr == pre.ctr
    &&& post.next_player_id == pre.next_player_id
    &&& post.next_slot_id == pre.next_slot_id
}

/// The two slots agree on everything but their pending chat queue.
pub open spec fn same_slot_but_chat(pre: GameSlot, post: GameSlot) -> bool {
    &&& post.game_slot_id == pre.game_slot_id
    &&& post.name == pre.name
    &&& post.player_ids == pre.player_ids
    &&& post.game_running == pre.game_running
    &&& post.universe == pre.universe
}

/// The two slots agree on everything but their member list.
pub open spec fn same_slot_but_members(pre: GameSlot, post: GameSlot) -> bool {
    &&& post.game_slot_id == pre.game_slot_id
    &&& post.name == pre.name
    &&& post.game_running == pre.game_running
    &&& post.universe == pre.universe
    &&& post.pending_messages == pre.pending_messages
}

/// The two players agree on everything but their slot membership.
pub open spec fn same_player_but_slot(pre: Player, post: Player) -> bool {
    &&& post.player_id == pre.player_id
    &&& post.cookie == pre.cookie
    &&& post.addr == pre.addr
    &&& post.player_name == pre.player_name
    &&& post.request_ack == pre.request_ack
    &&& post.next_resp_seq == pre.next_resp_seq
}

/// Exactly what one dispatched action does to the session state and what
/// it answers. The dispatcher never sees `Connect` or `NoAction` in a
/// correct pipeline, so those raise a typed invariant violation;
/// `Disconnect`, `KeepAlive` and `LeaveGameSlot` raise an explicit
/// not-implemented condition rather than silently doing nothing.
pub open spec fn action_effect(
    pre: ServerState,
    post: ServerState,
    pid: int,
    action: RequestAction,
    r: Result<ResponseCode, ProcessError>,
) -> bool {
    match action {
        RequestAction::Disconnect => post == pre && r == Err::<ResponseCode, ProcessError>(
            ProcessError::NotImplemented,
        ),
        RequestAction::KeepAlive => post == pre && r == Err::<ResponseCode, ProcessError>(
            ProcessError::NotImplemented,
        ),
        RequestAction::LeaveGameSlot => post == pre && r == Err::<ResponseCode, ProcessError>(
            ProcessError::NotImplemented,
        ),
        RequestAction::Connect { .. } => post == pre && r == Err::<ResponseCode, ProcessError>(
            ProcessError::InvariantViolation,
        ),
        RequestAction::NoAction => post == pre && r == Err::<ResponseCode, ProcessError>(
            ProcessError::InvariantViolation,
        ),
        RequestAction::ListPlayers => post == pre && (r matches Result::Ok(
            ResponseCode::PlayerList { names },
        ) && names@.len() == pre.players@.len() && (forall|i: int|
            0 <= i < pre.players@.len() ==> (#[trigger] names@[i])@
                == pre.players@[i].player_name@)),
        RequestAction::ListGameSlots => post == pre && (r matches Result::Ok(
            ResponseCode::GameSlotList { slots },
        ) && slots@.len() == pre.game_slots@.len() && (forall|i: int|
            0 <= i < pre.game_slots@.len() ==> {
                let row = #[trigger] slots@[i];
                &&& row.name@ == pre.game_slots@[i].name@
                &&& row.player_count == pre.game_slots@[i].player_ids@.len()
                &&& row.game_running == pre.game_slots@[i].game_running
            })),
        RequestAction::ChatMessage { message } => match pre.players@[pid].game_info {
            Option::None => post == pre && r == Ok::<ResponseCode, ProcessError>(
                ResponseCode::BadRequest,
            ),
            Option::Some(g) => {
                let j = slot_index_by_id(pre.game_slots@, g.game_slot_id);
                &&& r == Ok::<ResponseCode, ProcessError>(ResponseCode::OK)
                &&& post.players == pre.players
                &&& counters_unchanged(pre, post)
                &&& post.game_slots@.len() == pre.game_slots@.len()
                &&& forall|k: int|
                    0 <= k < pre.game_slots@.len() && k != j ==> post.game_slots@[k]
                        == pre.game_slots@[k]
                &&& same_slot_but_chat(pre.game_slots@[j], post.game_slots@[j])
                &&& post.game_slots@[j].pending_messages@.len() == pre.game_slots@[
                    j
                ].pending_messages@.len() + 1
                &&& post.game_slots@[j].pending_messages@.subrange(
                    0,
                    pre.game_slots@[j].pending_messages@.len() as int,
                ) == pre.game_slots@[j].pending_messages@
                &&& post.game_slots@[j].pending_messages@.last().player_id.0 == pid
                &&& post.game_slots@[j].pending_messages@.last().message@ == message@
            },
        },
        RequestAction::NewGameSlot { name } => {
            if name@.len() > MAX_GAME_SLOT_NAME {
                post == pre && r == Ok::<ResponseCode, ProcessError>(ResponseCode::BadRequest)
            } else {
                &&& r == Ok::<ResponseCode, ProcessError>(ResponseCode::OK)
                &&& post.players == pre.players
                &&& post.tick == pre.tick
                &&& post.ctr == pre.ctr
                &&& post.next_player_id == pre.next_player_id
                &&& post.next_slot_id == pre.next_slot_id + 1
                &&& post.game_slots@.len() == pre.game_slots@.len() + 1
                &&& post.game_slots@.subrange(0, pre.game_slots@.len() as int) == pre.game_slots@
                &&& post.game_slots@.last().game_slot_id == pre.next_slot_id
                &&& post.game_slots@.last().name@ == name@
                &&& post.game_slots@.last().player_ids@.len() == 0
                &&& post.game_slots@.last().game_running == false
                &&& post.game_slots@.last().pending_messages@.len() == 0
            }
        },
        RequestAction::JoinGameSlot { name } => {
            if !slot_name_taken(pre.game_slots@, name@) {
                post == pre && r == Ok::<ResponseCode, ProcessError>(ResponseCode::BadRequest)
            } else {
                exists|j: int|
                    {
                        &&& 0 <= j < pre.game_slots@.len()
                        &&& (#[trigger] pre.game_slots@[j]).name@ == name@
                        &&& forall|m: int| 0 <= m < j ==> pre.game_slots@[m].name@ != name@
                        &&& r == Ok::<ResponseCode, ProcessError>(ResponseCode::OK)
                        &&& counters_unchanged(pre, post)
                        &&& post.game_slots@.len() == pre.game_slots@.len()
                        &&& forall|k: int|
                            0 <= k < pre.game_slots@.len() && k != j ==> post.game_slots@[k]
                                == pre.game_slots@[k]
                        &&& same_slot_but_members(pre.game_slots@[j], post.game_slots@[j])
                        &&& post.game_slots@[j].player_ids@ == pre.game_slots@[
                            j
                        ].player_ids@.push(PlayerID(pid as usize))
                        &&& post.players@.len() == pre.players@.len()
                        &&& forall|k: int|
                            0 <= k < pre.players@.len() && k != pid ==> post.players@[k]
                                == pre.players@[k]
                        &&& same_player_but_slot(pre.players@[pid], post.players@[pid])
                        &&& post.players@[pid].game_info == Option::Some(
                            PlayerInGameInfo { game_slot_id: pre.game_slots@[j].game_slot_id },
                        )
                    }
            }
        },
    }
}

impl ServerState {
    /// Dispatches one authenticated action against the session state.
    /// Used for every action but `Connect`, which is handled before
    /// authentication.
    pub fn process_request_action(&mut self, player_id: PlayerID, action: RequestAction) -> (r:
        Result<ResponseCode, ProcessError>)
        requires
            old(self).wf(),
            player_id.0 < old(self).players@.len(),
            old(self).next_slot_id < u64::MAX,
        ensures
            final(self).wf(),
            action_effect(*old(self), *final(self), player_id.0 as int, action, r),
    {
        match action {
            RequestAction::Disconnect => Err(ProcessError::NotImplemented),
            RequestAction::KeepAlive => Err(ProcessError::NotImplemented),
            RequestAction::LeaveGameSlot => Err(ProcessError::NotImplemented),
            RequestAction::Connect { .. } => Err(ProcessError::InvariantViolation),
            RequestAction::NoAction => Err(ProcessError::InvariantViolation),
            RequestAction::ListPlayers => {
                let mut names: Vec<String> = Vec::new();
                let mut i: usize = 0;
                while i < self.players.len()
                    invariant
                        i <= self.players@.len(),
                        names@.len() == i,
                        forall|k: int|
                            0 <= k < i ==> (#[trigger] names@[k])@
                                == self.players@[k].player_name@,
                    decreases self.players@.len() - i,
                {
                    names.push(self.players[i].player_name.clone());
                    i = i + 1;
                }
                Ok(ResponseCode::PlayerList { names })
            },
            RequestAction::ListGameSlots => {
                let mut slots: Vec<GameSlotSummary> = Vec::new();
                let mut i: usize = 0;
                while i < self.game_slots.len()
                    invariant
                        i <= self.game_slots@.len(),
                        slots@.len() == i,
                        forall|k: int|
                            0 <= k < i ==> {
                                let row = #[trigger] slots@[k];
                                &&& row.name@ == self.game_slots@[k].name@
                                &&& row.player_count == self.game_slots@[k].player_ids@.len()
                                &&& row.game_running == self.game_slots@[k].game_running
                            },
                    decreases self.game_slots@.len() - i,
                {
                    let gs = &self.game_slots[i];
                    slots.push(
                        GameSlotSummary {
                            name: gs.name.clone(),
                            player_count: gs.player_ids.len() as u64,
                            game_running: gs.game_running,
                        },
                    );
                    i = i + 1;
                }
                Ok(ResponseCode::GameSlotList { slots })
            },
            RequestAction::ChatMessage { message } => {
                let gi = self.players[player_id.0].game_info;
                match gi {
                    Option::None => Ok(ResponseCode::BadRequest),
                    Option::Some(g) => {
                        let ghost slots0 = self.game_slots@;
                        let mut j: usize = 0;
                        proof {
                            assert(slot_id_exists(slots0, g.game_slot_id));
                        }
                        while j < self.game_slots.len()
                            invariant
                                old(self).wf(),
                                *self == *old(self),
                                action == (RequestAction::ChatMessage { message }),
                                player_id.0 < self.players@.len(),
                                old(self).players@[player_id.0 as int].game_info
                                    == Option::Some(g),
                                slots0 == self.game_slots@,
                                j <= slots0.len(),
                                slot_id_exists(slots0, g.game_slot_id),
                                forall|m: int|
                                    0 <= m < j ==> slots0[m].game_slot_id != g.game_slot_id,
                            decreases slots0.len() - j,
                        {
                            if self.game_slots[j].game_slot_id == g.game_slot_id {
                                proof {
                                    let jj = slot_index_by_id(slots0, g.game_slot_id);
                                    assert(0 <= jj < slots0.len() && slots0[jj].game_slot_id
                                        == g.game_slot_id);
                                    if (j as int) < jj {
                                        assert(slots0[j as int].game_slot_id
                                            != slots0[jj].game_slot_id);
                                    } else if jj < j as int {
                                        assert(slots0[jj].game_slot_id
                                            != slots0[j as int].game_slot_id);
                                    }
                                }
                                let slot = &mut self.game_slots[j];
                                let ghost pending0 = slot.pending_messages@;
                                slot.pending_messages.push(ChatEntry { player_id, message });
                                proof {
                                    let jj = j as int;
                                    assert(self.game_slots@[jj].pending_messages@.subrange(
                                        0,
                                        pending0.len() as int,
                                    ) =~= pending0);
                                    assert forall|k: int|
                                        0 <= k < self.game_slots@.len() implies (
                                    #[trigger] self.game_slots@[k]).game_slot_id
                                        == slots0[k].game_slot_id && self.game_slots@[k].name@
                                        == slots0[k].name@ by {
                                        if k != jj {
                                            assert(self.game_slots@[k] == slots0[k]);
                                        }
                                    }
                                    assert forall|i: int|
                                        0 <= i < self.players@.len() implies (match (
                                    #[trigger] self.players@[i]).game_info {
                                        Option::Some(gg) => slot_id_exists(
                                            self.game_slots@,
                                            gg.game_slot_id,
                                        ),
                                        Option::None => true,
                                    }) by {
                                        match self.players@[i].game_info {
                                            Option::Some(gg) => {
                                                assert(slot_id_exists(slots0, gg.game_slot_id));
                                                let m = choose|m: int|
                                                    0 <= m < slots0.len()
                                                        && slots0[m].game_slot_id
                                                        == gg.game_slot_id;
                                                assert(self.game_slots@[m].game_slot_id
                                                    == gg.game_slot_id);
                                            },
                                            Option::None => {},
                                        }
                                    }
                                    assert(same_slot_but_chat(
                                        slots0[jj],
                                        self.game_slots@[jj],
                                    ));
                                }
                                return Ok(ResponseCode::OK);
                            }
                            j = j + 1;
                        }
                        // Unreachable: well-formedness guarantees the
                        // membership's slot exists.
                        proof {
                            assert(false);
                        }
                        Ok(ResponseCode::BadRequest)
                    },
                }
            },
            RequestAction::NewGameSlot { name } => {
                if name.as_str().unicode_len() > MAX_GAME_SLOT_NAME {
                    return Ok(ResponseCode::BadRequest);
                }
                let id = self.next_slot_id;
                self.next_slot_id = id + 1;
                let slot = GameSlot::new(id, name, Vec::new());
                self.game_slots.push(slot);
                proof {
                    assert(final(self).game_slots@.subrange(0, old(self).game_slots@.len() as int)
                        =~= old(self).game_slots@);
                }
                Ok(ResponseCode::OK)
            },
            RequestAction::JoinGameSlot { name } => {
                let ghost slots0 = self.game_slots@;
                let mut j: usize = 0;
                while j < self.game_slots.len()
                    invariant
                        old(self).wf(),
                        *self == *old(self),
                        action == (RequestAction::JoinGameSlot { name }),
                        player_id.0 < self.players@.len(),
                        slots0 == self.game_slots@,
                        j <= slots0.len(),
                        forall|m: int| 0 <= m < j ==> slots0[m].name@ != name@,
                    decreases slots0.len() - j,
                {
                    let found = str_eq(self.game_slots[j].name.as_str(), name.as_str());
                    if found {
                        let slot = &mut self.game_slots[j];
                        slot.player_ids.push(player_id);
                        let slot_id = slot.game_slot_id;
                        let player = &mut self.players[player_id.0];
                        player.game_info = Some(PlayerInGameInfo { game_slot_id: slot_id });
                        proof {
                            let jj = j as int;
                            let p = player_id.0 as int;
                            assert forall|k: int|
                                0 <= k < self.game_slots@.len() implies (
                            #[trigger] self.game_slots@[k]).game_slot_id == slots0[k].game_slot_id
                                && self.game_slots@[k].name@ == slots0[k].name@ by {
                                if k != jj {
                                    assert(self.game_slots@[k] == slots0[k]);
                                }
                            }
                            assert forall|i: int|
                                0 <= i < self.players@.len() implies (
                            #[trigger] self.players@[i]).player_id == old(
                                self,
                            ).players@[i].player_id && self.players@[i].cookie@ == old(
                                self,
                            ).players@[i].cookie@ && self.players@[i].player_name@ == old(
                                self,
                            ).players@[i].player_name@ by {
                                if i != p {
                                    assert(self.players@[i] == old(self).players@[i]);
                                }
                            }
                            assert forall|i: int|
                                0 <= i < self.players@.len() implies (match (
                            #[trigger] self.players@[i]).game_info {
                                Option::Some(gg) => slot_id_exists(
                                    self.game_slots@,
                                    gg.game_slot_id,
                                ),
                                Option::None => true,
                            }) by {
                                if i == p {
                                    assert(self.game_slots@[jj].game_slot_id == slot_id);
                                } else {
                                    assert(self.players@[i] == old(self).players@[i]);
                                    match old(self).players@[i].game_info {
                                        Option::Some(gg) => {
                                            assert(slot_id_exists(slots0, gg.game_slot_id));
                                            let m = choose|m: int|
                                                0 <= m < slots0.len() && slots0[m].game_slot_id
                                                    == gg.game_slot_id;
                                            assert(self.game_slots@[m].game_slot_id
                                                == gg.game_slot_id);
                                        },
                                        Option::None => {},
                                    }
                                }
                            }
                            assert(0 <= jj < slots0.len() && slots0[jj].name@ == name@);
                            assert(same_slot_but_members(slots0[jj], self.game_slots@[jj]));
                            assert(self.game_slots@[jj].player_ids@ == slots0[jj].player_ids@.push(
                                player_id,
                            ));
                            assert(same_player_but_slot(old(self).players@[p], self.players@[p]));
                        }
                        return Ok(ResponseCode::OK);
                    }
                    j = j + 1;
                }
                Ok(ResponseCode::BadRequest)
            },
        }
    }
}

/// The two players agree on everything but their response sequence.
pub open spec fn same_player_but_seq(pre: Player, post: Player) -> bool {
    &&& post.player_id == pre.player_id
    &&& post.cookie == pre.cookie
    &&& post.addr == pre.addr
    &&& post.player_name == pre.player_name
    &&& post.request_ack == pre.request_ack
    &&& post.game_info == pre.game_info
}

/// Exactly what handling a `Connect` request does: a taken name is
/// answered `Unauthorized` and changes nothing; a free name registers a
/// fresh player and is answered `LoggedIn` with a cookie never issued
/// before, both responses carrying sequence number 0.
pub open spec fn connect_effect(
    pre: ServerState,
    post: ServerState,
    name: Seq<char>,
    addr: Endpoint,
    r: Result<Option<Packet>, ProcessError>,
) -> bool {
    if name_taken(pre.players@, name) {
        &&& post == pre
        &&& r matches Result::Ok(Option::Some(Packet::Response { sequence, request_ack, code }))
            && sequence == 0 && request_ack is None && code == ResponseCode::Unauthorized
    } else {
        ||| (r == Err::<Option<Packet>, ProcessError>(ProcessError::CookieSpaceExhausted) && post
            == pre)
        ||| {
            &&& r matches Result::Ok(
                Option::Some(Packet::Response { sequence, request_ack, code }),
            ) && ({
                &&& sequence == 0
                &&& request_ack is None
                &&& code matches ResponseCode::LoggedIn { cookie } && ({
                    &&& !cookie_known(pre.players@, cookie@)
                    &&& cookie@ == post.players@.last().cookie@
                })
            })
            &&& post.players@.len() == pre.players@.len() + 1
            &&& post.players@.subrange(0, pre.players@.len() as int) == pre.players@
            &&& post.players@.last().player_name@ == name
            &&& post.players@.last().addr == addr
            &&& post.players@.last().player_id.0 == pre.players@.len()
            &&& post.players@.last().next_resp_seq == 1
            &&& post.players@.last().request_ack is None
            &&& post.players@.last().game_info is None
            &&& post.game_slots == pre.game_slots
            &&& post.tick == pre.tick
            &&& post.ctr == pre.ctr
            &&& post.next_slot_id == pre.next_slot_id
            &&& post.next_player_id.0 == pre.next_player_id.0 + 1
        }
    }
}

/// Exactly what an authenticated, dispatched request does: either the
/// dispatcher's error with the state unchanged, or one response packet
/// carrying the caller's next response sequence number, which then
/// advances by exactly one.
pub open spec fn dispatch_effect(
    pre: ServerState,
    post: ServerState,
    pid: int,
    action: RequestAction,
    r: Result<Option<Packet>, ProcessError>,
) -> bool {
    match r {
        Result::Err(e) => action_effect(pre, post, pid, action, Err::<
            ResponseCode,
            ProcessError,
        >(e)),
        Result::Ok(opt) => {
            &&& opt matches Option::Some(Packet::Response { sequence, request_ack, code })
                && request_ack is None && sequence == pre.players@[pid].next_resp_seq && post.players@[
                pid
            ].next_resp_seq == sequence + 1 && exists|mid: ServerState|
                {
                    &&& action_effect(pre, mid, pid, action, Ok::<ResponseCode, ProcessError>(code))
                    &&& post.game_slots == mid.game_slots
                    &&& post.tick == mid.tick
                    &&& post.ctr == mid.ctr
                    &&& post.next_slot_id == mid.next_slot_id
                    &&& post.next_player_id == mid.next_player_id
                    &&& post.players@.len() == mid.players@.len()
                    &&& forall|i: int|
                        0 <= i < mid.players@.len() && i != pid ==> post.players@[i]
                            == mid.players@[i]
                    &&& same_player_but_seq(mid.players@[pid], post.players@[pid])
                }
        },
    }
}

/// Exactly what handling one inbound packet does: server-only and
/// unimplemented packet kinds are rejected, `Connect` is handled before
/// authentication, and every other request is authenticated by cookie
/// and dispatched.
pub open spec fn packet_effect(
    pre: ServerState,
    post: ServerState,
    addr: Endpoint,
    packet: Packet,
    r: Result<Option<Packet>, ProcessError>,
) -> bool {
    match packet {
                Packet::Response { .. } => post == pre && r == Err::<
                    Option<Packet>,
                    ProcessError,
                >(ProcessError::ServerOnlyPacket),
                Packet::Update { .. } => post == pre && r == Err::<
                    Option<Packet>,
                    ProcessError,
                >(ProcessError::ServerOnlyPacket),
                Packet::UpdateReply { .. } => post == pre && r == Err::<
                    Option<Packet>,
                    ProcessError,
                >(ProcessError::NotImplemented),
                Packet::Request { sequence, response_ack, cookie, action } => match action {
                    RequestAction::Connect { name, .. } => connect_effect(
                        pre,
                        post,
                        name@,
                        addr,
                        r,
                    ),
                    _ => match cookie {
                        Option::None => post == pre && r == Err::<
                            Option<Packet>,
                            ProcessError,
                        >(ProcessError::MissingCookie),
                        Option::Some(c) => {
                            if !cookie_known(pre.players@, c@) {
                                post == pre && r == Err::<
                                    Option<Packet>,
                                    ProcessError,
                                >(ProcessError::PermissionDenied)
                            } else {
                                dispatch_effect(
                                    pre,
                                    post,
                                    player_index_by_cookie(pre.players@, c@),
                                    action,
                                    r,
                                )
                            }
                        },
                    },
                },
    }
}

impl ServerState {
    /// Handles one decoded inbound packet: rejects server-only and
    /// unimplemented packet kinds, handles `Connect` before
    /// authentication, authenticates every other request by cookie, and
    /// dispatches it, answering with at most one response packet.
    pub fn decode_packet(&mut self, addr: Endpoint, packet: Packet) -> (r: Result<
        Option<Packet>,
        ProcessError,
    >)
        requires
            old(self).wf(),
            old(self).next_slot_id < u64::MAX,
            forall|i: int|
                0 <= i < old(self).players@.len() ==> (#[trigger] old(
                    self,
                ).players@[i]).next_resp_seq < u64::MAX,
        ensures
            final(self).wf(),
            packet_effect(*old(self), *final(self), addr, packet, r),
    {
        match packet {
            Packet::Response { .. } => Err(ProcessError::ServerOnlyPacket),
            Packet::Update { .. } => Err(ProcessError::ServerOnlyPacket),
            Packet::UpdateReply { .. } => Err(ProcessError::NotImplemented),
            Packet::Request { sequence: _, response_ack: _, cookie, action } => {
                match action {
                    RequestAction::Connect { name, client_version: _ } => {
                        if !self.is_unique_name(name.as_str()) {
                            Ok(
                                Some(
                                    Packet::Response {
                                        sequence: 0,
                                        request_ack: None,
                                        code: ResponseCode::Unauthorized,
                                    },
                                ),
                            )
                        } else {
                            match self.fresh_cookie() {
                                Option::None => Err(ProcessError::CookieSpaceExhausted),
                                Option::Some(c) => {
                                    let cookie_out = c.clone();
                                    let pid = self.new_player(name, addr, c);
                                    let seq = self.issue_response_seq(pid);
                                    proof {
                                        assert(final(self).players@.subrange(
                                            0,
                                            old(self).players@.len() as int,
                                        ) =~= old(self).players@);
                                    }
                                    Ok(
                                        Some(
                                            Packet::Response {
                                                sequence: seq,
                                                request_ack: None,
                                                code: ResponseCode::LoggedIn {
                                                    cookie: cookie_out,
                                                },
                                            },
                                        ),
                                    )
                                },
                            }
                        }
                    },
                    _ => {
                        let c = match cookie {
                            Option::None => {
                                return Err(ProcessError::MissingCookie);
                            },
                            Option::Some(c) => c,
                        };
                        let pid = match self.get_player_id_by_cookie(c.as_str()) {
                            Option::None => {
                                return Err(ProcessError::PermissionDenied);
                            },
                            Option::Some(pid) => pid,
                        };
                        match self.process_request_action(pid, action) {
                            Result::Err(e) => Err(e),
                            Result::Ok(code) => {
                                let ghost mid = *self;
                                proof {
                                    assert(mid.players@[pid.0 as int].next_resp_seq == old(
                                        self,
                                    ).players@[pid.0 as int].next_resp_seq);
                                }
                                let seq = self.issue_response_seq(pid);
                                Ok(
                                    Some(
                                        Packet::Response {
                                            sequence: seq,
                                            request_ack: None,
                                            code,
                                        },
                                    ),
                                )
                            },
                        }
                    },
                }
            },
        }
    }
}

/// How many players are not yet in any game slot.
pub open spec fn num_unassigned(players: Seq<Player>) -> int
    decreases players.len(),
{
    if players.len() == 0 {
        0
    } else {
        num_unassigned(players.drop_last()) + if players.last().game_info is None {
            1int
        } else {
            0int
        }
    }
}

/// The indices of the players not yet in any game slot, in ascending
/// (arrival) order; the last is the most recently unassigned.
pub open spec fn unassigned_indices(players: Seq<Player>) -> Seq<int>
    decreases players.len(),
{
    if players.len() == 0 {
        Seq::empty()
    } else {
        unassigned_indices(players.drop_last()) + if players.last().game_info is None {
            seq![players.len() - 1]
        } else {
            Seq::empty()
        }
    }
}

proof fn lemma_unassigned_indices_props(players: Seq<Player>)
    ensures
        unassigned_indices(players).len() == num_unassigned(players),
        unassigned_indices(players).len() <= players.len(),
        forall|m: int|
            0 <= m < unassigned_indices(players).len() ==> 0 <= #[trigger] unassigned_indices(
                players,
            )[m] < players.len() && players[unassigned_indices(players)[m]].game_info is None,
        forall|m1: int, m2: int|
            0 <= m1 < m2 < unassigned_indices(players).len() ==> unassigned_indices(players)[m1]
                < unassigned_indices(players)[m2],
        forall|i: int|
            0 <= i < players.len() && (#[trigger] players[i]).game_info is None
                ==> unassigned_indices(players).contains(i),
    decreases players.len(),
{
    if players.len() == 0 {
    } else {
        lemma_unassigned_indices_props(players.drop_last());
        let idxs = unassigned_indices(players);
        let tail = unassigned_indices(players.drop_last());
        assert forall|i: int|
            0 <= i < players.len() && (#[trigger] players[i]).game_info is None implies idxs.contains(
            i,
        ) by {
            if i == players.len() - 1 {
                assert(idxs[idxs.len() - 1] == i);
            } else {
                assert(players.drop_last()[i] == players[i]);
                assert(tail.contains(i));
                let m = choose|m: int| 0 <= m < tail.len() && tail[m] == i;
                assert(idxs[m] == i);
            }
        }
        assert forall|m: int|
            0 <= m < idxs.len() implies 0 <= #[trigger] idxs[m] < players.len()
                && players[idxs[m]].game_info is None by {
            if m < tail.len() {
                assert(idxs[m] == tail[m]);
                assert(players.drop_last()[tail[m]] == players[tail[m]]);
            }
        }
    }
}

/// The `k`-th pairing took effect: the two players paired in step `k`
/// are members of the slot created in step `k`.
pub open spec fn pair_assigned(pre: ServerState, post: ServerState, k: int) -> bool {
    let idxs = unassigned_indices(pre.players@);
    let u = idxs.len() as int;
    &&& post.players@[idxs[u - 1 - 2 * k]].game_info == Option::Some(
        PlayerInGameInfo { game_slot_id: (pre.next_slot_id + k) as u64 },
    )
    &&& post.players@[idxs[u - 2 - 2 * k]].game_info == Option::Some(
        PlayerInGameInfo { game_slot_id: (pre.next_slot_id + k) as u64 },
    )
}

/// Exactly what one even-count auto-pairing pass does: the `2n`
/// unassigned players become assigned, most recent first, into `n` fresh
/// two-player slots; everyone and everything else is untouched.
pub open spec fn pairing_effect(pre: ServerState, post: ServerState) -> bool {
    let idxs = unassigned_indices(pre.players@);
    let u = idxs.len() as int;
    let n = u / 2;
    &&& post.tick == pre.tick
    &&& post.next_player_id == pre.next_player_id
    &&& post.ctr == pre.ctr + n
    &&& post.next_slot_id == pre.next_slot_id + n
    &&& post.game_slots@.len() == pre.game_slots@.len() + n
    &&& post.game_slots@.subrange(0, pre.game_slots@.len() as int) == pre.game_slots@
    &&& forall|k: int|
        0 <= k < n ==> {
            let slot = #[trigger] post.game_slots@[pre.game_slots@.len() + k];
            &&& slot.game_slot_id == pre.next_slot_id + k
            &&& slot.name@ == "some game slot"@
            &&& slot.game_running == false
            &&& slot.pending_messages@.len() == 0
            &&& slot.player_ids@.len() == 2
            &&& slot.player_ids@[0] == pre.players@[idxs[u - 1 - 2 * k]].player_id
            &&& slot.player_ids@[1] == pre.players@[idxs[u - 2 - 2 * k]].player_id
        }
    &&& forall|k: int| 0 <= k < n ==> #[trigger] pair_assigned(pre, post, k)
    &&& post.players@.len() == pre.players@.len()
    &&& forall|i: int|
        0 <= i < pre.players@.len() ==> {
            let ppre = pre.players@[i];
            let ppost = #[trigger] post.players@[i];
            if ppre.game_info is None {
                same_player_but_slot(ppre, ppost) && ppost.game_info is Some
            } else {
                ppost == ppre
            }
        }
}

impl ServerState {
    /// The auto-pairing policy has work: an even, non-zero count of
    /// players outside any slot.
    pub fn has_pending_players(&self) -> (r: bool)
        ensures
            r == (num_unassigned(self.players@) % 2 == 0 && num_unassigned(self.players@) > 0),
    {
        let mut count: usize = 0;
        let mut i: usize = 0;
        proof {
            assert(self.players@.take(0) =~= Seq::<Player>::empty());
        }
        while i < self.players.len()
            invariant
                i <= self.players@.len(),
                count <= i,
                count == num_unassigned(self.players@.take(i as int)),
            decreases self.players@.len() - i,
        {
            proof {
                assert(self.players@.take(i as int + 1).drop_last() =~= self.players@.take(
                    i as int,
                ));
                assert(self.players@.take(i as int + 1).last() == self.players@[i as int]);
            }
            if self.players[i].game_info.is_none() {
                count = count + 1;
            }
            i = i + 1;
        }
        proof {
            assert(self.players@.take(self.players@.len() as int) =~= self.players@);
        }
        count % 2 == 0 && count > 0
    }

    /// Runs the placeholder auto-pairing policy once: whenever the count
    /// of unassigned players is even and non-zero, repeatedly pairs the
    /// two most-recently-unassigned players (stack order) into a fresh
    /// two-player slot until none remain. An odd count pairs nobody.
    /// LIFO pairing is a placeholder matchmaking policy, meant to be
    /// replaced by an arrival-order or skill-based one.
    pub fn initiate_player_session(&mut self)
        requires
            old(self).wf(),
            old(self).ctr + num_unassigned(old(self).players@) <= u64::MAX,
            old(self).next_slot_id + num_unassigned(old(self).players@) <= u64::MAX,
        ensures
            final(self).wf(),
            num_unassigned(old(self).players@) % 2 != 0 ==> *final(self) == *old(self),
            num_unassigned(old(self).players@) % 2 == 0 ==> pairing_effect(
                *old(self),
                *final(self),
            ),
    {
        proof {
            lemma_unassigned_indices_props(old(self).players@);
        }
        let ghost spec_idxs = unassigned_indices(old(self).players@);
        let mut idxs: Vec<usize> = Vec::new();
        let mut i: usize = 0;
        proof {
            assert(self.players@.take(0) =~= Seq::<Player>::empty());
        }
        while i < self.players.len()
            invariant
                *self == *old(self),
                i <= self.players@.len(),
                idxs@.len() == unassigned_indices(self.players@.take(i as int)).len(),
                forall|m: int|
                    0 <= m < idxs@.len() ==> #[trigger] idxs@[m] as int == unassigned_indices(
                        self.players@.take(i as int),
                    )[m],
            decreases self.players@.len() - i,
        {
            proof {
                assert(self.players@.take(i as int + 1).drop_last() =~= self.players@.take(
                    i as int,
                ));
                assert(self.players@.take(i as int + 1).last() == self.players@[i as int]);
            }
            if self.players[i].game_info.is_none() {
                idxs.push(i);
            }
            i = i + 1;
        }
        proof {
            assert(self.players@.take(self.players@.len() as int) =~= self.players@);
            assert(idxs@.len() == spec_idxs.len());
        }
        let u = idxs.len();
        if u % 2 != 0 {
            return ;
        }
        if u == 0 {
            proof {
                assert(pairing_effect(*old(self), *final(self))) by {
                    assert(final(self).game_slots@.subrange(0, old(self).game_slots@.len() as int)
                        =~= old(self).game_slots@);
                }
            }
            return ;
        }
        let n = u / 2;
        let mut k: usize = 0;
        let ghost pre = *old(self);
        while k < n
            invariant
                pre.wf(),
                pre == *old(self),
                spec_idxs == unassigned_indices(pre.players@),
                u == spec_idxs.len(),
                u % 2 == 0,
                n == u / 2,
                k <= n,
                u <= pre.players@.len(),
                pre.ctr + u <= u64::MAX,
                pre.next_slot_id + u <= u64::MAX,
                idxs@.len() == u,
                forall|m: int| 0 <= m < u ==> #[trigger] idxs@[m] as int == spec_idxs[m],
                forall|m: int|
                    0 <= m < u ==> 0 <= #[trigger] spec_idxs[m] < pre.players@.len()
                        && pre.players@[spec_idxs[m]].game_info is None,
                forall|m1: int, m2: int|
                    0 <= m1 < m2 < u ==> spec_idxs[m1] < spec_idxs[m2],
                forall|i2: int|
                    0 <= i2 < pre.players@.len() && (#[trigger] pre.players@[i2]).game_info
                        is None ==> spec_idxs.contains(i2),
                self.tick == pre.tick,
                self.next_player_id == pre.next_player_id,
                self.ctr == pre.ctr + k,
                self.next_slot_id == pre.next_slot_id + k,
                self.game_slots@.len() == pre.game_slots@.len() + k,
                self.game_slots@.subrange(0, pre.game_slots@.len() as int) == pre.game_slots@,
                forall|m: int|
                    0 <= m < k ==> {
                        let slot = #[trigger] self.game_slots@[pre.game_slots@.len() + m];
                        &&& slot.game_slot_id == pre.next_slot_id + m
                        &&& slot.name@ == "some game slot"@
                        &&& slot.game_running == false
                        &&& slot.pending_messages@.len() == 0
                        &&& slot.player_ids@.len() == 2
                        &&& slot.player_ids@[0] == pre.players@[spec_idxs[u - 1 - 2 * m]].player_id
                        &&& slot.player_ids@[1] == pre.players@[spec_idxs[u - 2 - 2 * m]].player_id
                    },
                forall|m: int| 0 <= m < k ==> #[trigger] pair_assigned(pre, *self, m),
                self.players@.len() == pre.players@.len(),
                forall|i2: int|
                    0 <= i2 < pre.players@.len() ==> same_player_but_slot(
                        pre.players@[i2],
                        #[trigger] self.players@[i2],
                    ),
                forall|m: int|
                    u - 2 * k <= m < u ==> same_player_but_slot(
                        pre.players@[spec_idxs[m]],
                        #[trigger] self.players@[spec_idxs[m]],
                    ) && self.players@[spec_idxs[m]].game_info is Some,
                forall|i2: int|
                    0 <= i2 < pre.players@.len() && !(exists|m: int|
                        u - 2 * k <= m < u && spec_idxs[m] == i2) ==> #[trigger] self.players@[i2]
                        == pre.players@[i2],
                self.wf(),
            decreases n - k,
        {
            let ghost self_head = *self;
            let a = idxs[u - 1 - 2 * k];
            let b = idxs[u - 2 - 2 * k];
            proof {
                assert(idxs@[u - 1 - 2 * k] as int == spec_idxs[u as int - 1 - 2 * k]);
                assert(idxs@[u - 2 - 2 * k] as int == spec_idxs[u as int - 2 - 2 * k]);
                assert(spec_idxs[u as int - 2 - 2 * k] < spec_idxs[u as int - 1 - 2 * k]);
                assert(self.players@[a as int] == pre.players@[a as int]);
                assert(self.players@[b as int] == pre.players@[b as int]);
            }
            let slot_id = self.next_slot_id;
            let pid_a = self.players[a].player_id;
            let pid_b = self.players[b].player_id;
            let mut member_ids: Vec<PlayerID> = Vec::new();
            member_ids.push(pid_a);
            member_ids.push(pid_b);
            let game_slot = GameSlot::new(slot_id, String::from_str("some game slot"), member_ids);
            proof {
                reveal_strlit("some game slot");
            }
            self.game_slots.push(game_slot);
            self.next_slot_id = slot_id + 1;
            self.ctr = self.ctr + 1;
            let player_a = &mut self.players[a];
            player_a.game_info = Some(PlayerInGameInfo { game_slot_id: slot_id });
            let player_b = &mut self.players[b];
            player_b.game_info = Some(PlayerInGameInfo { game_slot_id: slot_id });
            proof {
                let ki = k as int;
                let ia = spec_idxs[u - 1 - 2 * ki];
                let ib = spec_idxs[u - 2 - 2 * ki];
                assert(ia == a as int && ib == b as int);
                assert(self.game_slots@.subrange(0, pre.game_slots@.len() as int)
                    =~= pre.game_slots@);
                assert(self.game_slots@[pre.game_slots@.len() + ki].game_slot_id == slot_id);
                assert forall|i2: int|
                    0 <= i2 < pre.players@.len() implies same_player_but_slot(
                    pre.players@[i2],
                    #[trigger] self.players@[i2],
                ) by {
                    if i2 != ia && i2 != ib {
                        assert(self.players@[i2] == self_head.players@[i2]);
                    } else {
                        assert(same_player_but_slot(pre.players@[i2], self_head.players@[i2]));
                    }
                }
                assert forall|m: int| 0 <= m < ki + 1 implies #[trigger] pair_assigned(
                    pre,
                    *self,
                    m,
                ) by {
                    if m < ki {
                        assert(pair_assigned(pre, self_head, m));
                        assert(spec_idxs[u - 2 - 2 * m] > spec_idxs[u - 1 - 2 * ki]);
                        assert(spec_idxs[u - 1 - 2 * m] > spec_idxs[u - 1 - 2 * ki]);
                        assert(spec_idxs[u - 1 - 2 * ki] > spec_idxs[u - 2 - 2 * ki]);
                        assert(self.players@[spec_idxs[u - 1 - 2 * m]] == self_head.players@[
                            spec_idxs[u - 1 - 2 * m]
                        ]);
                        assert(self.players@[spec_idxs[u - 2 - 2 * m]] == self_head.players@[
                            spec_idxs[u - 2 - 2 * m]
                        ]);
                    } else {
                        assert(self.players@[ia].game_info == Option::Some(
                            PlayerInGameInfo { game_slot_id: slot_id },
                        ));
                        assert(self.players@[ib].game_info == Option::Some(
                            PlayerInGameInfo { game_slot_id: slot_id },
                        ));
                    }
                }
                assert forall|m: int|
                    u - 2 * (ki + 1) <= m < u implies same_player_but_slot(
                    pre.players@[spec_idxs[m]],
                    #[trigger] self.players@[spec_idxs[m]],
                ) && self.players@[spec_idxs[m]].game_info is Some by {
                    if m >= u - 2 * ki {
                        assert(spec_idxs[m] > ia || spec_idxs[m] == ia || (spec_idxs[m] < ia
                            && spec_idxs[m] > ib) || spec_idxs[m] == ib);
                        if spec_idxs[m] != ia && spec_idxs[m] != ib {
                            assert(self.players@[spec_idxs[m]] == self_head.players@[
                                spec_idxs[m]
                            ]);
                        }
                    }
                }
                assert forall|i2: int|
                    0 <= i2 < pre.players@.len() && !(exists|m: int|
                        u - 2 * (ki + 1) <= m < u && spec_idxs[m] == i2) implies (
                #[trigger] self.players@[i2]) == pre.players@[i2] by {
                    assert(i2 != ia) by {
                        if i2 == ia {
                            assert(u - 2 * (ki + 1) <= u - 1 - 2 * ki < u && spec_idxs[u - 1 - 2
                                * ki] == i2);
                        }
                    }
                    assert(i2 != ib) by {
                        if i2 == ib {
                            assert(u - 2 * (ki + 1) <= u - 2 - 2 * ki < u && spec_idxs[u - 2 - 2
                                * ki] == i2);
                        }
                    }
                    assert(self.players@[i2] == self_head.players@[i2]);
                    assert(!(exists|m: int| u - 2 * ki <= m < u && spec_idxs[m] == i2));
                }
                assert forall|x: int, y: int|
                    #![trigger self.players@[x], self.players@[y]]
                    0 <= x < y < self.players@.len() implies self.players@[x].cookie@
                    != self.players@[y].cookie@ && self.players@[x].player_name@
                    != self.players@[y].player_name@ && self.players@[x].player_id.0 == x by {
                    assert(same_player_but_slot(pre.players@[x], self.players@[x]));
                    assert(same_player_but_slot(pre.players@[y], self.players@[y]));
                }
                assert forall|i2: int|
                    0 <= i2 < self.players@.len() implies (
                #[trigger] self.players@[i2]).player_id.0 == i2 by {
                    assert(same_player_but_slot(pre.players@[i2], self.players@[i2]));
                }
                reveal_strlit("some game slot");
                assert forall|x: int, y: int|
                    #![trigger self.game_slots@[x], self.game_slots@[y]]
                    0 <= x < y < self.game_slots@.len() implies self.game_slots@[x].game_slot_id
                    != self.game_slots@[y].game_slot_id by {
                    let pl = pre.game_slots@.len() as int;
                    if y < pl {
                        assert(self.game_slots@[x] == pre.game_slots@[x]);
                        assert(self.game_slots@[y] == pre.game_slots@[y]);
                    } else if x < pl {
                        assert(self.game_slots@[x] == pre.game_slots@[x]);
                        assert(pre.game_slots@[x].game_slot_id < pre.next_slot_id);
                        if y < pl + ki {
                            assert(self.game_slots@[y] == self_head.game_slots@[pl + (y - pl)]);
                        }
                        assert(self.game_slots@[y].game_slot_id == pre.next_slot_id + (y - pl));
                    } else {
                        if x < pl + ki {
                            assert(self.game_slots@[x] == self_head.game_slots@[pl + (x - pl)]);
                        }
                        if y < pl + ki {
                            assert(self.game_slots@[y] == self_head.game_slots@[pl + (y - pl)]);
                        }
                        assert(self.game_slots@[x].game_slot_id == pre.next_slot_id + (x - pl));
                        assert(self.game_slots@[y].game_slot_id == pre.next_slot_id + (y - pl));
                    }
                }
                assert forall|x: int|
                    0 <= x < self.game_slots@.len() implies (
                #[trigger] self.game_slots@[x]).game_slot_id < self.next_slot_id
                    && self.game_slots@[x].name@.len() <= MAX_GAME_SLOT_NAME by {
                    let pl = pre.game_slots@.len() as int;
                    if x < pl {
                        assert(self.game_slots@[x] == pre.game_slots@[x]);
                        assert(pre.game_slots@[x].game_slot_id < pre.next_slot_id);
                    } else {
                        if x < pl + ki {
                            assert(self.game_slots@[x] == self_head.game_slots@[pl + (x - pl)]);
                        }
                        assert(self.game_slots@[x].game_slot_id == pre.next_slot_id + (x - pl));
                        assert(self.game_slots@[x].name@ == "some game slot"@);
                    }
                }
                assert forall|i2: int|
                    0 <= i2 < self.players@.len() implies (match (
                #[trigger] self.players@[i2]).game_info {
                    Option::Some(gg) => slot_id_exists(self.game_slots@, gg.game_slot_id),
                    Option::None => true,
                }) by {
                    match self.players@[i2].game_info {
                        Option::Some(gg) => {
                            if i2 == ia || i2 == ib {
                                assert(gg.game_slot_id == slot_id);
                                assert(self.game_slots@[pre.game_slots@.len()
                                    + ki].game_slot_id == slot_id);
                            } else if self.players@[i2] == pre.players@[i2] {
                                match pre.players@[i2].game_info {
                                    Option::Some(g2) => {
                                        assert(slot_id_exists(pre.game_slots@, g2.game_slot_id));
                                        let mm = choose|mm: int|
                                            0 <= mm < pre.game_slots@.len()
                                                && pre.game_slots@[mm].game_slot_id
                                                == g2.game_slot_id;
                                        assert(self.game_slots@[mm] == pre.game_slots@[mm]);
                                    },
                                    Option::None => {},
                                }
                            } else {
                                let mm = choose|m2: int|
                                    u - 2 * (ki + 1) <= m2 < u && spec_idxs[m2] == i2;
                                assert(mm != u - 1 - 2 * ki && mm != u - 2 - 2 * ki);
                                assert(u - 2 * ki <= mm < u);
                                let m = ((u as int) - 1 - mm) / 2;
                                assert(0 <= m < ki);
                                assert(mm == u - 1 - 2 * m || mm == u - 2 - 2 * m);
                                assert(pair_assigned(pre, *self, m));
                                assert(gg.game_slot_id == (pre.next_slot_id + m) as u64);
                                assert(self.game_slots@[pre.game_slots@.len() + m]
                                    == self_head.game_slots@[pre.game_slots@.len() + m]);
                                assert(self.game_slots@[pre.game_slots@.len() + m].game_slot_id
                                    == gg.game_slot_id);
                            }
                        },
                        Option::None => {},
                    }
                }
            }
            k = k + 1;
        }
        proof {
            assert(pairing_effect(pre, *final(self)));
        }
    }
}

/// One item of the serialized event stream that drives the session
/// authority: a periodic tick, or one inbound datagram's packet.
pub enum Event {
    TickEvent,
    Request { endpoint: Endpoint, packet: Packet },
}

impl ServerState {
    /// Consumes one event of the serialized stream. A tick advances the
    /// logical tick counter and runs the auto-pairing policy; an inbound
    /// packet is dispatched, producing at most one response packet. All
    /// session mutation happens through this single entry, one event at
    /// a time.
    pub fn handle_event(&mut self, event: Event) -> (r: Result<Option<Packet>, ProcessError>)
        requires
            old(self).wf(),
            old(self).tick < u64::MAX,
            old(self).next_slot_id < u64::MAX,
            old(self).ctr + num_unassigned(old(self).players@) <= u64::MAX,
            old(self).next_slot_id + num_unassigned(old(self).players@) <= u64::MAX,
            forall|i: int|
                0 <= i < old(self).players@.len() ==> (#[trigger] old(
                    self,
                ).players@[i]).next_resp_seq < u64::MAX,
        ensures
            final(self).wf(),
            match event {
                Event::TickEvent => {
                    let mid = ServerState { tick: (old(self).tick + 1) as u64, ..*old(self) };
                    &&& r == Ok::<Option<Packet>, ProcessError>(Option::None)
                    &&& if num_unassigned(old(self).players@) % 2 != 0 {
                        *final(self) == mid
                    } else {
                        pairing_effect(mid, *final(self))
                    }
                },
                Event::Request { endpoint, packet } => packet_effect(
                    *old(self),
                    *final(self),
                    endpoint,
                    packet,
                    r,
                ),
            },
    {
        match event {
            Event::TickEvent => {
                self.tick = self.tick + 1;
                let ghost mid = *self;
                self.initiate_player_session();
                proof {
                    assert(mid == (ServerState {
                        tick: (old(self).tick + 1) as u64,
                        ..*old(self)
                    }));
                }
                Ok(None)
            },
            Event::Request { endpoint, packet } => self.decode_packet(endpoint, packet),
        }
    }
}

/// Two `Connect` requests for one name: the first, finding the name
/// free, logs in with a cookie never issued before; the second then
/// finds the name taken and is answered `Unauthorized`.
pub proof fn lemma_duplicate_connect(
    s0: ServerState,
    s1: ServerState,
    s2: ServerState,
    name: Seq<char>,
    addr1: Endpoint,
    addr2: Endpoint,
    r1: Result<Option<Packet>, ProcessError>,
    r2: Result<Option<Packet>, ProcessError>,
)
    requires
        !name_taken(s0.players@, name),
        connect_effect(s0, s1, name, addr1, r1),
        connect_effect(s1, s2, name, addr2, r2),
        !(r1 is Err),
    ensures
        r1 matches Result::Ok(Option::Some(Packet::Response { sequence: q1, code: c1, .. })) && ({
            &&& q1 == 0
            &&& c1 matches ResponseCode::LoggedIn { cookie } && !cookie_known(
                s0.players@,
                cookie@,
            )
        }),
        r2 matches Result::Ok(Option::Some(Packet::Response { sequence: q2, code: c2, .. }))
            && q2 == 0 && c2 == ResponseCode::Unauthorized,
        s2 == s1,
{
    assert(s1.players@.last().player_name@ == name);
    assert(name_taken(s1.players@, name));
}

/// Response sequence numbers issued to one player are consecutive: two
/// successive dispatched responses to the same player carry `n` and
/// `n + 1`, and a freshly connected player's next response is sequence 1
/// (sequence 0 was issued by the login response itself).
pub proof fn lemma_response_sequence_consecutive(
    s0: ServerState,
    s1: ServerState,
    s2: ServerState,
    pid: int,
    a1: RequestAction,
    a2: RequestAction,
    r1: Result<Option<Packet>, ProcessError>,
    r2: Result<Option<Packet>, ProcessError>,
    p1: Packet,
    p2: Packet,
)
    requires
        0 <= pid < s0.players@.len(),
        dispatch_effect(s0, s1, pid, a1, r1),
        dispatch_effect(s1, s2, pid, a2, r2),
        r1 == Ok::<Option<Packet>, ProcessError>(Option::Some(p1)),
        r2 == Ok::<Option<Packet>, ProcessError>(Option::Some(p2)),
    ensures
        p1 matches Packet::Response { sequence: q1, .. } && p2 matches Packet::Response {
            sequence: q2,
            ..
        } && q2 == q1 + 1,
{
}

impl GameSlot {
    /// An empty, not-yet-running slot with the given identity and name.
    pub fn new(game_slot_id: u64, name: String, player_ids: Vec<PlayerID>) -> (r: GameSlot)
        ensures
            r.game_slot_id == game_slot_id,
            r.name@ == name@,
            r.player_ids@ == player_ids@,
            r.game_running == false,
            r.universe == 0,
            r.pending_messages@.len() == 0,
    {
        GameSlot {
            game_slot_id,
            name,
            player_ids,
            game_running: false,
            universe: 0,
            pending_messages: Vec::new(),
        }
    }
}

/// Character-for-character string equality, decided on the UTF-8 bytes.
fn str_eq(a: &str, b: &str) -> (r: bool)
    ensures
        r == (a@ == b@),
{
    let av = a.as_bytes_vec();
    let bv = b.as_bytes_vec();
    proof {
        if a@ == b@ {
            assert(encode_utf8(a@) == encode_utf8(b@));
        }
    }
    if av.len() != bv.len() {
        return false;
    }
    let mut i: usize = 0;
    while i < av.len()
        invariant
            av@ == encode_utf8(a@),
            bv@ == encode_utf8(b@),
            av@.len() == bv@.len(),
            i <= av@.len(),
            forall|k: int| 0 <= k < i ==> av@[k] == bv@[k],
        decreases av@.len() - i,
    {
        if av[i] != bv[i] {
            proof {
                if a@ == b@ {
                    assert(encode_utf8(a@) == encode_utf8(b@));
                }
            }
            return false;
        }
        i = i + 1;
    }
    proof {
        assert(encode_utf8(a@) =~= encode_utf8(b@));
        encode_utf8_decode_utf8(a@);
        encode_utf8_decode_utf8(b@);
    }
    true
}

proof fn false_name_proof(s: &ServerState, name: &str)
    requires
        forall|k: int| 0 <= k < s.players@.len() ==> s.players@[k].player_name@ != name@,
    ensures
        !name_taken(s.players@, name@),
{
}

/// Names the result of the standard base64 encoding of a byte sequence.
pub uninterp spec fn base64_of(bytes: Seq<u8>) -> Seq<char>;

/// Relies on base64::encode: the standard alphabet with padding encodes
/// every three input bytes as four output characters, so 16 bytes encode
/// to exactly 24 characters, a function of the input bytes alone.
#[verifier::external_body]
fn base64_encode_16(bytes: &[u8; 16]) -> (r: String)
    ensures
        r@ == base64_of(bytes@),
        r@.len() == 24,
{
    base64::encode(&bytes[..])
}

/// Relies on rand::random: draws a value of the requested type from the
/// thread-local generator; nothing is promised of the value.
pub assume_specification<T>[ rand::random::<T> ]() -> (r: T)
    where
        rand::distributions::Standard: rand::distributions::Distribution<T>,
;

/// A fresh session cookie: the standard base64 text of 16 random bytes.
pub fn new_cookie() -> (r: String)
    ensures
        r@.len() == 24,
{
    let bytes: [u8; 16] = rand::random();
    base64_encode_16(&bytes)
}

} // verus!
