//! The messages of the game's network protocol: their kinds, their framing
//! on the wire, and the decisions of the server about connected clients,
//! map requests and game-state broadcasts. Sending and receiving is left
//! to the caller.
use vstd::prelude::*;

verus! {

/// The kinds of messages.
#[derive(Clone, Copy, PartialEq, Eq, Structural, Debug)]
pub enum MessageType {
    Connect,
    MapRequest,
    MapData,
    PlayerInput,
    GameState,
    GameStateUpdate,
    Disconnect,
}

/// Largest game-state payload sent in one datagram.
pub const MAX_CHUNK_SIZE: usize = 1400;

impl MessageType {
    /// The byte of each kind: `Connect` 0, `MapRequest` 1, `MapData` 2,
    /// `PlayerInput` 3, `GameState` 4, `GameStateUpdate` 5, `Disconnect` 6.
    pub open spec fn code(self) -> u8 {
        match self {
            MessageType::Connect => 0,
            MessageType::MapRequest => 1,
            MessageType::MapData => 2,
            MessageType::PlayerInput => 3,
            MessageType::GameState => 4,
            MessageType::GameStateUpdate => 5,
            MessageType::Disconnect => 6,
        }
    }

    /// The byte of the kind (see `code`).
    pub fn to_u8(&self) -> (v: u8)
        ensures
            v == self.code(),
    {
        match self {
            MessageType::Connect => 0,
            MessageType::MapRequest => 1,
            MessageType::MapData => 2,
            MessageType::PlayerInput => 3,
            MessageType::GameState => 4,
            MessageType::GameStateUpdate => 5,
            MessageType::Disconnect => 6,
        }
    }

    /// The kind with byte `value`, if any (see `code`).
    pub fn from_u8(value: u8) -> (r: Option<MessageType>)
        ensures
            r is Some <==> value < 7,
            r matches Some(t) ==> t.code() == value,
    {
        match value {
            0 => Some(MessageType::Connect),
            1 => Some(MessageType::MapRequest),
            2 => Some(MessageType::MapData),
            3 => Some(MessageType::PlayerInput),
            4 => Some(MessageType::GameState),
            5 => Some(MessageType::GameStateUpdate),
            6 => Some(MessageType::Disconnect),
            _ => None,
        }
    }
}

/// Different kinds have different bytes, so the byte of a kind decodes to
/// that kind.
pub proof fn lemma_message_type_round_trip(t: MessageType, u: MessageType)
    ensures
        t.code() < 7,
        t.code() == u.code() ==> t == u,
{
}

/// A message on the wire: the byte of its kind followed by its payload.
pub open spec fn frame(t: MessageType, data: Seq<u8>) -> Seq<u8> {
    seq![t.code()] + data
}

/// Frames a message (see `frame`).
pub fn encode_message(msg_type: MessageType, data: &[u8]) -> (message: Vec<u8>)
    ensures
        message@ == frame(msg_type, data@),
{
    let mut message: Vec<u8> = Vec::new();
    message.push(msg_type.to_u8());
    let mut i: usize = 0;
    while i < data.len()
        invariant
            0 <= i <= data@.len(),
            message@ == seq![msg_type.code()] + data@.subrange(0, i as int),
        decreases data@.len() - i,
    {
        message.push(data[i]);
        assert(data@.subrange(0, i + 1) =~= data@.subrange(0, i as int).push(data@[i as int]));
        i = i + 1;
        assert(message@ =~= seq![msg_type.code()] + data@.subrange(0, i as int));
    }
    assert(data@.subrange(0, data@.len() as int) =~= data@);
    message
}

/// Reads a received datagram: its kind and payload, or `None` when it is
/// empty or its first byte is no kind.
pub fn decode_message(buf: &[u8]) -> (r: Option<(MessageType, Vec<u8>)>)
    ensures
        r is Some <==> (buf@.len() > 0 && buf@[0] < 7),
        r matches Some(m) ==> frame(m.0, m.1@) == buf@,
{
    if buf.len() == 0 {
        return None;
    }
    match MessageType::from_u8(buf[0]) {
        None => None,
        Some(t) => {
            let mut data: Vec<u8> = Vec::new();
            let mut i: usize = 1;
            while i < buf.len()
                invariant
                    1 <= i <= buf@.len(),
                    data@ == buf@.subrange(1, i as int),
                decreases buf@.len() - i,
            {
                data.push(buf[i]);
                assert(buf@.subrange(1, i + 1) =~= buf@.subrange(1, i as int).push(buf@[i as int]));
                i = i + 1;
            }
            assert(frame(t, data@) =~= buf@);
            Some((t, data))
        },
    }
}

/// Decoding a framed message gives the kind and the payload back.
pub proof fn lemma_frame_round_trip(t: MessageType, data: Seq<u8>)
    ensures
        frame(t, data).len() > 0,
        frame(t, data)[0] == t.code(),
        frame(t, data).subrange(1, frame(t, data).len() as int) == data,
{
    assert(frame(t, data).subrange(1, frame(t, data).len() as int) =~= data);
}

/// The game-state message sent to the clients: a `GameStateUpdate` with
/// the state, cut to its first `MAX_CHUNK_SIZE` bytes when it is longer.
pub open spec fn broadcast_frame(state: Seq<u8>) -> Seq<u8> {
    if state.len() > MAX_CHUNK_SIZE {
        frame(MessageType::GameStateUpdate, state.subrange(0, MAX_CHUNK_SIZE as int))
    } else {
        frame(MessageType::GameStateUpdate, state)
    }
}

/// The message that broadcasts a game state (see `broadcast_frame`).
pub fn broadcast_message(state_data: &[u8]) -> (message: Vec<u8>)
    ensures
        message@ == broadcast_frame(state_data@),
{
    if state_data.len() > MAX_CHUNK_SIZE {
        let first = &state_data[0..MAX_CHUNK_SIZE];
        assert(first@ =~= state_data@.subrange(0, MAX_CHUNK_SIZE as int));
        encode_message(MessageType::GameStateUpdate, first)
    } else {
        encode_message(MessageType::GameStateUpdate, state_data)
    }
}

/// A client's address: its IPv4 address as a number and its port.
pub type Endpoint = (u32, u16);

/// What the server keeps about the network: the clients that connected,
/// each once, and the byte form of the current map.
pub struct ServerState {
    pub connected_clients: Vec<Endpoint>,
    pub current_map: Vec<u8>,
}

impl ServerState {
    /// No client is listed twice.
    pub open spec fn well_formed(&self) -> bool {
        forall|i: int, j: int|
            0 <= i < j < self.connected_clients@.len() ==> #[trigger] self.connected_clients@[i]
                != #[trigger] self.connected_clients@[j]
    }

    /// No clients and no map yet.
    pub fn new() -> (s: ServerState)
        ensures
            s.well_formed(),
            s.connected_clients@.len() == 0,
            s.current_map@.len() == 0,
    {
        ServerState { connected_clients: Vec::new(), current_map: Vec::new() }
    }

    /// Sets the byte form of the map that map requests are answered with.
    pub fn set_map(&mut self, map: Vec<u8>)
        ensures
            final(self).current_map@ == map@,
            final(self).connected_clients == old(self).connected_clients,
    {
        self.current_map = map;
    }

    /// Handles a message from `client` as the server: a `Connect` lists
    /// the client unless it is listed already; a `MapRequest` is answered,
    /// when there is a map, with a `MapData` message holding it; other
    /// messages change nothing here. Returns the answer to send to the
    /// client, if any.
    pub fn handle_server_message(&mut self, msg_type: MessageType, client: Endpoint) -> (reply: Option<Vec<u8>>)
        requires
            old(self).well_formed(),
        ensures
            final(self).well_formed(),
            final(self).current_map == old(self).current_map,
            msg_type == MessageType::Connect ==> {
                &&& final(self).connected_clients@.contains(client)
                &&& (old(self).connected_clients@.contains(client) ==> final(self).connected_clients@
                    == old(self).connected_clients@)
                &&& (!old(self).connected_clients@.contains(client) ==> final(self).connected_clients@
                    == old(self).connected_clients@.push(client))
            },
            msg_type != MessageType::Connect ==> final(self).connected_clients@
                == old(self).connected_clients@,
            reply is Some <==> (msg_type == MessageType::MapRequest && old(self).current_map@.len() > 0),
            reply matches Some(m) ==> m@ == frame(MessageType::MapData, old(self).current_map@),
    {
        match msg_type {
            MessageType::Connect => {
                let mut i: usize = 0;
                let mut known = false;
                while i < self.connected_clients.len() && !known
                    invariant
                        0 <= i <= self.connected_clients@.len(),
                        known ==> self.connected_clients@.contains(client),
                        !known ==> forall|k: int| 0 <= k < i ==> #[trigger] self.connected_clients@[k] != client,
                    decreases self.connected_clients@.len() - i + (if known { 0int } else { 1int }),
                {
                    let c = self.connected_clients[i];
                    if c.0 == client.0 && c.1 == client.1 {
                        known = true;
                        assert(self.connected_clients@[i as int] == client);
                    } else {
                        i = i + 1;
                    }
                }
                if !known {
                    let ghost before = self.connected_clients@;
                    self.connected_clients.push(client);
                    proof {
                        let after = self.connected_clients@;
                        assert(after[before.len() as int] == client);
                        assert forall|a: int, b: int| 0 <= a < b < after.len() implies #[trigger] after[a]
                            != #[trigger] after[b] by {
                            if b == before.len() {
                                assert(after[a] == before[a]);
                            } else {
                                assert(after[a] == before[a] && after[b] == before[b]);
                            }
                        }
                    }
                }
                None
            },
            MessageType::MapRequest => {
                if self.current_map.len() > 0 {
                    Some(encode_message(MessageType::MapData, self.current_map.as_slice()))
                } else {
                    None
                }
            },
            _ => None,
        }
    }
}

/// The payload of the first non-empty `MapData` message among `messages`,
/// if any.
pub fn received_map(messages: &Vec<(MessageType, Vec<u8>)>) -> (r: Option<Vec<u8>>)
    ensures
        r is Some <==> exists|k: int|
            0 <= k < messages@.len() && #[trigger] messages@[k].0 == MessageType::MapData
                && messages@[k].1@.len() > 0,
        r matches Some(m) ==> exists|k: int|
            0 <= k < messages@.len() && #[trigger] messages@[k].0 == MessageType::MapData
                && messages@[k].1@ == m@ && m@.len() > 0 && forall|j: int|
                0 <= j < k ==> !(messages@[j].0 == MessageType::MapData && messages@[j].1@.len() > 0),
{
    let mut i: usize = 0;
    while i < messages.len()
        invariant
            0 <= i <= messages@.len(),
            forall|j: int|
                0 <= j < i ==> !(#[trigger] messages@[j].0 == MessageType::MapData && messages@[j].1@.len()
                    > 0),
        decreases messages@.len() - i,
    {
        let (t, data) = (&messages[i].0, &messages[i].1);
        if *t == MessageType::MapData && data.len() > 0 {
            let mut copy: Vec<u8> = Vec::new();
            let mut k: usize = 0;
            while k < data.len()
                invariant
                    0 <= k <= data@.len(),
                    copy@ == data@.subrange(0, k as int),
                decreases data@.len() - k,
            {
                copy.push(data[k]);
                assert(data@.subrange(0, k + 1) =~= data@.subrange(0, k as int).push(data@[k as int]));
                k = k + 1;
            }
            assert(data@.subrange(0, data@.len() as int) =~= data@);
            assert(messages@[i as int].0 == MessageType::MapData);
            return Some(copy);
        }
        i = i + 1;
    }
    None
}

} // verus!
