//! Messages exchanged between clients and the server, and their models.
use vstd::prelude::*;

verus! {

/// Header of a message that a client sends.
#[derive(Clone, Copy, Debug, PartialEq, Eq, Structural)]
pub struct ClientHeader {
    /// Sequence number of this message on the client's side.
    pub current_sequence: u64,
    /// Highest server sequence number that the client has received.
    pub last_received_sequence: u64,
}

/// One element of a client's message body.
#[derive(Debug)]
pub enum ClientBodyElem {
    /// Asks for a `Pong` carrying this message's sequence number.
    Ping,
    /// Control input, carried as opaque bytes.
    Input(Vec<u8>),
}

/// A message from a client to the server.
#[derive(Debug)]
pub struct ClientToServer {
    pub header: ClientHeader,
    pub bodies: Vec<ClientBodyElem>,
}

/// Header of a message that the server sends.
#[derive(Clone, Copy, Debug, PartialEq, Eq, Structural)]
pub struct ServerHeader {
    /// The server's tick number when the message was built.
    pub sequence: u64,
}

/// One element of the server's message body.
#[derive(Debug)]
pub enum ServerBodyElem {
    /// Answer to a `Ping` in the client message with this sequence number.
    Pong(u64),
    /// World state, carried as opaque bytes.
    Snapshot(Vec<u8>),
}

/// A message from the server to a client.
#[derive(Debug)]
pub struct ServerToClient {
    pub header: ServerHeader,
    pub bodies: Vec<ServerBodyElem>,
}

/// Model of a client body element.
pub enum ClientBody {
    Ping,
    Input(Seq<u8>),
}

/// Model of a client message.
pub struct ClientMessage {
    pub current_sequence: u64,
    pub last_received_sequence: u64,
    pub bodies: Seq<ClientBody>,
}

/// Model of a server body element.
pub enum ServerBody {
    Pong(u64),
    Snapshot(Seq<u8>),
}

/// Model of a server message.
pub struct ServerMessage {
    pub sequence: u64,
    pub bodies: Seq<ServerBody>,
}

impl View for ClientBodyElem {
    type V = ClientBody;

    open spec fn view(&self) -> ClientBody {
        match self {
            ClientBodyElem::Ping => ClientBody::Ping,
            ClientBodyElem::Input(p) => ClientBody::Input(p@),
        }
    }
}

impl View for ServerBodyElem {
    type V = ServerBody;

    open spec fn view(&self) -> ServerBody {
        match self {
            ServerBodyElem::Pong(s) => ServerBody::Pong(*s),
            ServerBodyElem::Snapshot(p) => ServerBody::Snapshot(p@),
        }
    }
}

/// Models of a sequence of client body elements.
pub open spec fn client_bodies_view(s: Seq<ClientBodyElem>) -> Seq<ClientBody> {
    s.map_values(|e: ClientBodyElem| e@)
}

/// Models of a sequence of server body elements.
pub open spec fn server_bodies_view(s: Seq<ServerBodyElem>) -> Seq<ServerBody> {
    s.map_values(|e: ServerBodyElem| e@)
}

impl View for ClientToServer {
    type V = ClientMessage;

    open spec fn view(&self) -> ClientMessage {
        ClientMessage {
            current_sequence: self.header.current_sequence,
            last_received_sequence: self.header.last_received_sequence,
            bodies: client_bodies_view(self.bodies@),
        }
    }
}

impl View for ServerToClient {
    type V = ServerMessage;

    open spec fn view(&self) -> ServerMessage {
        ServerMessage { sequence: self.header.sequence, bodies: server_bodies_view(self.bodies@) }
    }
}

/// A copy of the bytes in `b`.
pub fn copy_bytes(b: &[u8]) -> (r: Vec<u8>)
    ensures
        r@ == b@,
{
    let mut r: Vec<u8> = Vec::with_capacity(b.len());
    let mut i: usize = 0;
    while i < b.len()
        invariant
            i <= b@.len(),
            r@ == b@.subrange(0, i as int),
        decreases b@.len() - i,
    {
        r.push(b[i]);
        i = i + 1;
        assert(r@ =~= b@.subrange(0, i as int));
    }
    assert(r@ =~= b@);
    r
}

impl ServerBodyElem {
    /// A copy of this element.
    pub fn duplicate(&self) -> (r: ServerBodyElem)
        ensures
            r@ == self@,
    {
        match self {
            ServerBodyElem::Pong(s) => ServerBodyElem::Pong(*s),
            ServerBodyElem::Snapshot(p) => ServerBodyElem::Snapshot(copy_bytes(p.as_slice())),
        }
    }
}

/// A copy of the server body elements in `v`.
pub fn copy_server_bodies(v: &Vec<ServerBodyElem>) -> (r: Vec<ServerBodyElem>)
    ensures
        server_bodies_view(r@) == server_bodies_view(v@),
{
    let mut r: Vec<ServerBodyElem> = Vec::with_capacity(v.len());
    let mut i: usize = 0;
    while i < v.len()
        invariant
            i <= v@.len(),
            r@.len() == i,
            forall|j: int| 0 <= j < i ==> (#[trigger] r@[j])@ == v@[j]@,
        decreases v@.len() - i,
    {
        r.push(v[i].duplicate());
        i = i + 1;
    }
    assert(server_bodies_view(r@) =~= server_bodies_view(v@));
    r
}

} // verus!
