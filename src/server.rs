//! The server's connection table and the work of one tick: ingesting
//! datagrams, queueing snapshots, building outbound messages and evicting
//! idle connections.
use vstd::prelude::*;
use crate::codec::{decode_client, encode_server, enc_server, parse_client};
use crate::message::{
    copy_server_bodies, server_bodies_view, ClientBody, ClientBodyElem, ClientMessage,
    ClientToServer, ServerBody, ServerBodyElem, ServerHeader, ServerMessage, ServerToClient,
    copy_bytes,
};

verus! {

/// Ticks between two runs of the decimated actions (egress, snapshot
/// injection, eviction).
pub const NETWORK_TICK_DELAY: u64 = 60;

/// Largest number of simultaneous connections.
pub const MAX_CLIENTS: usize = 2;

/// Ticks that a connection may stay silent before it is evicted.
pub const FRAME_DIFFERENCE_BEFORE_DISCONNECT: u64 = 300;

/// Room reserved in a new connection's pending queue.
pub const DEFAULT_BODIES_VEC_CAPACITY: usize = 4;

/// Network address of a peer: an IPv6 address (IPv4 addresses mapped into
/// it, with `v6` false) and a port.
#[derive(Clone, Copy, Debug, PartialEq, Eq, Structural, Hash)]
pub struct PeerAddr {
    pub ip: u128,
    pub port: u16,
    pub v6: bool,
}

/// State kept for one admitted peer.
#[derive(Debug)]
pub struct ClientInfo {
    /// The peer's address, the key of the connection.
    pub addr: PeerAddr,
    /// Highest `last_received_sequence` seen from the peer.
    pub last_ack: u64,
    /// Body elements waiting to be sent to the peer.
    pub bodies: Vec<ServerBodyElem>,
    /// Ticks left until the connection is dropped.
    pub until_drop: u64,
}

/// Model of a connection.
pub struct ClientState {
    pub addr: PeerAddr,
    pub last_ack: u64,
    pub bodies: Seq<ServerBody>,
    pub until_drop: u64,
}

impl View for ClientInfo {
    type V = ClientState;

    open spec fn view(&self) -> ClientState {
        ClientState {
            addr: self.addr,
            last_ack: self.last_ack,
            bodies: server_bodies_view(self.bodies@),
            until_drop: self.until_drop,
        }
    }
}

/// The connection made for a newly admitted peer.
pub open spec fn fresh_client(a: PeerAddr) -> ClientState {
    ClientState {
        addr: a,
        last_ack: 0,
        bodies: Seq::empty(),
        until_drop: FRAME_DIFFERENCE_BEFORE_DISCONNECT,
    }
}

/// The answers to a client's body elements: a `Pong(s)` for each `Ping`,
/// nothing for an `Input`.
pub open spec fn translate(bodies: Seq<ClientBody>, s: u64) -> Seq<ServerBody>
    decreases bodies.len(),
{
    if bodies.len() == 0 {
        Seq::empty()
    } else {
        translate(bodies.drop_last(), s) + match bodies.last() {
            ClientBody::Ping => seq![ServerBody::Pong(s)],
            ClientBody::Input(_) => Seq::empty(),
        }
    }
}

/// A pending element stays while it is a snapshot or a pong no older than `ack`.
pub open spec fn keeps(e: ServerBody, ack: u64) -> bool {
    match e {
        ServerBody::Pong(s) => s >= ack,
        ServerBody::Snapshot(_) => true,
    }
}

/// The elements of `q` that stay under `ack`, in order.
pub open spec fn prune(q: Seq<ServerBody>, ack: u64) -> Seq<ServerBody>
    decreases q.len(),
{
    if q.len() == 0 {
        Seq::empty()
    } else if keeps(q.last(), ack) {
        prune(q.drop_last(), ack).push(q.last())
    } else {
        prune(q.drop_last(), ack)
    }
}

/// A connection after a message from its peer: an acknowledgement newer
/// than `last_ack` takes its place, empties the queue and restarts the
/// countdown; then the answers are queued and stale pongs dropped.
pub open spec fn after_message(c: ClientState, m: ClientMessage) -> ClientState {
    let advanced = m.last_received_sequence > c.last_ack;
    let ack = if advanced { m.last_received_sequence } else { c.last_ack };
    let base = if advanced { Seq::empty() } else { c.bodies };
    ClientState {
        addr: c.addr,
        last_ack: ack,
        bodies: prune(base + translate(m.bodies, m.current_sequence), ack),
        until_drop: if advanced { FRAME_DIFFERENCE_BEFORE_DISCONNECT } else { c.until_drop },
    }
}

/// Every pending pong of `c` is no older than its `last_ack`.
pub open spec fn pongs_current(c: ClientState) -> bool {
    forall|i: int|
        0 <= i < c.bodies.len() ==> match #[trigger] c.bodies[i] {
            ServerBody::Pong(s) => s >= c.last_ack,
            ServerBody::Snapshot(_) => true,
        }
}

proof fn lemma_prune_push(q: Seq<ServerBody>, e: ServerBody, ack: u64)
    ensures
        prune(q.push(e), ack) == if keeps(e, ack) {
            prune(q, ack).push(e)
        } else {
            prune(q, ack)
        },
{
    assert(q.push(e).drop_last() =~= q);
}

/// Pruning leaves no pong older than the acknowledgement, and every snapshot
/// of the queue survives it.
pub proof fn lemma_prune_sound(q: Seq<ServerBody>, ack: u64)
    ensures
        forall|i: int|
            0 <= i < prune(q, ack).len() ==> keeps(#[trigger] prune(q, ack)[i], ack),
        forall|i: int|
            0 <= i < q.len() && (#[trigger] q[i] is Snapshot) ==> prune(q, ack).contains(q[i]),
    decreases q.len(),
{
    if q.len() > 0 {
        lemma_prune_sound(q.drop_last(), ack);
        let p = prune(q.drop_last(), ack);
        assert forall|i: int| 0 <= i < q.len() && (#[trigger] q[i] is Snapshot) implies prune(
            q,
            ack,
        ).contains(q[i]) by {
            if i < q.len() - 1 {
                assert(q[i] == q.drop_last()[i]);
                let j = choose|j: int| 0 <= j < p.len() && p[j] == q[i];
                assert(prune(q, ack)[j] == q[i]);
            } else {
                assert(prune(q, ack)[p.len() as int] == q[i]);
            }
        }
    }
}

/// Number of `Ping` elements in `bodies`.
pub open spec fn ping_count(bodies: Seq<ClientBody>) -> nat
    decreases bodies.len(),
{
    if bodies.len() == 0 {
        0
    } else {
        ping_count(bodies.drop_last()) + if bodies.last() is Ping {
            1nat
        } else {
            0nat
        }
    }
}

/// A message with sequence number `s` is answered by exactly one `Pong(s)`
/// for each `Ping` it holds, and by nothing else.
pub proof fn lemma_pings_answered(bodies: Seq<ClientBody>, s: u64)
    ensures
        translate(bodies, s) == Seq::new(ping_count(bodies), |i: int| ServerBody::Pong(s)),
    decreases bodies.len(),
{
    if bodies.len() > 0 {
        lemma_pings_answered(bodies.drop_last(), s);
        assert(translate(bodies, s) =~= Seq::new(ping_count(bodies), |i: int| ServerBody::Pong(s)));
    } else {
        assert(translate(bodies, s) =~= Seq::new(ping_count(bodies), |i: int| ServerBody::Pong(s)));
    }
}

/// The acknowledgement of a connection never goes back, whatever message
/// arrives.
pub proof fn lemma_last_ack_monotone(c: ClientState, m: ClientMessage)
    ensures
        after_message(c, m).last_ack >= c.last_ack,
{
}

/// A message that acknowledges nothing newer leaves the acknowledgement,
/// the countdown and the queued elements where they were; its answers only
/// add to the queue.
pub proof fn lemma_stale_ack_keeps_queue(c: ClientState, m: ClientMessage)
    requires
        m.last_received_sequence <= c.last_ack,
        pongs_current(c),
    ensures
        after_message(c, m).last_ack == c.last_ack,
        after_message(c, m).until_drop == c.until_drop,
        after_message(c, m).bodies == c.bodies + prune(translate(m.bodies, m.current_sequence), c.last_ack),
{
    lemma_prune_append(c.bodies, translate(m.bodies, m.current_sequence), c.last_ack);
    lemma_prune_all_kept(c.bodies, c.last_ack);
}

proof fn lemma_prune_append(a: Seq<ServerBody>, b: Seq<ServerBody>, ack: u64)
    ensures
        prune(a + b, ack) == prune(a, ack) + prune(b, ack),
    decreases b.len(),
{
    if b.len() == 0 {
        assert(a + b =~= a);
        assert(prune(a, ack) + prune(b, ack) =~= prune(a, ack));
    } else {
        assert((a + b).drop_last() =~= a + b.drop_last());
        lemma_prune_append(a, b.drop_last(), ack);
        if keeps(b.last(), ack) {
            assert(prune(a, ack) + prune(b.drop_last(), ack).push(b.last()) =~= (prune(a, ack)
                + prune(b.drop_last(), ack)).push(b.last()));
        }
    }
}

proof fn lemma_prune_all_kept(q: Seq<ServerBody>, ack: u64)
    requires
        forall|i: int| 0 <= i < q.len() ==> keeps(#[trigger] q[i], ack),
    ensures
        prune(q, ack) == q,
    decreases q.len(),
{
    if q.len() > 0 {
        lemma_prune_all_kept(q.drop_last(), ack);
        assert(q.drop_last().push(q.last()) =~= q);
    }
}

impl ClientInfo {
    /// The connection of a newly admitted peer.
    pub fn new(addr: PeerAddr) -> (r: ClientInfo)
        ensures
            r@ == fresh_client(addr),
    {
        let r = ClientInfo {
            addr,
            last_ack: 0,
            bodies: Vec::with_capacity(DEFAULT_BODIES_VEC_CAPACITY),
            until_drop: FRAME_DIFFERENCE_BEFORE_DISCONNECT,
        };
        assert(r@.bodies =~= Seq::<ServerBody>::empty());
        r
    }
}

/// The elements of `q` that stay under `ack`.
fn prune_bodies(q: &Vec<ServerBodyElem>, ack: u64) -> (r: Vec<ServerBodyElem>)
    ensures
        server_bodies_view(r@) == prune(server_bodies_view(q@), ack),
{
    let mut r: Vec<ServerBodyElem> = Vec::with_capacity(q.len());
    let mut i: usize = 0;
    while i < q.len()
        invariant
            i <= q@.len(),
            server_bodies_view(r@) == prune(server_bodies_view(q@.subrange(0, i as int)), ack),
        decreases q@.len() - i,
    {
        let ghost before = r@;
        let keep = match &q[i] {
            ServerBodyElem::Pong(s) => *s >= ack,
            ServerBodyElem::Snapshot(_) => true,
        };
        proof {
            let s = server_bodies_view(q@.subrange(0, i + 1));
            assert(s.drop_last() =~= server_bodies_view(q@.subrange(0, i as int)));
            assert(s.last() == q@[i as int]@);
        }
        if keep {
            r.push(q[i].duplicate());
            assert(server_bodies_view(r@) =~= server_bodies_view(before).push(q@[i as int]@));
        }
        i = i + 1;
    }
    assert(q@.subrange(0, q@.len() as int) =~= q@);
    r
}

/// Updates a connection for one message from its peer: reconciles the
/// acknowledgement, queues a `Pong` for each `Ping` and drops stale pongs.
pub fn compute_new_bodies(client: &mut ClientInfo, message: &ClientToServer)
    ensures
        final(client)@ == after_message(old(client)@, message@),
        final(client).last_ack >= old(client).last_ack,
        pongs_current(final(client)@),
{
    if message.header.last_received_sequence > client.last_ack {
        client.last_ack = message.header.last_received_sequence;
        client.bodies.clear();
        client.until_drop = FRAME_DIFFERENCE_BEFORE_DISCONNECT;
        assert(server_bodies_view(client.bodies@) =~= Seq::<ServerBody>::empty());
    }
    let ghost base = server_bodies_view(client.bodies@);
    let cur = message.header.current_sequence;
    let mut i: usize = 0;
    while i < message.bodies.len()
        invariant
            i <= message.bodies@.len(),
            client.last_ack == after_message(old(client)@, message@).last_ack,
            client.addr == old(client).addr,
            client.until_drop == after_message(old(client)@, message@).until_drop,
            server_bodies_view(client.bodies@) == base + translate(
                message@.bodies.subrange(0, i as int),
                cur,
            ),
        decreases message.bodies@.len() - i,
    {
        let ghost before = client.bodies@;
        proof {
            let s = message@.bodies.subrange(0, i + 1);
            assert(s.drop_last() =~= message@.bodies.subrange(0, i as int));
        }
        match &message.bodies[i] {
            ClientBodyElem::Ping => {
                client.bodies.push(ServerBodyElem::Pong(cur));
                assert(server_bodies_view(client.bodies@) =~= server_bodies_view(before).push(
                    ServerBody::Pong(cur),
                ));
            },
            ClientBodyElem::Input(_) => {
                assert(server_bodies_view(client.bodies@) =~= server_bodies_view(before) + Seq::<ServerBody>::empty());
            },
        }
        i = i + 1;
    }
    assert(message@.bodies.subrange(0, i as int) =~= message@.bodies);
    let ghost pending = server_bodies_view(client.bodies@);
    let kept = prune_bodies(&client.bodies, client.last_ack);
    client.bodies = kept;
    proof {
        lemma_prune_sound(pending, client.last_ack);
        assert forall|j: int| 0 <= j < client@.bodies.len() implies match #[trigger] client@.bodies[j] {
            ServerBody::Pong(s) => s >= client@.last_ack,
            ServerBody::Snapshot(_) => true,
        } by {
            assert(keeps(prune(pending, client.last_ack)[j], client.last_ack));
        }
    }
}


/// Why a datagram changed nothing.
#[derive(Clone, Copy, Debug, PartialEq, Eq, Structural)]
pub enum ReceiveError {
    /// No datagram is waiting on the socket.
    NoMessage,
    /// The socket failed.
    IoError,
    /// The datagram holds no well-formed message.
    DecodeError,
    /// The sender is new and the table is full.
    UnknownSender,
}

/// Why a message was not sent.
#[derive(Clone, Copy, Debug, PartialEq, Eq, Structural)]
pub enum SendError {
    /// The address has no connection.
    NoSuchPeer,
    /// The socket failed.
    IoError,
}

/// The server's state: its connections, in order of admission, and the
/// tick counter stamped on outbound messages.
#[derive(Debug)]
pub struct Server {
    pub clients: Vec<ClientInfo>,
    pub sequence: u64,
}

/// Model of the server's state.
pub struct ServerState {
    pub clients: Seq<ClientState>,
    pub sequence: u64,
}

/// Models of a sequence of connections.
pub open spec fn clients_view(v: Seq<ClientInfo>) -> Seq<ClientState> {
    v.map_values(|c: ClientInfo| c@)
}

impl View for Server {
    type V = ServerState;

    open spec fn view(&self) -> ServerState {
        ServerState { clients: clients_view(self.clients@), sequence: self.sequence }
    }
}

/// `a` has a connection in `cs`.
pub open spec fn has_peer(cs: Seq<ClientState>, a: PeerAddr) -> bool {
    exists|i: int| 0 <= i < cs.len() && (#[trigger] cs[i]).addr == a
}

/// No two connections of `cs` share an address.
pub open spec fn unique_addrs(cs: Seq<ClientState>) -> bool {
    forall|i: int, j: int|
        0 <= i < cs.len() && 0 <= j < cs.len() && i != j ==> (#[trigger] cs[i]).addr != (
        #[trigger] cs[j]).addr
}

/// The table holds at most `MAX_CLIENTS` connections, one per address, and
/// no connection holds a stale pong.
pub open spec fn table_wf(cs: Seq<ClientState>) -> bool {
    &&& cs.len() <= MAX_CLIENTS
    &&& unique_addrs(cs)
    &&& forall|i: int| 0 <= i < cs.len() ==> pongs_current(#[trigger] cs[i])
}

/// The table once `a` is admitted (unchanged if it already has a connection).
pub open spec fn admitted(cs: Seq<ClientState>, a: PeerAddr) -> Seq<ClientState> {
    if has_peer(cs, a) {
        cs
    } else {
        cs.push(fresh_client(a))
    }
}

/// The table once the connection of `a` has taken message `m`.
pub open spec fn deliver(cs: Seq<ClientState>, a: PeerAddr, m: ClientMessage) -> Seq<ClientState> {
    cs.map_values(|c: ClientState| if c.addr == a { after_message(c, m) } else { c })
}

/// The table after datagram `b` from `a`, and what the ingestion reports.
pub open spec fn ingest(cs: Seq<ClientState>, b: Seq<u8>, a: PeerAddr) -> (Seq<ClientState>, Result<(), ReceiveError>) {
    match parse_client(b) {
        None => (cs, Err(ReceiveError::DecodeError)),
        Some(m) => if !has_peer(cs, a) && cs.len() >= MAX_CLIENTS {
            (cs, Err(ReceiveError::UnknownSender))
        } else {
            (deliver(admitted(cs, a), a, m), Ok(()))
        },
    }
}

/// A full table turns away every new sender with `UnknownSender` and stays
/// as it is; a table within capacity stays within it after any datagram.
pub proof fn lemma_capacity_kept(cs: Seq<ClientState>, b: Seq<u8>, a: PeerAddr)
    requires
        cs.len() <= MAX_CLIENTS,
    ensures
        ingest(cs, b, a).0.len() <= MAX_CLIENTS,
        cs.len() == MAX_CLIENTS && !has_peer(cs, a) && parse_client(b) is Some ==> ingest(cs, b, a)
            == (cs, Err::<(), ReceiveError>(ReceiveError::UnknownSender)),
{
}

/// The decimated actions run on this tick.
pub open spec fn active_tick(sequence: u64) -> bool {
    sequence % NETWORK_TICK_DELAY == 0
}

/// The table with `world` queued to every connection.
pub open spec fn with_snapshot(cs: Seq<ClientState>, world: Seq<u8>) -> Seq<ClientState> {
    cs.map_values(|c: ClientState| ClientState { bodies: c.bodies.push(ServerBody::Snapshot(world)), ..c })
}

/// A connection outlives an eviction round.
pub open spec fn survives(c: ClientState) -> bool {
    c.until_drop >= NETWORK_TICK_DELAY
}

/// A surviving connection, one round closer to eviction.
pub open spec fn aged(c: ClientState) -> ClientState {
    ClientState { until_drop: (c.until_drop - NETWORK_TICK_DELAY) as u64, ..c }
}

/// The table after one eviction round: connections that do not survive go,
/// the others age, in order.
pub open spec fn evict(cs: Seq<ClientState>) -> Seq<ClientState>
    decreases cs.len(),
{
    if cs.len() == 0 {
        Seq::empty()
    } else if survives(cs.last()) {
        evict(cs.drop_last()).push(aged(cs.last()))
    } else {
        evict(cs.drop_last())
    }
}

/// The table after `n` eviction rounds with no traffic in between.
pub open spec fn evict_rounds(cs: Seq<ClientState>, n: nat) -> Seq<ClientState>
    decreases n,
{
    if n == 0 {
        cs
    } else {
        evict_rounds(evict(cs), (n - 1) as nat)
    }
}

/// The message that egress sends to connection `c` on tick `sequence`.
pub open spec fn outbound(c: ClientState, sequence: u64) -> ServerMessage {
    ServerMessage { sequence, bodies: c.bodies }
}

/// `x` is a surviving connection of `cs`, aged by one round.
pub open spec fn from_survivor(cs: Seq<ClientState>, x: ClientState) -> bool {
    exists|j: int| 0 <= j < cs.len() && survives(cs[j]) && x == aged(cs[j])
}

proof fn lemma_evict_members(cs: Seq<ClientState>)
    ensures
        evict(cs).len() <= cs.len(),
        forall|k: int|
            0 <= k < evict(cs).len() ==> from_survivor(cs, #[trigger] evict(cs)[k]),
        unique_addrs(cs) ==> unique_addrs(evict(cs)),
        forall|j: int|
            0 <= j < cs.len() && survives(#[trigger] cs[j]) ==> evict(cs).contains(aged(cs[j])),
    decreases cs.len(),
{
    if cs.len() > 0 {
        let d = cs.drop_last();
        lemma_evict_members(d);
        let e = evict(cs);
        assert forall|k: int| 0 <= k < e.len() implies from_survivor(cs, #[trigger] e[k]) by {
            if k < evict(d).len() {
                assert(e[k] == evict(d)[k]);
                assert(from_survivor(d, evict(d)[k]));
                let j = choose|j: int| 0 <= j < d.len() && survives(d[j]) && evict(d)[k] == aged(d[j]);
                assert(cs[j] == d[j]);
            } else {
                let j = cs.len() - 1;
                assert(cs[j] == cs.last());
                assert(survives(cs[j]));
                assert(e[k] == aged(cs[j]));
            }
        }
        if unique_addrs(cs) {
            assert(unique_addrs(d));
            if survives(cs.last()) {
                assert forall|i: int, j: int|
                    0 <= i < e.len() && 0 <= j < e.len() && i != j implies (#[trigger] e[i]).addr
                    != (#[trigger] e[j]).addr by {
                    if i < evict(d).len() && j < evict(d).len() {
                    } else if i < evict(d).len() {
                        assert(from_survivor(d, evict(d)[i]));
                        let ji = choose|ji: int|
                            0 <= ji < d.len() && survives(d[ji]) && evict(d)[i] == aged(d[ji]);
                        assert(cs[ji] == d[ji]);
                        assert(cs[cs.len() - 1] == cs.last());
                    } else if j < evict(d).len() {
                        assert(from_survivor(d, evict(d)[j]));
                        let jj = choose|jj: int|
                            0 <= jj < d.len() && survives(d[jj]) && evict(d)[j] == aged(d[jj]);
                        assert(cs[jj] == d[jj]);
                        assert(cs[cs.len() - 1] == cs.last());
                    }
                }
            }
        }
        assert forall|j: int| 0 <= j < cs.len() && survives(#[trigger] cs[j]) implies e.contains(
            aged(cs[j]),
        ) by {
            if j < cs.len() - 1 {
                assert(cs[j] == d[j]);
                assert(survives(d[j]));
                let k = choose|k: int| 0 <= k < evict(d).len() && evict(d)[k] == aged(d[j]);
                assert(e[k] == evict(d)[k]);
            } else {
                assert(e[e.len() - 1] == aged(cs.last()));
            }
        }
    } else {
        assert(evict(cs).len() == 0);
    }
}

/// A connection whose countdown is below `n` eviction intervals is gone
/// from the table after `n` rounds with no inbound traffic, and so from
/// every later egress; one whose countdown is at least that is still there.
pub proof fn lemma_idle_connection_evicted(cs: Seq<ClientState>, i: int, n: nat)
    requires
        unique_addrs(cs),
        0 <= i < cs.len(),
    ensures
        cs[i].until_drop < n * NETWORK_TICK_DELAY ==> !has_peer(evict_rounds(cs, n), cs[i].addr),
        cs[i].until_drop >= n * NETWORK_TICK_DELAY ==> has_peer(evict_rounds(cs, n), cs[i].addr),
    decreases n,
{
    if n > 0 {
        let a = cs[i].addr;
        let e = evict(cs);
        lemma_evict_members(cs);
        if survives(cs[i]) {
            let k = choose|k: int| 0 <= k < e.len() && e[k] == aged(cs[i]);
            assert((n - 1) * NETWORK_TICK_DELAY == n * NETWORK_TICK_DELAY - NETWORK_TICK_DELAY)
                by (nonlinear_arith);
            lemma_idle_connection_evicted(e, k, (n - 1) as nat);
        } else {
            assert(NETWORK_TICK_DELAY <= n * NETWORK_TICK_DELAY) by (nonlinear_arith)
                requires n >= 1;
            assert(!has_peer(e, a)) by {
                if has_peer(e, a) {
                    let k = choose|k: int| 0 <= k < e.len() && (#[trigger] e[k]).addr == a;
                    assert(from_survivor(cs, e[k]));
                    let j = choose|j: int| 0 <= j < cs.len() && survives(cs[j]) && e[k] == aged(cs[j]);
                    assert(cs[j].addr == cs[i].addr);
                }
            }
            lemma_gone_stays_gone(e, a, (n - 1) as nat);
        }
    }
}

proof fn lemma_gone_stays_gone(cs: Seq<ClientState>, a: PeerAddr, n: nat)
    requires
        !has_peer(cs, a),
    ensures
        !has_peer(evict_rounds(cs, n), a),
    decreases n,
{
    if n > 0 {
        lemma_evict_members(cs);
        let e = evict(cs);
        if has_peer(e, a) {
            let k = choose|k: int| 0 <= k < e.len() && (#[trigger] e[k]).addr == a;
            assert(from_survivor(cs, e[k]));
            let j = choose|j: int| 0 <= j < cs.len() && survives(cs[j]) && e[k] == aged(cs[j]);
            assert(cs[j].addr == a);
        }
        lemma_gone_stays_gone(e, a, (n - 1) as nat);
    }
}


impl Server {
    /// The table is well formed.
    pub open spec fn wf(&self) -> bool {
        table_wf(self@.clients)
    }

    /// An empty table, at tick 1.
    pub fn new() -> (r: Server)
        ensures
            r.wf(),
            r@.clients == Seq::<ClientState>::empty(),
            r.sequence == 1,
    {
        let r = Server { clients: Vec::with_capacity(MAX_CLIENTS * 2), sequence: 1 };
        assert(r@.clients =~= Seq::<ClientState>::empty());
        r
    }

    /// The position of the connection of `a`, if it has one.
    pub fn find_client(&self, a: PeerAddr) -> (r: Option<usize>)
        ensures
            match r {
                Some(i) => i < self.clients@.len() && self.clients@[i as int].addr == a,
                None => !has_peer(self@.clients, a),
            },
    {
        let mut i: usize = 0;
        while i < self.clients.len()
            invariant
                i <= self.clients@.len(),
                forall|j: int| 0 <= j < i ==> self.clients@[j].addr != a,
            decreases self.clients@.len() - i,
        {
            if self.clients[i].addr == a {
                return Some(i);
            }
            i = i + 1;
        }
        assert forall|j: int| 0 <= j < self@.clients.len() implies (#[trigger] self@.clients[j]).addr != a by {
            assert(self@.clients[j] == self.clients@[j]@);
        }
        None
    }

    /// Number of connections.
    pub fn client_count(&self) -> (r: usize)
        ensures
            r == self@.clients.len(),
    {
        self.clients.len()
    }

    /// Decodes a datagram from `sender` and finds its connection, admitting
    /// the sender if it is new and the table has room.
    pub fn get_one_message(&mut self, buffer: &[u8], sender: PeerAddr) -> (r: Result<(usize, ClientToServer), ReceiveError>)
        requires
            old(self).wf(),
        ensures
            final(self).wf(),
            final(self).sequence == old(self).sequence,
            match parse_client(buffer@) {
                None => r == Err::<(usize, ClientToServer), ReceiveError>(ReceiveError::DecodeError)
                    && final(self)@ == old(self)@,
                Some(m) => if !has_peer(old(self)@.clients, sender) && old(self)@.clients.len() >= MAX_CLIENTS {
                    r == Err::<(usize, ClientToServer), ReceiveError>(ReceiveError::UnknownSender)
                        && final(self)@ == old(self)@
                } else {
                    &&& final(self)@.clients == admitted(old(self)@.clients, sender)
                    &&& match r {
                        Ok((i, msg)) => i < final(self)@.clients.len()
                            && final(self)@.clients[i as int].addr == sender && msg@ == m,
                        Err(_) => false,
                    }
                },
            },
    {
        let message = match decode_client(buffer) {
            Ok(m) => m,
            Err(_) => return Err(ReceiveError::DecodeError),
        };
        match self.find_client(sender) {
            Some(i) => {
                assert(self@.clients[i as int].addr == sender);
                Ok((i, message))
            },
            None => {
                if self.clients.len() >= MAX_CLIENTS {
                    return Err(ReceiveError::UnknownSender);
                }
                let ghost before = self@.clients;
                self.clients.push(ClientInfo::new(sender));
                assert(self@.clients =~= before.push(fresh_client(sender)));
                proof {
                    let cs = self@.clients;
                    assert forall|i: int, j: int|
                        0 <= i < cs.len() && 0 <= j < cs.len() && i != j implies (#[trigger] cs[i]).addr
                        != (#[trigger] cs[j]).addr by {
                        if i < before.len() && j < before.len() {
                            assert(cs[i] == before[i] && cs[j] == before[j]);
                        } else if i < before.len() {
                            assert(cs[i] == before[i]);
                        } else {
                            assert(cs[j] == before[j]);
                        }
                    }
                    assert forall|i: int| 0 <= i < cs.len() implies pongs_current(#[trigger] cs[i]) by {
                        if i < before.len() {
                            assert(cs[i] == before[i]);
                        }
                    }
                }
                Ok((self.clients.len() - 1, message))
            },
        }
    }

    /// Ingests one datagram from `sender`: decodes it, admits the sender if
    /// it is new and there is room, and updates its connection.
    pub fn handle_datagram(&mut self, buffer: &[u8], sender: PeerAddr) -> (r: Result<(), ReceiveError>)
        requires
            old(self).wf(),
        ensures
            final(self).wf(),
            final(self).sequence == old(self).sequence,
            final(self)@.clients == ingest(old(self)@.clients, buffer@, sender).0,
            r == ingest(old(self)@.clients, buffer@, sender).1,
            forall|i: int|
                0 <= i < old(self)@.clients.len() ==> final(self)@.clients[i].addr == old(
                    self,
                )@.clients[i].addr && (#[trigger] final(self)@.clients[i]).last_ack >= old(
                    self,
                )@.clients[i].last_ack,
    {
        let (i, message) = self.get_one_message(buffer, sender)?;
        let ghost mid = self@.clients;
        compute_new_bodies(&mut self.clients[i], &message);
        proof {
            let cs = self@.clients;
            let m = message@;
            assert(cs =~= mid.update(i as int, after_message(mid[i as int], m)));
            assert(cs =~= deliver(mid, sender, m));
            assert forall|i: int, j: int|
                0 <= i < cs.len() && 0 <= j < cs.len() && i != j implies (#[trigger] cs[i]).addr
                != (#[trigger] cs[j]).addr by {
                assert(mid[i].addr != mid[j].addr);
            }
        }
        Ok(())
    }

    /// Advances the tick counter.
    pub fn increase_tick(&mut self)
        requires
            old(self).sequence < u64::MAX,
        ensures
            final(self).sequence == old(self).sequence + 1,
            final(self).clients == old(self).clients,
    {
        self.sequence = self.sequence + 1;
    }

    /// On an active tick, queues the world state `terrain` to every
    /// connection.
    pub fn enqueue_terrain(&mut self, terrain: &[u8])
        requires
            old(self).wf(),
        ensures
            final(self).wf(),
            final(self).sequence == old(self).sequence,
            final(self)@.clients == if active_tick(old(self).sequence) {
                with_snapshot(old(self)@.clients, terrain@)
            } else {
                old(self)@.clients
            },
    {
        if self.sequence % NETWORK_TICK_DELAY != 0 {
            return;
        }
        let ghost start = self@.clients;
        let mut i: usize = 0;
        while i < self.clients.len()
            invariant
                i <= self.clients@.len(),
                self@.clients.len() == start.len(),
                self.sequence == old(self).sequence,
                forall|j: int|
                    0 <= j < start.len() ==> (#[trigger] self@.clients[j]) == if j < i {
                        with_snapshot(start, terrain@)[j]
                    } else {
                        start[j]
                    },
            decreases self.clients@.len() - i,
        {
            let ghost before = self.clients@;
            assert(self@.clients[i as int] == start[i as int]);
            assert(before[i as int]@ == start[i as int]);
            self.clients[i].bodies.push(ServerBodyElem::Snapshot(copy_bytes(terrain)));
            assert(server_bodies_view(self.clients@[i as int].bodies@) =~= server_bodies_view(before[i as int].bodies@).push(
                ServerBody::Snapshot(terrain@),
            ));
            assert(self.clients@[i as int].addr == before[i as int].addr);
            assert(self.clients@[i as int].last_ack == before[i as int].last_ack);
            assert(self.clients@[i as int].until_drop == before[i as int].until_drop);
            assert(self@.clients[i as int] == with_snapshot(start, terrain@)[i as int]);
            assert forall|j: int| 0 <= j < start.len() implies (#[trigger] self@.clients[j]) == if j < i + 1 {
                with_snapshot(start, terrain@)[j]
            } else {
                start[j]
            } by {
                if j != i {
                    assert(self.clients@[j] == before[j]);
                    assert(clients_view(before)[j] == if j < i {
                        with_snapshot(start, terrain@)[j]
                    } else {
                        start[j]
                    });
                }
            }
            i = i + 1;
        }
        proof {
            let cs = self@.clients;
            assert(cs =~= with_snapshot(start, terrain@));
            assert forall|i: int, j: int|
                0 <= i < cs.len() && 0 <= j < cs.len() && i != j implies (#[trigger] cs[i]).addr
                != (#[trigger] cs[j]).addr by {
                assert(start[i].addr != start[j].addr);
            }
            assert forall|i: int| 0 <= i < cs.len() implies pongs_current(#[trigger] cs[i]) by {
                assert(pongs_current(start[i]));
                assert forall|k: int| 0 <= k < cs[i].bodies.len() implies match #[trigger] cs[i].bodies[k] {
                    ServerBody::Pong(s) => s >= cs[i].last_ack,
                    ServerBody::Snapshot(_) => true,
                } by {
                    if k < start[i].bodies.len() {
                        assert(cs[i].bodies[k] == start[i].bodies[k]);
                    }
                }
            }
        }
    }

    /// The datagram that carries `message` to `client_addr`, which must have
    /// a connection.
    pub fn send_message(&self, client_addr: PeerAddr, message: &ServerToClient) -> (r: Result<Vec<u8>, SendError>)
        ensures
            match r {
                Ok(b) => has_peer(self@.clients, client_addr) && b@ == enc_server(message@),
                Err(e) => !has_peer(self@.clients, client_addr) && e == SendError::NoSuchPeer,
            },
    {
        match self.find_client(client_addr) {
            Some(i) => {
                assert(self@.clients[i as int].addr == client_addr);
                Ok(encode_server(message))
            },
            None => Err(SendError::NoSuchPeer),
        }
    }

    /// On an active tick, one datagram per connection, in table order: the
    /// connection's address and the message holding the tick number and
    /// everything queued for it. Nothing on other ticks.
    pub fn send_all_messages(&self) -> (r: Vec<(PeerAddr, Vec<u8>)>)
        ensures
            active_tick(self.sequence) ==> r@.len() == self@.clients.len(),
            !active_tick(self.sequence) ==> r@.len() == 0,
            forall|i: int|
                0 <= i < r@.len() ==> (#[trigger] r@[i]).0 == self@.clients[i].addr && r@[i].1@
                    == enc_server(outbound(self@.clients[i], self.sequence)),
    {
        let mut out: Vec<(PeerAddr, Vec<u8>)> = Vec::new();
        if self.sequence % NETWORK_TICK_DELAY != 0 {
            return out;
        }
        let mut i: usize = 0;
        while i < self.clients.len()
            invariant
                i <= self.clients@.len(),
                out@.len() == i,
                forall|j: int|
                    0 <= j < i ==> (#[trigger] out@[j]).0 == self@.clients[j].addr && out@[j].1@
                        == enc_server(outbound(self@.clients[j], self.sequence)),
            decreases self.clients@.len() - i,
        {
            let client = &self.clients[i];
            let message = ServerToClient {
                header: ServerHeader { sequence: self.sequence },
                bodies: copy_server_bodies(&client.bodies),
            };
            assert(message@ == outbound(self@.clients[i as int], self.sequence));
            match self.send_message(client.addr, &message) {
                Ok(bytes) => {
                    out.push((client.addr, bytes));
                },
                Err(_) => {
                    assert(self@.clients[i as int].addr == client.addr);
                    assert(false);
                },
            }
            i = i + 1;
        }
        out
    }

    /// On an active tick, evicts the connections whose countdown is below
    /// one interval and counts the others down by one interval.
    pub fn drop_disconnected_clients(&mut self)
        requires
            old(self).wf(),
        ensures
            final(self).wf(),
            final(self).sequence == old(self).sequence,
            final(self)@.clients == if active_tick(old(self).sequence) {
                evict(old(self)@.clients)
            } else {
                old(self)@.clients
            },
    {
        if self.sequence % NETWORK_TICK_DELAY != 0 {
            return;
        }
        let ghost start = self@.clients;
        let mut rest: Vec<ClientInfo> = Vec::new();
        std::mem::swap(&mut rest, &mut self.clients);
        assert(clients_view(rest@) == start);
        let ghost n = rest@.len();
        let mut k: usize = 0;
        assert(self@.clients =~= evict(start.subrange(0, 0)));
        while rest.len() > 0
            invariant
                k + rest@.len() == n,
                n == start.len(),
                n <= MAX_CLIENTS,
                self.sequence == old(self).sequence,
                clients_view(rest@) == start.subrange(k as int, n as int),
                self@.clients == evict(start.subrange(0, k as int)),
            decreases rest@.len(),
        {
            let ghost r0 = rest@;
            let mut c = rest.remove(0);
            assert(c@ == clients_view(r0)[0]);
            assert forall|j: int| 0 <= j < rest@.len() implies clients_view(rest@)[j] == start[k + 1 + j] by {
                assert(rest@[j] == r0[j + 1]);
                assert(clients_view(r0)[j + 1] == start.subrange(k as int, n as int)[j + 1]);
            }
            assert(clients_view(rest@) =~= start.subrange(k + 1, n as int));
            let ghost before = self@.clients;
            let ghost t = start.subrange(0, k + 1);
            assert(t.drop_last() =~= start.subrange(0, k as int));
            assert(t.last() == c@);
            if c.until_drop >= NETWORK_TICK_DELAY {
                c.until_drop = c.until_drop - NETWORK_TICK_DELAY;
                self.clients.push(c);
                assert(self@.clients =~= before.push(c@));
            }
            k = k + 1;
        }
        assert(start.subrange(0, k as int) =~= start);
        proof {
            lemma_evict_members(start);
            let cs = self@.clients;
            assert forall|i: int| 0 <= i < cs.len() implies pongs_current(#[trigger] cs[i]) by {
                assert(from_survivor(start, cs[i]));
                let j = choose|j: int| 0 <= j < start.len() && survives(start[j]) && cs[i] == aged(start[j]);
                assert(pongs_current(start[j]));
            }
        }
    }

}

} // verus!
