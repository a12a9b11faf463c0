use krabnet::args::OpenServer;
use krabnet::codec::{decode_client, decode_server, encode_bytes, encode_client, encode_server, WireError};
use krabnet::message::{
    ClientBodyElem, ClientHeader, ClientToServer, ServerBodyElem, ServerHeader, ServerToClient,
};
use krabnet::server::{
    compute_new_bodies, ClientInfo, PeerAddr, ReceiveError, SendError, Server,
    FRAME_DIFFERENCE_BEFORE_DISCONNECT, MAX_CLIENTS, NETWORK_TICK_DELAY,
};

fn peer(port: u16) -> PeerAddr {
    PeerAddr { ip: 0xffff_7f00_0001, port, v6: false }
}

fn client_msg(cur: u64, last: u64, bodies: Vec<ClientBodyElem>) -> Vec<u8> {
    encode_client(&ClientToServer {
        header: ClientHeader { current_sequence: cur, last_received_sequence: last },
        bodies,
    })
}

fn pongs(bodies: &[ServerBodyElem]) -> Vec<u64> {
    let mut r = Vec::new();
    for b in bodies {
        if let ServerBodyElem::Pong(s) = b {
            r.push(*s);
        }
    }
    r
}

fn snapshots(bodies: &[ServerBodyElem]) -> usize {
    bodies.iter().filter(|b| matches!(b, ServerBodyElem::Snapshot(_))).count()
}

/// Runs the server's per-tick work after ingestion; returns what egress built.
fn run_tick(server: &mut Server, world: &[u8]) -> Vec<(PeerAddr, Vec<u8>)> {
    server.increase_tick();
    server.enqueue_terrain(world);
    let out = server.send_all_messages();
    server.drop_disconnected_clients();
    out
}

fn advance_to_active(server: &mut Server, world: &[u8]) -> Vec<(PeerAddr, Vec<u8>)> {
    loop {
        let out = run_tick(server, world);
        if server.sequence % NETWORK_TICK_DELAY == 0 {
            return out;
        }
    }
}

#[test]
fn client_message_bytes_are_exact() {
    assert_eq!(client_msg(1, 0, vec![ClientBodyElem::Ping]), vec![1, 0, 1, 0]);
    assert_eq!(
        client_msg(2, 1, vec![ClientBodyElem::Input(vec![7, 8])]),
        vec![2, 1, 1, 1, 2, 7, 8]
    );
}

#[test]
fn server_message_bytes_are_exact() {
    let m = ServerToClient {
        header: ServerHeader { sequence: 1 },
        bodies: vec![ServerBodyElem::Pong(1), ServerBodyElem::Snapshot(vec![9])],
    };
    assert_eq!(encode_server(&m), vec![1, 2, 0, 1, 1, 1, 9]);
}

#[test]
fn wide_integers_take_marker_bytes() {
    let m = ServerToClient { header: ServerHeader { sequence: 300 }, bodies: vec![] };
    assert_eq!(encode_server(&m), vec![251, 44, 1, 0]);
    let m = ServerToClient { header: ServerHeader { sequence: 70000 }, bodies: vec![] };
    assert_eq!(encode_server(&m), vec![252, 0x70, 0x11, 0x01, 0x00, 0]);
    let m = ServerToClient { header: ServerHeader { sequence: 1u64 << 40 }, bodies: vec![] };
    assert_eq!(encode_server(&m), vec![253, 0, 0, 0, 0, 0, 1, 0, 0, 0]);
    assert_eq!(encode_bytes(&[5, 6]), vec![2, 5, 6]);
}

#[test]
fn client_round_trip() {
    for &(cur, last) in &[(0u64, 0u64), (250, 251), (65535, 65536), (u32::MAX as u64 + 1, u64::MAX)] {
        let bytes = client_msg(
            cur,
            last,
            vec![ClientBodyElem::Ping, ClientBodyElem::Input(vec![1, 2, 3]), ClientBodyElem::Ping],
        );
        let m = decode_client(&bytes).unwrap();
        assert_eq!(m.header.current_sequence, cur);
        assert_eq!(m.header.last_received_sequence, last);
        assert_eq!(m.bodies.len(), 3);
        assert!(matches!(m.bodies[0], ClientBodyElem::Ping));
        match &m.bodies[1] {
            ClientBodyElem::Input(p) => assert_eq!(p, &vec![1, 2, 3]),
            _ => panic!("expected an input"),
        }
        assert!(matches!(m.bodies[2], ClientBodyElem::Ping));
    }
}

#[test]
fn server_round_trip_with_trailing_bytes() {
    let m = ServerToClient {
        header: ServerHeader { sequence: 123456 },
        bodies: vec![ServerBodyElem::Snapshot(vec![0; 300]), ServerBodyElem::Pong(u64::MAX)],
    };
    let mut bytes = encode_server(&m);
    bytes.extend_from_slice(&[0u8; 40]);
    let d = decode_server(&bytes).unwrap();
    assert_eq!(d.header.sequence, 123456);
    assert_eq!(d.bodies.len(), 2);
    match &d.bodies[0] {
        ServerBodyElem::Snapshot(p) => assert_eq!(p.len(), 300),
        _ => panic!("expected a snapshot"),
    }
    assert_eq!(pongs(&d.bodies), vec![u64::MAX]);
}

#[test]
fn malformed_datagrams_are_rejected() {
    assert_eq!(decode_client(&[]).err(), Some(WireError));
    assert_eq!(decode_client(&[1, 0]).err(), Some(WireError));
    // unknown body tag
    assert_eq!(decode_client(&[1, 0, 1, 2]).err(), Some(WireError));
    // marker byte that no 64-bit integer uses
    assert_eq!(decode_client(&[254, 0, 0, 0]).err(), Some(WireError));
    // payload longer than the datagram
    assert_eq!(decode_client(&[1, 0, 1, 1, 5, 1, 2]).err(), Some(WireError));
    // truncated wide integer
    assert_eq!(decode_server(&[251, 1]).err(), Some(WireError));
}

#[test]
fn ping_is_answered_at_next_egress() {
    let mut server = Server::new();
    let a = peer(4000);
    assert_eq!(server.handle_datagram(&client_msg(1, 0, vec![ClientBodyElem::Ping]), a), Ok(()));
    let out = advance_to_active(&mut server, &[3, 4]);
    assert_eq!(out.len(), 1);
    assert_eq!(out[0].0, a);
    let m = decode_server(&out[0].1).unwrap();
    assert_eq!(m.header.sequence, server.sequence);
    assert_eq!(pongs(&m.bodies), vec![1]);
    assert_eq!(snapshots(&m.bodies), 1);
}

#[test]
fn full_table_turns_away_new_sender() {
    let mut server = Server::new();
    let msg = client_msg(1, 0, vec![]);
    assert_eq!(server.handle_datagram(&msg, peer(1)), Ok(()));
    assert_eq!(server.handle_datagram(&msg, peer(2)), Ok(()));
    assert_eq!(server.client_count(), MAX_CLIENTS);
    assert_eq!(server.handle_datagram(&msg, peer(3)), Err(ReceiveError::UnknownSender));
    assert_eq!(server.client_count(), 2);
    assert_eq!(server.find_client(peer(3)), None);
    // known senders are still served
    assert_eq!(server.handle_datagram(&msg, peer(2)), Ok(()));
    assert_eq!(server.client_count(), 2);
}

#[test]
fn malformed_datagram_changes_nothing() {
    let mut server = Server::new();
    assert_eq!(server.handle_datagram(&[255], peer(1)), Err(ReceiveError::DecodeError));
    assert_eq!(server.client_count(), 0);
}

#[test]
fn idle_connection_is_evicted() {
    let mut server = Server::new();
    let a = peer(5);
    server.increase_tick();
    assert_eq!(server.handle_datagram(&client_msg(1, 0, vec![]), a), Ok(()));
    let intervals = FRAME_DIFFERENCE_BEFORE_DISCONNECT / NETWORK_TICK_DELAY;
    for _ in 0..intervals {
        let out = advance_to_active(&mut server, &[]);
        assert_eq!(out.len(), 1);
        assert!(server.find_client(a).is_some());
    }
    assert_eq!(server.sequence, FRAME_DIFFERENCE_BEFORE_DISCONNECT);
    let out = advance_to_active(&mut server, &[]);
    assert_eq!(out.len(), 1);
    assert_eq!(server.find_client(a), None);
    let out = advance_to_active(&mut server, &[]);
    assert!(out.is_empty());
}

#[test]
fn fresh_ack_keeps_connection_alive() {
    let mut server = Server::new();
    let a = peer(6);
    assert_eq!(server.handle_datagram(&client_msg(1, 0, vec![]), a), Ok(()));
    for round in 1..20u64 {
        advance_to_active(&mut server, &[]);
        assert_eq!(server.handle_datagram(&client_msg(round + 1, server.sequence, vec![]), a), Ok(()));
        let i = server.find_client(a).unwrap();
        assert_eq!(server.clients[i].until_drop, FRAME_DIFFERENCE_BEFORE_DISCONNECT);
    }
}

#[test]
fn stale_ack_leaves_ack_and_queue() {
    let mut c = ClientInfo::new(peer(7));
    c.last_ack = 5;
    c.until_drop = 120;
    c.bodies.push(ServerBodyElem::Pong(6));
    c.bodies.push(ServerBodyElem::Snapshot(vec![1]));
    let m = decode_client(&client_msg(9, 3, vec![ClientBodyElem::Input(vec![0])])).unwrap();
    compute_new_bodies(&mut c, &m);
    assert_eq!(c.last_ack, 5);
    assert_eq!(c.until_drop, 120);
    assert_eq!(pongs(&c.bodies), vec![6]);
    assert_eq!(snapshots(&c.bodies), 1);
    assert_eq!(c.bodies.len(), 2);
}

#[test]
fn stale_message_still_answers_pings() {
    let mut c = ClientInfo::new(peer(8));
    c.last_ack = 5;
    let m = decode_client(&client_msg(9, 5, vec![ClientBodyElem::Ping, ClientBodyElem::Ping])).unwrap();
    compute_new_bodies(&mut c, &m);
    assert_eq!(pongs(&c.bodies), vec![9, 9]);
}

#[test]
fn pong_older_than_ack_is_pruned() {
    let mut c = ClientInfo::new(peer(9));
    c.last_ack = 10;
    let m = decode_client(&client_msg(4, 2, vec![ClientBodyElem::Ping])).unwrap();
    compute_new_bodies(&mut c, &m);
    assert!(c.bodies.is_empty());
    assert_eq!(c.last_ack, 10);
}

#[test]
fn new_ack_clears_queue_and_resets_countdown() {
    let mut c = ClientInfo::new(peer(10));
    c.last_ack = 2;
    c.until_drop = 0;
    c.bodies.push(ServerBodyElem::Pong(3));
    c.bodies.push(ServerBodyElem::Snapshot(vec![1, 2]));
    let m = decode_client(&client_msg(20, 60, vec![ClientBodyElem::Ping])).unwrap();
    compute_new_bodies(&mut c, &m);
    assert_eq!(c.last_ack, 60);
    assert_eq!(c.until_drop, FRAME_DIFFERENCE_BEFORE_DISCONNECT);
    // the answer to this very message is older than the new ack
    assert!(c.bodies.is_empty());
}

#[test]
fn snapshots_survive_pruning() {
    let mut c = ClientInfo::new(peer(11));
    c.bodies.push(ServerBodyElem::Snapshot(vec![1]));
    c.bodies.push(ServerBodyElem::Pong(0));
    let m = decode_client(&client_msg(1, 0, vec![ClientBodyElem::Ping])).unwrap();
    compute_new_bodies(&mut c, &m);
    assert_eq!(snapshots(&c.bodies), 1);
    assert_eq!(pongs(&c.bodies), vec![0, 1]);
}

#[test]
fn last_ack_never_decreases() {
    let mut server = Server::new();
    let a = peer(12);
    let mut prev = 0;
    for last in [4u64, 2, 9, 9, 1, 15, 3] {
        assert_eq!(server.handle_datagram(&client_msg(1, last, vec![]), a), Ok(()));
        let i = server.find_client(a).unwrap();
        assert!(server.clients[i].last_ack >= prev);
        prev = server.clients[i].last_ack;
    }
    assert_eq!(prev, 15);
}

#[test]
fn only_active_ticks_act() {
    let mut server = Server::new();
    let a = peer(13);
    assert_eq!(server.handle_datagram(&client_msg(1, 0, vec![]), a), Ok(()));
    server.increase_tick();
    assert_eq!(server.sequence, 2);
    server.enqueue_terrain(&[1]);
    assert!(server.send_all_messages().is_empty());
    server.drop_disconnected_clients();
    let i = server.find_client(a).unwrap();
    assert!(server.clients[i].bodies.is_empty());
    assert_eq!(server.clients[i].until_drop, FRAME_DIFFERENCE_BEFORE_DISCONNECT);
}

#[test]
fn unacknowledged_snapshots_are_resent() {
    let mut server = Server::new();
    let a = peer(14);
    assert_eq!(server.handle_datagram(&client_msg(1, 0, vec![]), a), Ok(()));
    advance_to_active(&mut server, &[1]);
    let out = advance_to_active(&mut server, &[2]);
    let m = decode_server(&out[0].1).unwrap();
    assert_eq!(snapshots(&m.bodies), 2);
}

#[test]
fn send_to_unknown_peer_fails() {
    let server = Server::new();
    let m = ServerToClient { header: ServerHeader { sequence: 1 }, bodies: vec![] };
    assert_eq!(server.send_message(peer(1), &m), Err(SendError::NoSuchPeer));
}

#[test]
fn send_to_known_peer_encodes() {
    let mut server = Server::new();
    assert_eq!(server.handle_datagram(&client_msg(1, 0, vec![]), peer(1)), Ok(()));
    let m = ServerToClient { header: ServerHeader { sequence: 7 }, bodies: vec![ServerBodyElem::Pong(2)] };
    assert_eq!(server.send_message(peer(1), &m), Ok(vec![7, 1, 0, 2]));
}

#[test]
fn open_server_holds_its_values() {
    let o = OpenServer { open_port: 8080, filename: String::from("save.bin") };
    assert_eq!(o.open_port, 8080);
    assert_eq!(o.filename, "save.bin");
}
