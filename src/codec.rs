//! The wire format of both message directions. A message is its header
//! fields, the number of body elements and the elements, each an integer tag
//! followed by its payload; integers and byte strings are written as
//! bincode's standard configuration writes them.
use vstd::prelude::*;
use vstd::slice::slice_subrange;
use crate::message::{
    client_bodies_view, server_bodies_view, ClientBody, ClientBodyElem, ClientHeader,
    ClientMessage, ClientToServer, ServerBody, ServerBodyElem, ServerHeader, ServerMessage,
    ServerToClient, copy_bytes,
};
use crate::varint::{
    decode_varint, encode_varint, lemma_varint_round_trip, parse_varint, starts_with, varint,
};

verus! {

/// A datagram that does not hold a well-formed message.
#[derive(Clone, Copy, Debug, PartialEq, Eq, Structural)]
pub struct WireError;

// ----- encodings -----

/// A byte string: its length, then its bytes.
pub open spec fn enc_bytes(p: Seq<u8>) -> Seq<u8> {
    varint(p.len() as u64) + p
}

pub open spec fn enc_client_body(e: ClientBody) -> Seq<u8> {
    match e {
        ClientBody::Ping => varint(0),
        ClientBody::Input(p) => varint(1) + enc_bytes(p),
    }
}

pub open spec fn enc_server_body(e: ServerBody) -> Seq<u8> {
    match e {
        ServerBody::Pong(s) => varint(0) + varint(s),
        ServerBody::Snapshot(p) => varint(1) + enc_bytes(p),
    }
}

pub open spec fn enc_client_bodies(s: Seq<ClientBody>) -> Seq<u8>
    decreases s.len(),
{
    if s.len() == 0 {
        Seq::empty()
    } else {
        enc_client_bodies(s.drop_last()) + enc_client_body(s.last())
    }
}

pub open spec fn enc_server_bodies(s: Seq<ServerBody>) -> Seq<u8>
    decreases s.len(),
{
    if s.len() == 0 {
        Seq::empty()
    } else {
        enc_server_bodies(s.drop_last()) + enc_server_body(s.last())
    }
}

/// The bytes of a client message.
pub open spec fn enc_client(m: ClientMessage) -> Seq<u8> {
    varint(m.current_sequence) + (varint(m.last_received_sequence) + (varint(
        m.bodies.len() as u64,
    ) + enc_client_bodies(m.bodies)))
}

/// The bytes of a server message.
pub open spec fn enc_server(m: ServerMessage) -> Seq<u8> {
    varint(m.sequence) + (varint(m.bodies.len() as u64) + enc_server_bodies(m.bodies))
}

/// Every length in a client message fits the integers of the wire.
pub open spec fn client_fits(m: ClientMessage) -> bool {
    &&& m.bodies.len() <= u64::MAX
    &&& forall|i: int|
        0 <= i < m.bodies.len() ==> match #[trigger] m.bodies[i] {
            ClientBody::Input(p) => p.len() <= u64::MAX,
            _ => true,
        }
}

/// Every length in a server message fits the integers of the wire.
pub open spec fn server_fits(m: ServerMessage) -> bool {
    &&& m.bodies.len() <= u64::MAX
    &&& forall|i: int|
        0 <= i < m.bodies.len() ==> match #[trigger] m.bodies[i] {
            ServerBody::Snapshot(p) => p.len() <= u64::MAX,
            _ => true,
        }
}

// ----- decodings -----

/// The bytes of `b` from `pos` on.
pub open spec fn rest(b: Seq<u8>, pos: nat) -> Seq<u8> {
    b.subrange(pos as int, b.len() as int)
}

/// A byte string read from the front of `b`, and the bytes it took.
pub open spec fn parse_bytes(b: Seq<u8>) -> Option<(Seq<u8>, nat)> {
    match parse_varint(b) {
        Some((n, k)) => if k + n <= b.len() {
            Some((b.subrange(k as int, k + n), (k + n) as nat))
        } else {
            None
        },
        None => None,
    }
}

pub open spec fn parse_client_body(b: Seq<u8>) -> Option<(ClientBody, nat)> {
    match parse_varint(b) {
        Some((tag, k)) => if tag == 0 {
            Some((ClientBody::Ping, k))
        } else if tag == 1 {
            match parse_bytes(rest(b, k)) {
                Some((p, j)) => Some((ClientBody::Input(p), k + j)),
                None => None,
            }
        } else {
            None
        },
        None => None,
    }
}

pub open spec fn parse_server_body(b: Seq<u8>) -> Option<(ServerBody, nat)> {
    match parse_varint(b) {
        Some((tag, k)) => if tag == 0 {
            match parse_varint(rest(b, k)) {
                Some((s, j)) => Some((ServerBody::Pong(s), k + j)),
                None => None,
            }
        } else if tag == 1 {
            match parse_bytes(rest(b, k)) {
                Some((p, j)) => Some((ServerBody::Snapshot(p), k + j)),
                None => None,
            }
        } else {
            None
        },
        None => None,
    }
}

/// Reads `count` client body elements from `pos` on, after those in `acc`;
/// gives all of them and the position after the last.
pub open spec fn parse_client_bodies(b: Seq<u8>, pos: nat, count: nat, acc: Seq<ClientBody>) -> Option<
    (Seq<ClientBody>, nat),
>
    decreases count,
{
    if count == 0 {
        Some((acc, pos))
    } else {
        match parse_client_body(rest(b, pos)) {
            Some((e, k)) => parse_client_bodies(b, pos + k, (count - 1) as nat, acc.push(e)),
            None => None,
        }
    }
}

/// Reads `count` server body elements from `pos` on, after those in `acc`;
/// gives all of them and the position after the last.
pub open spec fn parse_server_bodies(b: Seq<u8>, pos: nat, count: nat, acc: Seq<ServerBody>) -> Option<
    (Seq<ServerBody>, nat),
>
    decreases count,
{
    if count == 0 {
        Some((acc, pos))
    } else {
        match parse_server_body(rest(b, pos)) {
            Some((e, k)) => parse_server_bodies(b, pos + k, (count - 1) as nat, acc.push(e)),
            None => None,
        }
    }
}

/// The client message at the front of `b`; bytes after it are ignored.
pub open spec fn parse_client(b: Seq<u8>) -> Option<ClientMessage> {
    match parse_varint(b) {
        Some((cur, k1)) => match parse_varint(rest(b, k1)) {
            Some((last, k2)) => match parse_varint(rest(b, k1 + k2)) {
                Some((n, k3)) => match parse_client_bodies(b, k1 + k2 + k3, n as nat, seq![]) {
                    Some((bodies, _)) => Some(
                        ClientMessage {
                            current_sequence: cur,
                            last_received_sequence: last,
                            bodies,
                        },
                    ),
                    None => None,
                },
                None => None,
            },
            None => None,
        },
        None => None,
    }
}

/// The server message at the front of `b`; bytes after it are ignored.
pub open spec fn parse_server(b: Seq<u8>) -> Option<ServerMessage> {
    match parse_varint(b) {
        Some((seq_no, k1)) => match parse_varint(rest(b, k1)) {
            Some((n, k2)) => match parse_server_bodies(b, k1 + k2, n as nat, seq![]) {
                Some((bodies, _)) => Some(ServerMessage { sequence: seq_no, bodies }),
                None => None,
            },
            None => None,
        },
        None => None,
    }
}

// ----- encoding -----

/// Writes a byte string.
pub fn encode_bytes(p: &[u8]) -> (r: Vec<u8>)
    ensures
        r@ == enc_bytes(p@),
{
    let mut out = encode_varint(p.len() as u64);
    let mut c = copy_bytes(p);
    out.append(&mut c);
    out
}

fn encode_client_body(e: &ClientBodyElem) -> (r: Vec<u8>)
    ensures
        r@ == enc_client_body(e@),
{
    match e {
        ClientBodyElem::Ping => encode_varint(0),
        ClientBodyElem::Input(p) => {
            let mut out = encode_varint(1);
            let mut tail = encode_bytes(p.as_slice());
            out.append(&mut tail);
            out
        },
    }
}

fn encode_server_body(e: &ServerBodyElem) -> (r: Vec<u8>)
    ensures
        r@ == enc_server_body(e@),
{
    let mut out;
    match e {
        ServerBodyElem::Pong(s) => {
            out = encode_varint(0);
            let mut tail = encode_varint(*s);
            out.append(&mut tail);
        },
        ServerBodyElem::Snapshot(p) => {
            out = encode_varint(1);
            let mut tail = encode_bytes(p.as_slice());
            out.append(&mut tail);
        },
    }
    out
}

/// Writes a client message.
pub fn encode_client(m: &ClientToServer) -> (r: Vec<u8>)
    ensures
        r@ == enc_client(m@),
{
    let mut body: Vec<u8> = Vec::new();
    let mut i: usize = 0;
    while i < m.bodies.len()
        invariant
            i <= m.bodies@.len(),
            body@ == enc_client_bodies(client_bodies_view(m.bodies@.subrange(0, i as int))),
        decreases m.bodies@.len() - i,
    {
        let mut e = encode_client_body(&m.bodies[i]);
        body.append(&mut e);
        proof {
            let s = client_bodies_view(m.bodies@.subrange(0, i + 1));
            assert(s.drop_last() =~= client_bodies_view(m.bodies@.subrange(0, i as int)));
        }
        i = i + 1;
    }
    assert(m.bodies@.subrange(0, i as int) =~= m.bodies@);
    let mut out = encode_varint(m.header.current_sequence);
    let mut t1 = encode_varint(m.header.last_received_sequence);
    let mut t2 = encode_varint(m.bodies.len() as u64);
    t2.append(&mut body);
    t1.append(&mut t2);
    out.append(&mut t1);
    out
}

/// Writes a server message.
pub fn encode_server(m: &ServerToClient) -> (r: Vec<u8>)
    ensures
        r@ == enc_server(m@),
{
    let mut body: Vec<u8> = Vec::new();
    let mut i: usize = 0;
    while i < m.bodies.len()
        invariant
            i <= m.bodies@.len(),
            body@ == enc_server_bodies(server_bodies_view(m.bodies@.subrange(0, i as int))),
        decreases m.bodies@.len() - i,
    {
        let mut e = encode_server_body(&m.bodies[i]);
        body.append(&mut e);
        proof {
            let s = server_bodies_view(m.bodies@.subrange(0, i + 1));
            assert(s.drop_last() =~= server_bodies_view(m.bodies@.subrange(0, i as int)));
        }
        i = i + 1;
    }
    assert(m.bodies@.subrange(0, i as int) =~= m.bodies@);
    let mut out = encode_varint(m.header.sequence);
    let mut t = encode_varint(m.bodies.len() as u64);
    t.append(&mut body);
    out.append(&mut t);
    out
}

// ----- decoding -----

fn read_varint(b: &[u8]) -> (r: Result<(u64, usize), WireError>)
    ensures
        match r {
            Ok((v, k)) => parse_varint(b@) == Some((v, k as nat)) && k <= b@.len(),
            Err(_) => parse_varint(b@) is None,
        },
{
    match decode_varint(b) {
        Ok((v, k)) => Ok((v, k)),
        Err(_) => Err(WireError),
    }
}

fn decode_bytes(b: &[u8]) -> (r: Result<(Vec<u8>, usize), WireError>)
    ensures
        match r {
            Ok((p, k)) => parse_bytes(b@) == Some((p@, k as nat)) && k <= b@.len(),
            Err(_) => parse_bytes(b@) is None,
        },
{
    let (n, k) = read_varint(b)?;
    if n > (b.len() - k) as u64 {
        return Err(WireError);
    }
    let end = k + n as usize;
    let p = copy_bytes(slice_subrange(b, k, end));
    Ok((p, end))
}

fn decode_client_body(b: &[u8]) -> (r: Result<(ClientBodyElem, usize), WireError>)
    ensures
        match r {
            Ok((e, k)) => parse_client_body(b@) == Some((e@, k as nat)) && k <= b@.len(),
            Err(_) => parse_client_body(b@) is None,
        },
{
    let (tag, k) = read_varint(b)?;
    if tag == 0 {
        Ok((ClientBodyElem::Ping, k))
    } else if tag == 1 {
        let (p, j) = decode_bytes(slice_subrange(b, k, b.len()))?;
        Ok((ClientBodyElem::Input(p), k + j))
    } else {
        Err(WireError)
    }
}

fn decode_server_body(b: &[u8]) -> (r: Result<(ServerBodyElem, usize), WireError>)
    ensures
        match r {
            Ok((e, k)) => parse_server_body(b@) == Some((e@, k as nat)) && k <= b@.len(),
            Err(_) => parse_server_body(b@) is None,
        },
{
    let (tag, k) = read_varint(b)?;
    if tag == 0 {
        let (s, j) = read_varint(slice_subrange(b, k, b.len()))?;
        Ok((ServerBodyElem::Pong(s), k + j))
    } else if tag == 1 {
        let (p, j) = decode_bytes(slice_subrange(b, k, b.len()))?;
        Ok((ServerBodyElem::Snapshot(p), k + j))
    } else {
        Err(WireError)
    }
}

fn decode_client_bodies(b: &[u8], start: usize, count: u64) -> (r: Result<Vec<ClientBodyElem>, WireError>)
    requires
        start <= b@.len(),
    ensures
        match r {
            Ok(v) => match parse_client_bodies(b@, start as nat, count as nat, seq![]) {
                Some((bs, _)) => bs == client_bodies_view(v@),
                None => false,
            },
            Err(_) => parse_client_bodies(b@, start as nat, count as nat, seq![]) is None,
        },
{
    let mut v: Vec<ClientBodyElem> = Vec::new();
    let mut pos = start;
    let mut i: u64 = 0;
    assert(client_bodies_view(v@) =~= seq![]);
    while i < count
        invariant
            pos <= b@.len(),
            i <= count,
            parse_client_bodies(b@, start as nat, count as nat, seq![]) == parse_client_bodies(
                b@,
                pos as nat,
                (count - i) as nat,
                client_bodies_view(v@),
            ),
        decreases count - i,
    {
        let (e, k) = match decode_client_body(slice_subrange(b, pos, b.len())) {
            Ok(x) => x,
            Err(err) => {
                assert(parse_client_bodies(b@, pos as nat, (count - i) as nat, client_bodies_view(v@))
                    is None);
                return Err(err);
            },
        };
        proof {
            assert(client_bodies_view(v@.push(e)) =~= client_bodies_view(v@).push(e@));
        }
        v.push(e);
        pos = pos + k;
        i = i + 1;
    }
    assert(parse_client_bodies(b@, pos as nat, 0, client_bodies_view(v@)) == Some(
        (client_bodies_view(v@), pos as nat),
    ));
    Ok(v)
}

fn decode_server_bodies(b: &[u8], start: usize, count: u64) -> (r: Result<Vec<ServerBodyElem>, WireError>)
    requires
        start <= b@.len(),
    ensures
        match r {
            Ok(v) => match parse_server_bodies(b@, start as nat, count as nat, seq![]) {
                Some((bs, _)) => bs == server_bodies_view(v@),
                None => false,
            },
            Err(_) => parse_server_bodies(b@, start as nat, count as nat, seq![]) is None,
        },
{
    let mut v: Vec<ServerBodyElem> = Vec::new();
    let mut pos = start;
    let mut i: u64 = 0;
    assert(server_bodies_view(v@) =~= seq![]);
    while i < count
        invariant
            pos <= b@.len(),
            i <= count,
            parse_server_bodies(b@, start as nat, count as nat, seq![]) == parse_server_bodies(
                b@,
                pos as nat,
                (count - i) as nat,
                server_bodies_view(v@),
            ),
        decreases count - i,
    {
        let (e, k) = match decode_server_body(slice_subrange(b, pos, b.len())) {
            Ok(x) => x,
            Err(err) => {
                assert(parse_server_bodies(b@, pos as nat, (count - i) as nat, server_bodies_view(v@))
                    is None);
                return Err(err);
            },
        };
        proof {
            assert(server_bodies_view(v@.push(e)) =~= server_bodies_view(v@).push(e@));
        }
        v.push(e);
        pos = pos + k;
        i = i + 1;
    }
    assert(parse_server_bodies(b@, pos as nat, 0, server_bodies_view(v@)) == Some(
        (server_bodies_view(v@), pos as nat),
    ));
    Ok(v)
}

/// Reads the client message at the front of `b`.
pub fn decode_client(b: &[u8]) -> (r: Result<ClientToServer, WireError>)
    ensures
        match r {
            Ok(m) => parse_client(b@) == Some(m@),
            Err(_) => parse_client(b@) is None,
        },
{
    let (cur, k1) = read_varint(b)?;
    let (last, k2) = read_varint(slice_subrange(b, k1, b.len()))?;
    let (n, k3) = read_varint(slice_subrange(b, k1 + k2, b.len()))?;
    let bodies = decode_client_bodies(b, k1 + k2 + k3, n)?;
    Ok(
        ClientToServer {
            header: ClientHeader { current_sequence: cur, last_received_sequence: last },
            bodies,
        },
    )
}

/// Reads the server message at the front of `b`.
pub fn decode_server(b: &[u8]) -> (r: Result<ServerToClient, WireError>)
    ensures
        match r {
            Ok(m) => parse_server(b@) == Some(m@),
            Err(_) => parse_server(b@) is None,
        },
{
    let (seq_no, k1) = read_varint(b)?;
    let (n, k2) = read_varint(slice_subrange(b, k1, b.len()))?;
    let bodies = decode_server_bodies(b, k1 + k2, n)?;
    Ok(ServerToClient { header: ServerHeader { sequence: seq_no }, bodies })
}


// ----- round trip -----

proof fn lemma_starts_with_split(b: Seq<u8>, x: Seq<u8>, y: Seq<u8>)
    requires
        starts_with(b, x + y),
    ensures
        starts_with(b, x),
        starts_with(rest(b, x.len()), y),
{
    let xy = x + y;
    assert(b.subrange(0, x.len() as int) =~= xy.subrange(0, x.len() as int));
    assert(xy.subrange(0, x.len() as int) =~= x);
    assert(rest(b, x.len()).subrange(0, y.len() as int) =~= xy.subrange(
        x.len() as int,
        xy.len() as int,
    ));
    assert(xy.subrange(x.len() as int, xy.len() as int) =~= y);
}

proof fn lemma_rest_rest(b: Seq<u8>, i: nat, j: nat)
    requires
        i + j <= b.len(),
    ensures
        rest(rest(b, i), j) == rest(b, i + j),
{
    assert(rest(rest(b, i), j) =~= rest(b, i + j));
}

proof fn lemma_bytes_round_trip(p: Seq<u8>, b: Seq<u8>)
    requires
        p.len() <= u64::MAX,
        starts_with(b, enc_bytes(p)),
    ensures
        parse_bytes(b) == Some((p, enc_bytes(p).len())),
{
    lemma_starts_with_split(b, varint(p.len() as u64), p);
    lemma_varint_round_trip(p.len() as u64, b);
    let k = varint(p.len() as u64).len();
    assert(b.subrange(k as int, (k + p.len()) as int) =~= rest(b, k).subrange(0, p.len() as int));
}

proof fn lemma_client_body_round_trip(e: ClientBody, b: Seq<u8>)
    requires
        starts_with(b, enc_client_body(e)),
        e matches ClientBody::Input(p) ==> p.len() <= u64::MAX,
    ensures
        parse_client_body(b) == Some((e, enc_client_body(e).len())),
{
    match e {
        ClientBody::Ping => {
            lemma_varint_round_trip(0, b);
        },
        ClientBody::Input(p) => {
            lemma_starts_with_split(b, varint(1), enc_bytes(p));
            lemma_varint_round_trip(1, b);
            lemma_bytes_round_trip(p, rest(b, varint(1).len()));
        },
    }
}

proof fn lemma_server_body_round_trip(e: ServerBody, b: Seq<u8>)
    requires
        starts_with(b, enc_server_body(e)),
        e matches ServerBody::Snapshot(p) ==> p.len() <= u64::MAX,
    ensures
        parse_server_body(b) == Some((e, enc_server_body(e).len())),
{
    match e {
        ServerBody::Pong(s) => {
            lemma_starts_with_split(b, varint(0), varint(s));
            lemma_varint_round_trip(0, b);
            lemma_varint_round_trip(s, rest(b, varint(0).len()));
        },
        ServerBody::Snapshot(p) => {
            lemma_starts_with_split(b, varint(1), enc_bytes(p));
            lemma_varint_round_trip(1, b);
            lemma_bytes_round_trip(p, rest(b, varint(1).len()));
        },
    }
}

proof fn lemma_client_bodies_front(s: Seq<ClientBody>)
    requires
        s.len() > 0,
    ensures
        enc_client_bodies(s) == enc_client_body(s[0]) + enc_client_bodies(s.drop_first()),
    decreases s.len(),
{
    if s.len() == 1 {
        assert(s.drop_last() =~= Seq::<ClientBody>::empty());
        assert(s.drop_first() =~= Seq::<ClientBody>::empty());
        assert(enc_client_bodies(s) =~= enc_client_body(s[0]) + enc_client_bodies(s.drop_first()));
    } else {
        lemma_client_bodies_front(s.drop_last());
        assert(s.drop_last().drop_first() =~= s.drop_first().drop_last());
        assert(s.drop_first().last() == s.last());
        assert(s.drop_last()[0] == s[0]);
        assert(enc_client_bodies(s) =~= enc_client_body(s[0]) + enc_client_bodies(s.drop_first()));
    }
}

proof fn lemma_server_bodies_front(s: Seq<ServerBody>)
    requires
        s.len() > 0,
    ensures
        enc_server_bodies(s) == enc_server_body(s[0]) + enc_server_bodies(s.drop_first()),
    decreases s.len(),
{
    if s.len() == 1 {
        assert(s.drop_last() =~= Seq::<ServerBody>::empty());
        assert(s.drop_first() =~= Seq::<ServerBody>::empty());
        assert(enc_server_bodies(s) =~= enc_server_body(s[0]) + enc_server_bodies(s.drop_first()));
    } else {
        lemma_server_bodies_front(s.drop_last());
        assert(s.drop_last().drop_first() =~= s.drop_first().drop_last());
        assert(s.drop_first().last() == s.last());
        assert(s.drop_last()[0] == s[0]);
        assert(enc_server_bodies(s) =~= enc_server_body(s[0]) + enc_server_bodies(s.drop_first()));
    }
}

proof fn lemma_client_bodies_round_trip(b: Seq<u8>, pos: nat, s: Seq<ClientBody>, acc: Seq<ClientBody>)
    requires
        pos <= b.len(),
        starts_with(rest(b, pos), enc_client_bodies(s)),
        forall|i: int|
            0 <= i < s.len() ==> match #[trigger] s[i] {
                ClientBody::Input(p) => p.len() <= u64::MAX,
                _ => true,
            },
    ensures
        parse_client_bodies(b, pos, s.len(), acc) == Some((acc + s, pos + enc_client_bodies(s).len())),
    decreases s.len(),
{
    if s.len() == 0 {
        assert(acc + s =~= acc);
    } else {
        lemma_client_bodies_front(s);
        let e = s[0];
        let k = enc_client_body(e).len();
        lemma_starts_with_split(rest(b, pos), enc_client_body(e), enc_client_bodies(s.drop_first()));
        lemma_client_body_round_trip(e, rest(b, pos));
        lemma_rest_rest(b, pos, k);
        assert forall|i: int| 0 <= i < s.drop_first().len() implies match #[trigger] s.drop_first()[i] {
            ClientBody::Input(p) => p.len() <= u64::MAX,
            _ => true,
        } by {
            assert(s.drop_first()[i] == s[i + 1]);
        }
        lemma_client_bodies_round_trip(b, pos + k, s.drop_first(), acc.push(e));
        assert(acc.push(e) + s.drop_first() =~= acc + s);
    }
}

proof fn lemma_server_bodies_round_trip(b: Seq<u8>, pos: nat, s: Seq<ServerBody>, acc: Seq<ServerBody>)
    requires
        pos <= b.len(),
        starts_with(rest(b, pos), enc_server_bodies(s)),
        forall|i: int|
            0 <= i < s.len() ==> match #[trigger] s[i] {
                ServerBody::Snapshot(p) => p.len() <= u64::MAX,
                _ => true,
            },
    ensures
        parse_server_bodies(b, pos, s.len(), acc) == Some((acc + s, pos + enc_server_bodies(s).len())),
    decreases s.len(),
{
    if s.len() == 0 {
        assert(acc + s =~= acc);
    } else {
        lemma_server_bodies_front(s);
        let e = s[0];
        let k = enc_server_body(e).len();
        lemma_starts_with_split(rest(b, pos), enc_server_body(e), enc_server_bodies(s.drop_first()));
        lemma_server_body_round_trip(e, rest(b, pos));
        lemma_rest_rest(b, pos, k);
        assert forall|i: int| 0 <= i < s.drop_first().len() implies match #[trigger] s.drop_first()[i] {
            ServerBody::Snapshot(p) => p.len() <= u64::MAX,
            _ => true,
        } by {
            assert(s.drop_first()[i] == s[i + 1]);
        }
        lemma_server_bodies_round_trip(b, pos + k, s.drop_first(), acc.push(e));
        assert(acc.push(e) + s.drop_first() =~= acc + s);
    }
}

/// Decoding the encoding of a client message gives the message back, also
/// when more bytes follow it in the datagram.
pub proof fn lemma_client_round_trip(m: ClientMessage, tail: Seq<u8>)
    requires
        client_fits(m),
    ensures
        parse_client(enc_client(m) + tail) == Some(m),
{
    let b = enc_client(m) + tail;
    let r1 = varint(m.last_received_sequence) + (varint(m.bodies.len() as u64) + enc_client_bodies(m.bodies));
    let r2 = varint(m.bodies.len() as u64) + enc_client_bodies(m.bodies);
    assert(b.subrange(0, enc_client(m).len() as int) =~= enc_client(m));
    lemma_starts_with_split(b, varint(m.current_sequence), r1);
    lemma_varint_round_trip(m.current_sequence, b);
    let k1 = varint(m.current_sequence).len();
    lemma_starts_with_split(rest(b, k1), varint(m.last_received_sequence), r2);
    lemma_varint_round_trip(m.last_received_sequence, rest(b, k1));
    let k2 = varint(m.last_received_sequence).len();
    lemma_rest_rest(b, k1, k2);
    lemma_starts_with_split(rest(b, k1 + k2), varint(m.bodies.len() as u64), enc_client_bodies(m.bodies));
    lemma_varint_round_trip(m.bodies.len() as u64, rest(b, k1 + k2));
    let k3 = varint(m.bodies.len() as u64).len();
    lemma_rest_rest(b, k1 + k2, k3);
    lemma_client_bodies_round_trip(b, k1 + k2 + k3, m.bodies, seq![]);
    assert(seq![] + m.bodies =~= m.bodies);
}

/// Decoding the encoding of a server message gives the message back, also
/// when more bytes follow it in the datagram.
pub proof fn lemma_server_round_trip(m: ServerMessage, tail: Seq<u8>)
    requires
        server_fits(m),
    ensures
        parse_server(enc_server(m) + tail) == Some(m),
{
    let b = enc_server(m) + tail;
    let r1 = varint(m.bodies.len() as u64) + enc_server_bodies(m.bodies);
    assert(b.subrange(0, enc_server(m).len() as int) =~= enc_server(m));
    lemma_starts_with_split(b, varint(m.sequence), r1);
    lemma_varint_round_trip(m.sequence, b);
    let k1 = varint(m.sequence).len();
    lemma_starts_with_split(rest(b, k1), varint(m.bodies.len() as u64), enc_server_bodies(m.bodies));
    lemma_varint_round_trip(m.bodies.len() as u64, rest(b, k1));
    let k2 = varint(m.bodies.len() as u64).len();
    lemma_rest_rest(b, k1, k2);
    lemma_server_bodies_round_trip(b, k1 + k2, m.bodies, seq![]);
    assert(seq![] + m.bodies =~= m.bodies);
}

} // verus!
