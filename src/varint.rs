//! Variable-length integers as bincode's standard configuration writes them.
use vstd::prelude::*;

verus! {

/// The `n` low-order bytes of `x`, least significant first.
pub open spec fn le_bytes(x: nat, n: nat) -> Seq<u8>
    decreases n,
{
    if n == 0 {
        Seq::empty()
    } else {
        seq![(x % 256) as u8] + le_bytes(x / 256, (n - 1) as nat)
    }
}

/// The number that the bytes `s` spell out, least significant first.
pub open spec fn le_value(s: Seq<u8>) -> nat
    decreases s.len(),
{
    if s.len() == 0 {
        0
    } else {
        s[0] as nat + 256 * le_value(s.drop_first())
    }
}

/// 256 to the power `n`.
pub open spec fn pow256(n: nat) -> nat
    decreases n,
{
    if n == 0 {
        1
    } else {
        256 * pow256((n - 1) as nat)
    }
}

/// The bytes that encode `x`: one byte up to 250, else a marker byte
/// (251, 252 or 253) followed by 2, 4 or 8 little-endian bytes.
pub open spec fn varint(x: u64) -> Seq<u8> {
    if x <= 250 {
        seq![x as u8]
    } else if x <= 0xffff {
        seq![251u8] + le_bytes(x as nat, 2)
    } else if x <= 0xffff_ffff {
        seq![252u8] + le_bytes(x as nat, 4)
    } else {
        seq![253u8] + le_bytes(x as nat, 8)
    }
}

/// What reading one integer from the front of `b` gives: the value and the
/// number of bytes taken, or `None` where `b` is short or starts with a
/// marker byte that a 64-bit integer does not use.
pub open spec fn parse_varint(b: Seq<u8>) -> Option<(u64, nat)> {
    if b.len() == 0 {
        None
    } else if b[0] <= 250 {
        Some((b[0] as u64, 1))
    } else if b[0] == 251 {
        if b.len() >= 3 {
            Some((le_value(b.subrange(1, 3)) as u64, 3))
        } else {
            None
        }
    } else if b[0] == 252 {
        if b.len() >= 5 {
            Some((le_value(b.subrange(1, 5)) as u64, 5))
        } else {
            None
        }
    } else if b[0] == 253 {
        if b.len() >= 9 {
            Some((le_value(b.subrange(1, 9)) as u64, 9))
        } else {
            None
        }
    } else {
        None
    }
}

/// `p` stands at the front of `b`.
pub open spec fn starts_with(b: Seq<u8>, p: Seq<u8>) -> bool {
    p.len() <= b.len() && b.subrange(0, p.len() as int) == p
}

#[verifier::external_type_specification]
#[verifier::external_body]
pub struct ExDecodeError(bincode::error::DecodeError);

/// Relies on bincode::encode_to_vec with the standard configuration: a `u64`
/// is written by its variable-length integer rule, and writing into a `Vec`
/// does not fail.
#[verifier::external_body]
pub(crate) fn encode_varint(x: u64) -> (r: Vec<u8>)
    ensures
        r@ == varint(x),
{
    match bincode::encode_to_vec(x, bincode::config::standard()) {
        Ok(v) => v,
        Err(_) => Vec::new(),
    }
}

/// Relies on bincode::decode_from_slice with the standard configuration,
/// read as a `u64`: the value and the number of bytes it took, or an error
/// where the slice is short or its first byte is 254 or 255.
#[verifier::external_body]
pub(crate) fn decode_varint(b: &[u8]) -> (r: Result<(u64, usize), bincode::error::DecodeError>)
    ensures
        match r {
            Ok((v, n)) => parse_varint(b@) == Some((v, n as nat)),
            Err(_) => parse_varint(b@) is None,
        },
{
    bincode::decode_from_slice::<u64, _>(b, bincode::config::standard())
}

proof fn lemma_le_round_trip(x: nat, n: nat)
    requires
        x < pow256(n),
    ensures
        le_bytes(x, n).len() == n,
        le_value(le_bytes(x, n)) == x,
    decreases n,
{
    if n > 0 {
        let m = (n - 1) as nat;
        assert(x / 256 < pow256(m)) by (nonlinear_arith)
            requires
                x < 256 * pow256(m),
        ;
        lemma_le_round_trip(x / 256, m);
        let s = le_bytes(x, n);
        assert(s.drop_first() =~= le_bytes(x / 256, m));
        assert(x == x % 256 + 256 * (x / 256)) by (nonlinear_arith);
    }
}

/// Reading an integer from the front of bytes that start with its encoding
/// gives it back, with the encoding's length.
pub proof fn lemma_varint_round_trip(x: u64, b: Seq<u8>)
    requires
        starts_with(b, varint(x)),
    ensures
        parse_varint(b) == Some((x, varint(x).len())),
        1 <= varint(x).len() <= 9,
{
    reveal_with_fuel(pow256, 9);
    let v = varint(x);
    if x <= 250 {
        assert(b[0] == v[0]);
    } else {
        let n: nat = if x <= 0xffff { 2 } else if x <= 0xffff_ffff { 4 } else { 8 };
        lemma_le_round_trip(x as nat, n);
        assert(b[0] == v[0]);
        assert(b.subrange(1, 1 + n as int) =~= v.subrange(1, 1 + n as int));
        assert(v.subrange(1, 1 + n as int) =~= le_bytes(x as nat, n));
    }
}

} // verus!
