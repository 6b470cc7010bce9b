//! QUIC variable-length integers (RFC 9000, section 16).
//!
//! The two most significant bits of the first byte give the length of the
//! encoding (1, 2, 4 or 8 bytes); the remaining bits, followed by the other
//! bytes, hold the value in network byte order.
use vstd::prelude::*;

verus! {

/// The number of bytes of a variable-length integer whose first byte is `first`.
pub open spec fn varint_len(first: u8) -> nat {
    if first < 0x40 {
        1
    } else if first < 0x80 {
        2
    } else if first < 0xc0 {
        4
    } else {
        8
    }
}

/// The unsigned number that the bytes of `s` spell in network byte order.
pub open spec fn be_value(s: Seq<u8>) -> nat
    decreases s.len(),
{
    if s.len() == 0 {
        0
    } else {
        (be_value(s.drop_last()) * 256 + s.last()) as nat
    }
}

/// The bytes of the variable-length integer at the start of `s`, with the two
/// length bits of the first byte cleared.
pub open spec fn varint_payload(s: Seq<u8>) -> Seq<u8>
    recommends
        s.len() > 0,
        s.len() >= varint_len(s[0]),
{
    s.subrange(0, varint_len(s[0]) as int).update(0, s[0] & 0x3f)
}

/// True when `s` starts with a whole variable-length integer.
pub open spec fn varint_complete(s: Seq<u8>) -> bool {
    s.len() > 0 && s.len() >= varint_len(s[0])
}

/// The value of the variable-length integer at the start of `s`.
pub open spec fn varint_value(s: Seq<u8>) -> nat
    recommends
        varint_complete(s),
{
    be_value(varint_payload(s))
}

/// What decoding the start of `s` gives: the value and the number of bytes it
/// takes, or nothing when `s` does not start with a whole integer.
pub open spec fn varint_decoded(s: Seq<u8>) -> Option<(u64, nat)> {
    if varint_complete(s) {
        Some((varint_value(s) as u64, varint_len(s[0])))
    } else {
        None
    }
}

/// The length of the shortest form that holds `v`: one byte up to 2^6 - 1,
/// two up to 2^14 - 1, four up to 2^30 - 1, and eight beyond.
pub open spec fn varint_form_len(v: u64) -> nat {
    if v < 0x40 {
        1
    } else if v < 0x4000 {
        2
    } else if v < 0x4000_0000 {
        4
    } else {
        8
    }
}

/// The two length bits of a form of `n` bytes, in place in its first byte.
pub open spec fn length_bits(n: nat) -> u8 {
    if n == 1 {
        0x00
    } else if n == 2 {
        0x40
    } else if n == 4 {
        0x80
    } else {
        0xc0
    }
}

/// Byte `i` of the `n` low bytes of `v` in network byte order (byte 0 is the
/// most significant).
pub open spec fn be_byte(v: u64, n: nat, i: int) -> u8 {
    (v >> ((8 * (n - 1 - i)) as u64)) as u8
}

/// The bytes that `encode_varint` appends for `v`: the low bytes of `v` in
/// network byte order, as many as the shortest form that holds `v` has, with
/// the length bits set in the first byte. Above 2^62 - 1 the length bits
/// cover the top bits of `v`, so the value is not kept.
pub open spec fn varint_encoding(v: u64) -> Seq<u8> {
    let n = varint_form_len(v);
    Seq::new(
        n,
        |i: int|
            if i == 0 {
                be_byte(v, n, 0) | length_bits(n)
            } else {
                be_byte(v, n, i)
            },
    )
}

/// The four forms written out byte by byte.
spec fn varint_bytes_by_form(v: u64) -> Seq<u8> {
    if v <= 0x3f {
        seq![v as u8]
    } else if v <= 0x3fff {
        seq![((v >> 8u64) as u8) | 0x40u8, v as u8]
    } else if v <= 0x3fff_ffff {
        seq![
            ((v >> 24u64) as u8) | 0x80u8,
            (v >> 16u64) as u8,
            (v >> 8u64) as u8,
            v as u8,
        ]
    } else {
        seq![
            ((v >> 56u64) as u8) | 0xc0u8,
            (v >> 48u64) as u8,
            (v >> 40u64) as u8,
            (v >> 32u64) as u8,
            (v >> 24u64) as u8,
            (v >> 16u64) as u8,
            (v >> 8u64) as u8,
            v as u8,
        ]
    }
}

proof fn lemma_encoding_by_form(v: u64)
    ensures
        varint_encoding(v) == varint_bytes_by_form(v),
{
    let e = varint_encoding(v);
    let f = varint_bytes_by_form(v);
    assert(v >> 0u64 == v) by (bit_vector);
    if v <= 0x3f {
        assert(e[0] == (v as u8) | 0u8);
        assert((v as u8) | 0u8 == v as u8) by (bit_vector);
    } else if v <= 0x3fff {
        assert(e[0] == f[0]);
        assert(e[1] == f[1]);
    } else if v <= 0x3fff_ffff {
        assert(e[0] == f[0]);
        assert(e[1] == f[1]);
        assert(e[2] == f[2]);
        assert(e[3] == f[3]);
    } else {
        assert(e[0] == f[0]);
        assert(e[1] == f[1]);
        assert(e[2] == f[2]);
        assert(e[3] == f[3]);
        assert(e[4] == f[4]);
        assert(e[5] == f[5]);
        assert(e[6] == f[6]);
        assert(e[7] == f[7]);
    }
    assert(e =~= f);
}

/// The largest value that a variable-length integer can carry, 2^62 - 1.
pub open spec fn varint_max() -> u64 {
    0x3fff_ffff_ffff_ffff
}

/// 256 to the power `n`.
pub open spec fn pow256(n: nat) -> nat
    decreases n,
{
    if n == 0 {
        1
    } else {
        256 * pow256((n - 1) as nat)
    }
}

proof fn lemma_be_value_step(s: Seq<u8>, i: int)
    requires
        0 <= i < s.len(),
    ensures
        be_value(s.take(i + 1)) == be_value(s.take(i)) * 256 + s[i],
{
    assert(s.take(i + 1).drop_last() =~= s.take(i));
}

proof fn lemma_length_bits(first: u8)
    ensures
        (first >> 6u8) < 4,
        (first >> 6u8) == 0 <==> first < 0x40,
        (first >> 6u8) == 1 <==> 0x40 <= first < 0x80,
        (first >> 6u8) == 2 <==> 0x80 <= first < 0xc0,
        (first >> 6u8) == 3 <==> 0xc0 <= first,
        (first & 0x3fu8) < 0x40,
{
    assert((first >> 6u8) < 4) by (bit_vector);
    assert((first >> 6u8) == 0 <==> first < 0x40) by (bit_vector);
    assert((first >> 6u8) == 1 <==> 0x40 <= first < 0x80) by (bit_vector);
    assert((first >> 6u8) == 2 <==> 0x80 <= first < 0xc0) by (bit_vector);
    assert((first >> 6u8) == 3 <==> 0xc0 <= first) by (bit_vector);
    assert((first & 0x3fu8) < 0x40) by (bit_vector);
}

proof fn lemma_shift_in_byte(val: u64, b: u8)
    requires
        val < 0x0100_0000_0000_0000,
    ensures
        (val << 8u64) | (b as u64) == val * 256 + b,
{
    assert(val < 0x0100_0000_0000_0000 ==> (val << 8u64) | (b as u64) == val * 256 + b)
        by (bit_vector);
}

/// The number of bytes of a variable-length integer whose first byte is `first`:
/// two to the power of its two most significant bits.
pub fn encoded_len(first: u8) -> (len: usize)
    ensures
        len as nat == varint_len(first),
{
    let prefix = (first >> 6) as usize;
    proof {
        lemma_length_bits(first);
    }
    let len: usize = 1 << prefix;
    assert(len == varint_len(first)) by {
        assert(1usize << 0usize == 1) by (bit_vector);
        assert(1usize << 1usize == 2) by (bit_vector);
        assert(1usize << 2usize == 4) by (bit_vector);
        assert(1usize << 3usize == 8) by (bit_vector);
    }
    len
}

/// Decodes the variable-length integer at the start of `buf`.
///
/// Returns the value and the number of bytes it takes, or `None` when `buf`
/// is empty or shorter than the length that its first byte announces.
pub fn decode_varint(buf: &[u8]) -> (res: Option<(u64, usize)>)
    ensures
        res matches Some((v, n)) ==> varint_decoded(buf@) == Some((v, n as nat)),
        res is None ==> varint_decoded(buf@) is None,
{
    if buf.is_empty() {
        return None;
    }
    let first = buf[0];
    let len = encoded_len(first);
    if buf.len() < len {
        return None;
    }
    let ghost payload = varint_payload(buf@);
    let mut val: u64 = (first & 0x3f) as u64;
    assert(payload.take(1).drop_last() =~= Seq::<u8>::empty());
    assert(be_value(payload.take(1)) == (first & 0x3f)) by {
        reveal_with_fuel(be_value, 2);
    }
    assert(pow256(1) == 256) by {
        reveal_with_fuel(pow256, 2);
    }
    for i in 1..len
        invariant
            1 <= len <= 8,
            len == varint_len(first),
            len <= buf@.len(),
            first == buf@[0],
            payload == varint_payload(buf@),
            val == be_value(payload.take(i as int)),
            val < pow256(i as nat),
    {
        assert(pow256(7) == 0x0100_0000_0000_0000) by {
            reveal_with_fuel(pow256, 8);
        }
        assert(pow256(i as nat) <= pow256(7)) by {
            lemma_pow256_monotone(i as nat, 7);
        }
        let b = buf[i];
        proof {
            lemma_shift_in_byte(val, b);
            lemma_be_value_step(payload, i as int);
        }
        val = (val << 8) | (b as u64);
    }
    assert(payload.take(len as int) =~= payload);
    Some((val, len))
}

proof fn lemma_pow256_monotone(a: nat, b: nat)
    requires
        a <= b,
    ensures
        pow256(a) <= pow256(b),
    decreases b,
{
    if a < b {
        lemma_pow256_monotone(a, (b - 1) as nat);
    }
}

/// Appends the encoding of `val` to `buf`.
///
/// Values above 2^62 - 1 do not fit a variable-length integer; for them the
/// eight-byte form is written with the top byte's length bits forced on.
pub fn encode_varint(buf: &mut Vec<u8>, val: u64)
    ensures
        final(buf)@ == old(buf)@ + varint_encoding(val),
{
    if val <= 0x3f {
        buf.push(val as u8);
    } else if val <= 0x3fff {
        buf.push(((val >> 8) as u8) | 0x40);
        buf.push(val as u8);
    } else if val <= 0x3fffffff {
        buf.push(((val >> 24) as u8) | 0x80);
        buf.push((val >> 16) as u8);
        buf.push((val >> 8) as u8);
        buf.push(val as u8);
    } else {
        buf.push(((val >> 56) as u8) | 0xc0);
        buf.push((val >> 48) as u8);
        buf.push((val >> 40) as u8);
        buf.push((val >> 32) as u8);
        buf.push((val >> 24) as u8);
        buf.push((val >> 16) as u8);
        buf.push((val >> 8) as u8);
        buf.push(val as u8);
    }
    proof {
        lemma_encoding_by_form(val);
    }
    assert(buf@ =~= old(buf)@ + varint_encoding(val));
}

proof fn lemma_be_value_below(p: Seq<u8>)
    requires
        p.len() >= 1,
        p[0] < 0x40,
    ensures
        be_value(p) < 0x40 * pow256((p.len() - 1) as nat),
    decreases p.len(),
{
    if p.len() == 1 {
        assert(p.drop_last() =~= Seq::<u8>::empty());
        assert(be_value(p) == p[0]) by {
            reveal_with_fuel(be_value, 2);
        }
        assert(pow256(0) == 1);
    } else {
        let q = p.drop_last();
        assert(q[0] == p[0]);
        lemma_be_value_below(q);
        assert(pow256((p.len() - 1) as nat) == 256 * pow256((p.len() - 2) as nat));
    }
}

/// A variable-length integer never exceeds 2^62 - 1.
pub proof fn lemma_varint_value_bound(s: Seq<u8>)
    requires
        varint_complete(s),
    ensures
        varint_value(s) <= varint_max(),
{
    let p = varint_payload(s);
    lemma_length_bits(s[0]);
    lemma_be_value_below(p);
    lemma_pow256_monotone((p.len() - 1) as nat, 7);
    assert(pow256(7) == 0x0100_0000_0000_0000) by {
        reveal_with_fuel(pow256, 8);
    }
}

proof fn lemma_be_value_prefixes(p: Seq<u8>)
    ensures
        p.len() >= 1 ==> be_value(p.take(1)) == p[0],
        p.len() >= 2 ==> be_value(p.take(2)) == p[0] * 256 + p[1],
        p.len() >= 4 ==> be_value(p.take(4)) == ((p[0] * 256 + p[1]) * 256 + p[2]) * 256 + p[3],
        p.len() >= 8 ==> be_value(p.take(8)) == ((((((p[0] * 256 + p[1]) * 256 + p[2]) * 256
            + p[3]) * 256 + p[4]) * 256 + p[5]) * 256 + p[6]) * 256 + p[7],
{
    assert(p.take(0) =~= Seq::<u8>::empty());
    if p.len() >= 8 {
        lemma_be_value_step(p, 0);
        lemma_be_value_step(p, 1);
        lemma_be_value_step(p, 2);
        lemma_be_value_step(p, 3);
        lemma_be_value_step(p, 4);
        lemma_be_value_step(p, 5);
        lemma_be_value_step(p, 6);
        lemma_be_value_step(p, 7);
    } else if p.len() >= 4 {
        lemma_be_value_step(p, 0);
        lemma_be_value_step(p, 1);
        lemma_be_value_step(p, 2);
        lemma_be_value_step(p, 3);
    } else if p.len() >= 2 {
        lemma_be_value_step(p, 0);
        lemma_be_value_step(p, 1);
    } else if p.len() >= 1 {
        lemma_be_value_step(p, 0);
    }
}

proof fn lemma_varint_encoding_shape(v: u64)
    requires
        v <= varint_max(),
    ensures
        varint_encoding(v).len() == varint_len(varint_encoding(v)[0]),
        be_value(varint_encoding(v).update(0, varint_encoding(v)[0] & 0x3f)) == v,
{
    lemma_encoding_by_form(v);
    let e = varint_encoding(v);
    let p = e.update(0, e[0] & 0x3f);
    lemma_be_value_prefixes(p);
    assert(p.take(p.len() as int) =~= p);
    if v <= 0x3f {
        assert(v <= 0x3f ==> (v as u8) < 0x40u8 && ((v as u8) & 0x3fu8) as int == v) by (bit_vector);
    } else if v <= 0x3fff {
        let b0 = ((v >> 8u64) as u8) | 0x40u8;
        let b1 = v as u8;
        assert(0x3f < v <= 0x3fff ==> 0x40u8 <= (((v >> 8u64) as u8) | 0x40u8) < 0x80u8)
            by (bit_vector);
        assert(0x3f < v <= 0x3fff ==> ((((v >> 8u64) as u8) | 0x40u8) & 0x3fu8) as int * 256
            + (v as u8) as int == v) by (bit_vector);
    } else if v <= 0x3fff_ffff {
        assert(0x3fff < v <= 0x3fff_ffff ==> 0x80u8 <= (((v >> 24u64) as u8) | 0x80u8) < 0xc0u8)
            by (bit_vector);
        assert(0x3fff < v <= 0x3fff_ffff ==> (((((((v >> 24u64) as u8) | 0x80u8) & 0x3fu8) as int
            * 256 + ((v >> 16u64) as u8) as int) * 256 + ((v >> 8u64) as u8) as int) * 256 + (
        v as u8) as int) == v) by (bit_vector);
    } else {
        assert(0x3fff_ffff < v <= 0x3fff_ffff_ffff_ffff ==> 0xc0u8 <= (((v >> 56u64) as u8)
            | 0xc0u8)) by (bit_vector);
        assert(0x3fff_ffff < v <= 0x3fff_ffff_ffff_ffff ==> (((((((((((v >> 56u64) as u8)
            | 0xc0u8) & 0x3fu8) as int * 256 + ((v >> 48u64) as u8) as int) * 256 + ((v
            >> 40u64) as u8) as int) * 256 + ((v >> 32u64) as u8) as int) * 256 + ((v >> 24u64)
            as u8) as int) * 256 + ((v >> 16u64) as u8) as int) * 256 + ((v >> 8u64) as u8) as int)
            * 256 + (v as u8) as int) == v) by (bit_vector);
    }
}

/// Decoding gives back what encoding wrote, whatever follows it: for every
/// value up to 2^62 - 1, the encoding decodes to that value and the encoding's
/// own length.
pub proof fn lemma_varint_roundtrip(v: u64, rest: Seq<u8>)
    requires
        v <= varint_max(),
    ensures
        varint_decoded(varint_encoding(v) + rest) == Some((v, varint_encoding(v).len())),
{
    let e = varint_encoding(v);
    let s = e + rest;
    lemma_varint_encoding_shape(v);
    assert(s[0] == e[0]);
    assert(s.subrange(0, e.len() as int) =~= e);
    assert(varint_payload(s) =~= e.update(0, e[0] & 0x3f));
}

} // verus!
