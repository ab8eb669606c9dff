//! The binary layout of a segment: the number of records as a little-endian
//! `u64`, then for each record in order the byte length of its key as a
//! little-endian `u64`, the key's UTF-8 bytes, and the value as a
//! little-endian `u32`.
use vstd::prelude::*;
use vstd::utf8::{decode_utf8, encode_utf8, valid_utf8};

use crate::db::sorted_keys;

verus! {

/// The `width` low bytes of `n`, least significant first.
pub open spec fn le_bytes(n: nat, width: nat) -> Seq<u8>
    decreases width,
{
    if width == 0 {
        Seq::empty()
    } else {
        seq![(n % 256) as u8] + le_bytes(n / 256, (width - 1) as nat)
    }
}

/// The encoding of one record.
pub open spec fn encode_record(key: Seq<char>, value: u32) -> Seq<u8> {
    le_bytes(encode_utf8(key).len(), 8) + encode_utf8(key) + le_bytes(value as nat, 4)
}

/// The encodings of a sequence of records, one after the other.
pub open spec fn encode_records(s: Seq<(Seq<char>, u32)>) -> Seq<u8>
    decreases s.len(),
{
    if s.len() == 0 {
        Seq::empty()
    } else {
        encode_record(s[0].0, s[0].1) + encode_records(s.drop_first())
    }
}

/// The encoding of a segment holding the records `s`, in that order.
pub open spec fn encode_segment(s: Seq<(Seq<char>, u32)>) -> Seq<u8> {
    le_bytes(s.len(), 8) + encode_records(s)
}

/// The records that a sequence of (key, value) pairs describes.
pub open spec fn string_pairs(s: Seq<(String, u32)>) -> Seq<(Seq<char>, u32)> {
    s.map_values(|p: (String, u32)| (p.0@, p.1))
}

#[verifier::external_type_specification]
#[verifier::external_body]
pub struct ExBincodeErrorKind(bincode::ErrorKind);

/// Relies on `bincode::serialize` (bincode 1.3, default options: fixed-width
/// little-endian integers, a `u64` length before every sequence and string,
/// tuples as their fields in order): a list of (key, value) pairs becomes the
/// segment layout above. It succeeds on such a list: the default size limit
/// is unbounded, a `Vec<u8>` writer takes every byte, and a `Vec` always
/// reports its length, so none of bincode's errors can arise.
#[verifier::external_body]
pub(crate) fn serialize_pairs(pairs: &Vec<(String, u32)>) -> (r: Result<Vec<u8>, Box<bincode::ErrorKind>>)
    ensures
        r is Ok,
        r matches Ok(b) ==> b@ == encode_segment(string_pairs(pairs@)),
{
    bincode::serialize(pairs)
}

/// `256` to the power `n`.
pub open spec fn pow256(n: nat) -> nat
    decreases n,
{
    if n == 0 {
        1
    } else {
        256 * pow256((n - 1) as nat)
    }
}

/// The number whose little-endian bytes are `b`.
pub open spec fn le_value(b: Seq<u8>) -> nat
    decreases b.len(),
{
    if b.len() == 0 {
        0
    } else {
        b[0] as nat + 256 * le_value(b.drop_first())
    }
}

/// The records that `n` consecutive record encodings make up, if `b` is
/// exactly that.
pub open spec fn decode_records(b: Seq<u8>, n: nat) -> Option<Seq<(Seq<char>, u32)>>
    decreases n,
{
    if n == 0 {
        if b.len() == 0 {
            Some(Seq::empty())
        } else {
            None
        }
    } else if b.len() < 8 {
        None
    } else {
        let kl = le_value(b.subrange(0, 8)) as int;
        if b.len() < 12 + kl {
            None
        } else {
            let kb = b.subrange(8, 8 + kl);
            if !valid_utf8(kb) {
                None
            } else {
                match decode_records(b.subrange(12 + kl, b.len() as int), (n - 1) as nat) {
                    Some(t) => Some(
                        seq![(decode_utf8(kb), le_value(b.subrange(8 + kl, 12 + kl)) as u32)] + t,
                    ),
                    None => None,
                }
            }
        }
    }
}

/// The records of a segment encoding, if `b` is one: a count, that many
/// records, no more bytes, and keys in ascending order.
pub open spec fn decode_segment(b: Seq<u8>) -> Option<Seq<(Seq<char>, u32)>> {
    if b.len() < 8 {
        None
    } else {
        match decode_records(b.subrange(8, b.len() as int), le_value(b.subrange(0, 8))) {
            Some(s) => if sorted_keys(s) {
                Some(s)
            } else {
                None
            },
            None => None,
        }
    }
}

/// `le_bytes` gives exactly `width` bytes.
pub proof fn lemma_le_bytes_len(n: nat, width: nat)
    ensures
        le_bytes(n, width).len() == width,
    decreases width,
{
    if width > 0 {
        lemma_le_bytes_len(n / 256, (width - 1) as nat);
    }
}

/// Reading back the bytes of a number that fits gives the number.
pub proof fn lemma_le_round_trip(n: nat, width: nat)
    requires
        n < pow256(width),
    ensures
        le_value(le_bytes(n, width)) == n,
    decreases width,
{
    if width > 0 {
        let w1 = (width - 1) as nat;
        assert(n / 256 < pow256(w1)) by (nonlinear_arith)
            requires
                n < 256 * pow256(w1),
        ;
        lemma_le_round_trip(n / 256, w1);
        assert(le_bytes(n, width).drop_first() =~= le_bytes(n / 256, w1));
        assert(n == n % 256 + 256 * (n / 256)) by (nonlinear_arith);
    }
}

/// A little-endian value of `b` stays below `256` to the power of its length.
pub proof fn lemma_le_value_bound(b: Seq<u8>)
    ensures
        le_value(b) < pow256(b.len()),
    decreases b.len(),
{
    if b.len() > 0 {
        lemma_le_value_bound(b.drop_first());
        let r = le_value(b.drop_first());
        let p = pow256((b.len() - 1) as nat);
        assert(b[0] as nat + 256 * r < 256 * p) by (nonlinear_arith)
            requires
                r < p,
                b[0] < 256,
        ;
    }
}

/// The powers of 256 that bound a `u64` and a `u32`.
pub proof fn lemma_pow256_8()
    ensures
        pow256(8) == 0x1_0000_0000_0000_0000,
        pow256(4) == 0x1_0000_0000,
{
    reveal_with_fuel(pow256, 9);
}

/// Every key of `s` has a byte length that a `u64` holds.
pub open spec fn keys_fit(s: Seq<(Seq<char>, u32)>) -> bool {
    forall|i: int| 0 <= i < s.len() ==> #[trigger] encode_utf8(s[i].0).len() < pow256(8)
}

/// Decoding the encodings of the records `s` gives back `s`.
pub proof fn lemma_records_round_trip(s: Seq<(Seq<char>, u32)>)
    requires
        keys_fit(s),
    ensures
        decode_records(encode_records(s), s.len()) == Some(s),
    decreases s.len(),
{
    if s.len() > 0 {
        let k = s[0].0;
        let v = s[0].1;
        let kb = encode_utf8(k);
        let l = kb.len() as int;
        let t = s.drop_first();
        assert(keys_fit(t)) by {
            assert forall|i: int| 0 <= i < t.len() implies #[trigger] encode_utf8(t[i].0).len() < pow256(8) by {
                assert(t[i] == s[i + 1]);
            }
        }
        lemma_records_round_trip(t);
        let b = encode_records(s);
        lemma_le_bytes_len(l as nat, 8);
        lemma_le_bytes_len(v as nat, 4);
        lemma_pow256_8();
        assert(encode_utf8(s[0].0).len() < pow256(8));
        assert(b.subrange(0, 8) =~= le_bytes(l as nat, 8));
        lemma_le_round_trip(l as nat, 8);
        assert(b.subrange(8, 8 + l) =~= kb);
        vstd::utf8::encode_utf8_valid_utf8(k);
        vstd::utf8::encode_utf8_decode_utf8(k);
        assert(b.subrange(8 + l, 12 + l) =~= le_bytes(v as nat, 4));
        lemma_le_round_trip(v as nat, 4);
        assert(b.subrange(12 + l, b.len() as int) =~= encode_records(t));
        assert(seq![(k, v)] + t =~= s);
    }
}

/// Decoding the encoding of a segment with records `s` gives back `s`.
pub proof fn lemma_segment_round_trip(s: Seq<(Seq<char>, u32)>)
    requires
        sorted_keys(s),
        keys_fit(s),
        s.len() < pow256(8),
    ensures
        decode_segment(encode_segment(s)) == Some(s),
{
    let b = encode_segment(s);
    lemma_le_bytes_len(s.len(), 8);
    assert(b.subrange(0, 8) =~= le_bytes(s.len(), 8));
    lemma_le_round_trip(s.len(), 8);
    assert(b.subrange(8, b.len() as int) =~= encode_records(s));
    lemma_records_round_trip(s);
}

/// Powers of 256 grow with the exponent.
proof fn lemma_pow256_monotone(a: nat, b: nat)
    requires
        a <= b,
    ensures
        pow256(a) <= pow256(b),
    decreases b,
{
    if a < b {
        lemma_pow256_monotone(a, (b - 1) as nat);
    }
}

/// Reads the little-endian number in `width` bytes of `bytes` from `pos` on.
pub fn read_le(bytes: &[u8], pos: usize, width: usize) -> (r: u64)
    requires
        width <= 8,
        pos + width <= bytes@.len(),
    ensures
        r == le_value(bytes@.subrange(pos as int, pos + width)),
{
    let len = bytes.len();
    let mut k: usize = width;
    let mut acc: u64 = 0;
    proof {
        assert(bytes@.subrange(pos + k, pos + width).len() == 0);
    }
    while k > 0
        invariant
            k <= width <= 8,
            pos + width <= bytes@.len(),
            len == bytes@.len(),
            acc == le_value(bytes@.subrange(pos + k, pos + width)),
            acc < pow256((width - k) as nat),
        decreases k,
    {
        let ghost tail = bytes@.subrange(pos + k, pos + width);
        let ghost next = bytes@.subrange(pos + k - 1, pos + width);
        proof {
            assert(next.drop_first() =~= tail);
            assert(next[0] == bytes@[pos + k - 1]);
            let e = (width - k) as nat;
            lemma_pow256_monotone(e + 1, 8);
            lemma_pow256_8();
            assert(acc * 256 + bytes@[pos + k - 1] < 256 * pow256(e)) by (nonlinear_arith)
                requires
                    acc < pow256(e),
                    bytes@[pos + k - 1] < 256,
            ;
            assert(pow256(e + 1) == 256 * pow256(e));
        }
        acc = acc * 256 + bytes[pos + k - 1] as u64;
        k = k - 1;
    }
    acc
}

/// Relies on `String::from_utf8`: it accepts exactly the valid UTF-8 byte
/// sequences, and the string then holds the characters they encode.
#[verifier::external_body]
pub(crate) fn utf8_to_string(bytes: Vec<u8>) -> (r: Option<String>)
    ensures
        r is Some <==> valid_utf8(bytes@),
        r matches Some(s) ==> s@ == decode_utf8(bytes@),
{
    String::from_utf8(bytes).ok()
}

} // verus!
