//! The wire codec: every serializable entity writes itself into a byte
//! buffer and reads itself back from one. Integers use little-endian
//! fixed-width representations; strings and byte sequences carry an 8-byte
//! length prefix; peer lists carry a 1-byte count prefix.

use vstd::bytes::{
    lemma_auto_spec_u16_to_from_le_bytes, lemma_auto_spec_u64_to_from_le_bytes,
    spec_u16_from_le_bytes, spec_u16_to_le_bytes, spec_u64_from_le_bytes, spec_u64_to_le_bytes,
    u16_from_le_bytes, u64_from_le_bytes,
};
use vstd::prelude::*;
use vstd::slice::slice_subrange;

verus! {

/// A value with a byte encoding on the wire.
///
/// `enc` gives the exact byte string an abstract value serializes to, and
/// `dec` is the matching spec-level decoder over the front of a byte
/// sequence. `serialize` appends the encoding to a buffer; `deserialize`
/// reads one value back, starting at `start`, and fails (returns `None`)
/// exactly when the bytes hold no valid encoding.
pub trait Serializer: Sized + DeepView {
    /// The byte encoding of an abstract value.
    spec fn enc(a: Self::V) -> Seq<u8>;

    /// Whether an abstract value lies within the wire format's limits.
    spec fn encodable(a: Self::V) -> bool;

    /// The spec-level decoder: the bytes consumed and the abstract value
    /// read from the front of `s`, or `None` when `s` starts with no valid
    /// encoding.
    spec fn dec(s: Seq<u8>) -> Option<(int, Self::V)>;

    /// Append this value's encoding to `dst`; return the number of bytes
    /// written.
    fn serialize(&self, dst: &mut Vec<u8>) -> (n: usize)
        requires
            Self::encodable(self.deep_view()),
            old(dst)@.len() + Self::enc(self.deep_view()).len() <= usize::MAX,
        ensures
            final(dst)@ == old(dst)@ + Self::enc(self.deep_view()),
            n == Self::enc(self.deep_view()).len(),
    ;

    /// Read one value from `bytes`, beginning at `start`; return the bytes
    /// consumed and the value.
    fn deserialize(bytes: &[u8], start: usize) -> (r: Option<(usize, Self)>)
        requires
            start <= bytes@.len(),
        ensures
            match Self::dec(bytes@.skip(start as int)) {
                Some((n, a)) => {
                    &&& r is Some
                    &&& r->Some_0.0 as int == n
                    &&& r->Some_0.1.deep_view() == a
                    &&& Self::encodable(a)
                    &&& 0 <= n <= bytes@.skip(start as int).len()
                    &&& bytes@.skip(start as int).take(n) == Self::enc(a)
                },
                None => r is None,
            },
    ;

    /// Decoding an encoding reads back the encoded value, whatever bytes
    /// follow it.
    proof fn lemma_round_trip(a: Self::V, rest: Seq<u8>)
        requires
            Self::encodable(a),
        ensures
            Self::dec(Self::enc(a) + rest) == Some::<(int, Self::V)>(
                (Self::enc(a).len() as int, a),
            ),
    ;
}

impl Serializer for u8 {
    open spec fn enc(a: u8) -> Seq<u8> {
        seq![a]
    }

    open spec fn encodable(a: u8) -> bool {
        true
    }

    open spec fn dec(s: Seq<u8>) -> Option<(int, u8)> {
        if s.len() >= 1 {
            Some((1int, s[0]))
        } else {
            None
        }
    }

    fn serialize(&self, dst: &mut Vec<u8>) -> (n: usize) {
        dst.push(*self);
        proof {
            assert(dst@ =~= old(dst)@ + Self::enc(*self));
        }
        1
    }

    fn deserialize(bytes: &[u8], start: usize) -> (r: Option<(usize, u8)>) {
        if start < bytes.len() {
            let b = bytes[start];
            assert(bytes@.skip(start as int)[0] == b);
            Some((1, b))
        } else {
            None
        }
    }

    proof fn lemma_round_trip(a: u8, rest: Seq<u8>) {
        assert((Self::enc(a) + rest)[0] == a);
    }
}

impl Serializer for u64 {
    open spec fn enc(a: u64) -> Seq<u8> {
        spec_u64_to_le_bytes(a)
    }

    open spec fn encodable(a: u64) -> bool {
        true
    }

    open spec fn dec(s: Seq<u8>) -> Option<(int, u64)> {
        if s.len() >= 8 {
            Some((8int, spec_u64_from_le_bytes(s.take(8))))
        } else {
            None
        }
    }

    fn serialize(&self, dst: &mut Vec<u8>) -> (n: usize) {
        proof {
            lemma_auto_spec_u64_to_from_le_bytes();
        }
        let bs = vstd::bytes::u64_to_le_bytes(*self);
        let mut i: usize = 0;
        while i < bs.len()
            invariant
                bs@ == spec_u64_to_le_bytes(*self),
                i <= bs@.len(),
                dst@ == old(dst)@ + bs@.take(i as int),
                old(dst)@.len() + 8 <= usize::MAX,
            decreases bs@.len() - i,
        {
            dst.push(bs[i]);
            i = i + 1;
            proof {
                assert(dst@ =~= old(dst)@ + bs@.take(i as int));
            }
        }
        proof {
            assert(dst@ =~= old(dst)@ + Self::enc(*self));
        }
        8
    }

    fn deserialize(bytes: &[u8], start: usize) -> (r: Option<(usize, u64)>) {
        proof {
            lemma_auto_spec_u64_to_from_le_bytes();
        }
        if bytes.len() - start >= 8 {
            let window = slice_subrange(bytes, start, start + 8);
            let v = u64_from_le_bytes(window);
            proof {
                assert(window@ =~= bytes@.skip(start as int).take(8));
            }
            Some((8, v))
        } else {
            None
        }
    }

    proof fn lemma_round_trip(a: u64, rest: Seq<u8>) {
        lemma_auto_spec_u64_to_from_le_bytes();
        assert((Self::enc(a) + rest).take(8) =~= Self::enc(a));
    }
}

impl Serializer for u16 {
    open spec fn enc(a: u16) -> Seq<u8> {
        spec_u16_to_le_bytes(a)
    }

    open spec fn encodable(a: u16) -> bool {
        true
    }

    open spec fn dec(s: Seq<u8>) -> Option<(int, u16)> {
        if s.len() >= 2 {
            Some((2int, spec_u16_from_le_bytes(s.take(2))))
        } else {
            None
        }
    }

    fn serialize(&self, dst: &mut Vec<u8>) -> (n: usize) {
        proof {
            lemma_auto_spec_u16_to_from_le_bytes();
        }
        let bs = vstd::bytes::u16_to_le_bytes(*self);
        dst.push(bs[0]);
        dst.push(bs[1]);
        proof {
            assert(dst@ =~= old(dst)@ + Self::enc(*self));
        }
        2
    }

    fn deserialize(bytes: &[u8], start: usize) -> (r: Option<(usize, u16)>) {
        proof {
            lemma_auto_spec_u16_to_from_le_bytes();
        }
        if bytes.len() - start >= 2 {
            let window = slice_subrange(bytes, start, start + 2);
            let v = u16_from_le_bytes(window);
            proof {
                assert(window@ =~= bytes@.skip(start as int).take(2));
            }
            Some((2, v))
        } else {
            None
        }
    }

    proof fn lemma_round_trip(a: u16, rest: Seq<u8>) {
        lemma_auto_spec_u16_to_from_le_bytes();
        assert((Self::enc(a) + rest).take(2) =~= Self::enc(a));
    }
}

impl Serializer for u128 {
    open spec fn enc(a: u128) -> Seq<u8> {
        vstd::bytes::spec_u128_to_le_bytes(a)
    }

    open spec fn encodable(a: u128) -> bool {
        true
    }

    open spec fn dec(s: Seq<u8>) -> Option<(int, u128)> {
        if s.len() >= 16 {
            Some((16int, vstd::bytes::spec_u128_from_le_bytes(s.take(16))))
        } else {
            None
        }
    }

    fn serialize(&self, dst: &mut Vec<u8>) -> (n: usize) {
        proof {
            vstd::bytes::lemma_auto_spec_u128_to_from_le_bytes();
        }
        let bs = vstd::bytes::u128_to_le_bytes(*self);
        let mut i: usize = 0;
        while i < bs.len()
            invariant
                bs@ == vstd::bytes::spec_u128_to_le_bytes(*self),
                i <= bs@.len(),
                dst@ == old(dst)@ + bs@.take(i as int),
                old(dst)@.len() + 16 <= usize::MAX,
            decreases bs@.len() - i,
        {
            dst.push(bs[i]);
            i = i + 1;
            proof {
                assert(dst@ =~= old(dst)@ + bs@.take(i as int));
            }
        }
        proof {
            assert(dst@ =~= old(dst)@ + Self::enc(*self));
        }
        16
    }

    fn deserialize(bytes: &[u8], start: usize) -> (r: Option<(usize, u128)>) {
        proof {
            vstd::bytes::lemma_auto_spec_u128_to_from_le_bytes();
        }
        if bytes.len() - start >= 16 {
            let window = slice_subrange(bytes, start, start + 16);
            let v = vstd::bytes::u128_from_le_bytes(window);
            proof {
                assert(window@ =~= bytes@.skip(start as int).take(16));
            }
            Some((16, v))
        } else {
            None
        }
    }

    proof fn lemma_round_trip(a: u128, rest: Seq<u8>) {
        vstd::bytes::lemma_auto_spec_u128_to_from_le_bytes();
        assert((Self::enc(a) + rest).take(16) =~= Self::enc(a));
    }
}

impl Serializer for bool {
    open spec fn enc(a: bool) -> Seq<u8> {
        if a {
            seq![1u8]
        } else {
            seq![0u8]
        }
    }

    open spec fn encodable(a: bool) -> bool {
        true
    }

    open spec fn dec(s: Seq<u8>) -> Option<(int, bool)> {
        if s.len() >= 1 {
            if s[0] == 0u8 {
                Some((1int, false))
            } else if s[0] == 1u8 {
                Some((1int, true))
            } else {
                None
            }
        } else {
            None
        }
    }

    fn serialize(&self, dst: &mut Vec<u8>) -> (n: usize) {
        if *self {
            dst.push(1u8);
        } else {
            dst.push(0u8);
        }
        proof {
            assert(dst@ =~= old(dst)@ + Self::enc(*self));
        }
        1
    }

    fn deserialize(bytes: &[u8], start: usize) -> (r: Option<(usize, bool)>) {
        if start < bytes.len() {
            let b = bytes[start];
            assert(bytes@.skip(start as int)[0] == b);
            if b == 0 {
                Some((1, false))
            } else if b == 1 {
                Some((1, true))
            } else {
                None
            }
        } else {
            None
        }
    }

    proof fn lemma_round_trip(a: bool, rest: Seq<u8>) {
        assert((Self::enc(a) + rest)[0] == Self::enc(a)[0]);
    }
}

/// Relies on std's `String::from_utf8`: it returns the string whose UTF-8
/// bytes are exactly the input, and fails precisely when the input is not
/// valid UTF-8.
#[verifier::external_body]
fn string_from_utf8(bytes: Vec<u8>) -> (r: Option<String>)
    ensures
        r is Some <==> vstd::utf8::valid_utf8(bytes@),
        r is Some ==> r->Some_0@ == vstd::utf8::decode_utf8(bytes@),
{
    String::from_utf8(bytes).ok()
}

impl Serializer for String {
    open spec fn enc(a: Seq<char>) -> Seq<u8> {
        let b = vstd::utf8::encode_utf8(a);
        spec_u64_to_le_bytes(b.len() as u64) + b
    }

    open spec fn encodable(a: Seq<char>) -> bool {
        vstd::utf8::encode_utf8(a).len() + 8 <= usize::MAX
    }

    open spec fn dec(s: Seq<u8>) -> Option<(int, Seq<char>)> {
        if s.len() >= 8 {
            let l = spec_u64_from_le_bytes(s.take(8)) as int;
            if l + 8 <= s.len() {
                let b = s.subrange(8, 8 + l);
                if vstd::utf8::valid_utf8(b) {
                    Some((8 + l, vstd::utf8::decode_utf8(b)))
                } else {
                    None
                }
            } else {
                None
            }
        } else {
            None
        }
    }

    fn serialize(&self, dst: &mut Vec<u8>) -> (n: usize) {
        proof {
            lemma_auto_spec_u64_to_from_le_bytes();
        }
        let bs = self.as_str().as_bytes();
        let len = bs.len();
        let _ = (len as u64).serialize(dst);
        dst.extend_from_slice(bs);
        proof {
            assert(dst@ =~= old(dst)@ + Self::enc(self@));
        }
        8 + len
    }

    fn deserialize(bytes: &[u8], start: usize) -> (r: Option<(usize, String)>) {
        let tail = bytes.len() - start;
        match u64::deserialize(bytes, start) {
            None => None,
            Some((_, l64)) => {
                if l64 <= (usize::MAX as u64) && (l64 as usize) <= tail - 8 {
                    let l = l64 as usize;
                    let window = slice_subrange(bytes, start + 8, start + 8 + l);
                    let sub = vstd::slice::slice_to_vec(window);
                    proof {
                        let s = bytes@.skip(start as int);
                        assert(s.take(8) =~= bytes@.subrange(start as int, start as int + 8));
                        assert(window@ =~= s.subrange(8, 8 + l as int));
                    }
                    match string_from_utf8(sub) {
                        Some(st) => {
                            proof {
                                vstd::utf8::decode_utf8_encode_utf8(sub@);
                            }
                            Some((8 + l, st))
                        },
                        None => None,
                    }
                } else {
                    proof {
                        let s = bytes@.skip(start as int);
                        assert(s.take(8) =~= bytes@.subrange(start as int, start as int + 8));
                    }
                    None
                }
            },
        }
    }

    proof fn lemma_round_trip(a: Seq<char>, rest: Seq<u8>) {
        lemma_auto_spec_u64_to_from_le_bytes();
        broadcast use vstd::utf8::encode_utf8_valid_utf8, vstd::utf8::encode_utf8_decode_utf8;

        let b = vstd::utf8::encode_utf8(a);
        let s = Self::enc(a) + rest;
        assert(s.take(8) =~= spec_u64_to_le_bytes(b.len() as u64));
        assert(s.subrange(8, 8 + b.len() as int) =~= b);
    }
}

impl Serializer for Vec<u8> {
    open spec fn enc(a: Seq<u8>) -> Seq<u8> {
        spec_u64_to_le_bytes(a.len() as u64) + a
    }

    open spec fn encodable(a: Seq<u8>) -> bool {
        a.len() + 8 <= usize::MAX
    }

    open spec fn dec(s: Seq<u8>) -> Option<(int, Seq<u8>)> {
        if s.len() >= 8 {
            let l = spec_u64_from_le_bytes(s.take(8)) as int;
            if l + 8 <= s.len() {
                Some((8 + l, s.subrange(8, 8 + l)))
            } else {
                None
            }
        } else {
            None
        }
    }

    fn serialize(&self, dst: &mut Vec<u8>) -> (n: usize) {
        proof {
            lemma_auto_spec_u64_to_from_le_bytes();
        }
        let len = self.len();
        let _ = (len as u64).serialize(dst);
        dst.extend_from_slice(self.as_slice());
        proof {
            assert(dst@ =~= old(dst)@ + Self::enc(self@));
        }
        8 + len
    }

    fn deserialize(bytes: &[u8], start: usize) -> (r: Option<(usize, Vec<u8>)>) {
        let tail = bytes.len() - start;
        match u64::deserialize(bytes, start) {
            None => None,
            Some((_, l64)) => {
                proof {
                    let s = bytes@.skip(start as int);
                    assert(s.take(8) =~= bytes@.subrange(start as int, start as int + 8));
                }
                if l64 <= (usize::MAX as u64) && (l64 as usize) <= tail - 8 {
                    let l = l64 as usize;
                    let window = slice_subrange(bytes, start + 8, start + 8 + l);
                    let sub = vstd::slice::slice_to_vec(window);
                    proof {
                        let s = bytes@.skip(start as int);
                        assert(window@ =~= s.subrange(8, 8 + l as int));
                        assert(sub.deep_view() =~= sub@);
                    }
                    Some((8 + l, sub))
                } else {
                    None
                }
            },
        }
    }

    proof fn lemma_round_trip(a: Seq<u8>, rest: Seq<u8>) {
        lemma_auto_spec_u64_to_from_le_bytes();
        let s = Self::enc(a) + rest;
        assert(s.take(8) =~= spec_u64_to_le_bytes(a.len() as u64));
        assert(s.subrange(8, 8 + a.len() as int) =~= a);
    }
}

} // verus!
