//! Byte codec for keys, values and child references: little-endian words,
//! length-prefixed byte strings, and a tag byte telling puts from
//! tombstones. A value's bytes run to the end of its record, so records are
//! delimited from outside, by the page's offsets table.

use vstd::prelude::*;

use vstd::bytes::{spec_u32_from_le_bytes, spec_u32_to_le_bytes, spec_u64_to_le_bytes, u32_from_le_bytes, u32_to_le_bytes,
    u64_from_le_bytes, u64_to_le_bytes, lemma_auto_spec_u32_to_from_le_bytes,
    lemma_auto_spec_u64_to_from_le_bytes};

use crate::data::{key_view, value_view, Index, Key, KeySpec, ValSpec, Value};

verus! {

/// A byte string encoded as its 32-bit length followed by its bytes.
pub open spec fn spec_encode_bytes(b: Seq<u8>) -> Seq<u8> {
    spec_u32_to_le_bytes(b.len() as u32) + b
}

/// A key encoded as its raw bytes followed by its 64-bit LSN.
pub open spec fn spec_encode_key(k: KeySpec) -> Seq<u8> {
    spec_encode_bytes(k.0) + spec_u64_to_le_bytes(k.1)
}

/// A value encoded as a tag byte and, for a put, its bytes; the bytes run to
/// the end of the record.
pub open spec fn spec_encode_value(v: ValSpec) -> Seq<u8> {
    match v {
        Some(b) => seq![0u8] + b,
        None => seq![1u8],
    }
}

/// One record: a key and then its value.
pub open spec fn spec_encode_entry(e: (KeySpec, ValSpec)) -> Seq<u8> {
    spec_encode_key(e.0) + spec_encode_value(e.1)
}

/// A child reference encoded as two 64-bit words.
pub open spec fn spec_encode_index(x: Index) -> Seq<u8> {
    spec_u64_to_le_bytes(x.id) + spec_u64_to_le_bytes(x.epoch)
}

pub open spec fn spec_entry_size(e: (KeySpec, ValSpec)) -> int {
    spec_encode_entry(e).len() as int
}

/// The encoded size of a length-prefixed byte string.
pub fn encode_size(b: &Vec<u8>) -> (n: usize)
    requires
        b@.len() + 4 <= usize::MAX,
        b@.len() <= u32::MAX,
    ensures
        n == spec_encode_bytes(b@).len(),
{
    proof {
        lemma_auto_spec_u32_to_from_le_bytes();
    }
    4 + b.len()
}

/// Appends a length-prefixed byte string.
pub fn encode_to(b: &Vec<u8>, out: &mut Vec<u8>)
    requires
        b@.len() <= u32::MAX,
        old(out)@.len() + b@.len() + 4 <= usize::MAX,
    ensures
        final(out)@ == old(out)@ + spec_encode_bytes(b@),
{
    let ghost out0 = out@;
    proof {
        lemma_auto_spec_u32_to_from_le_bytes();
    }
    let len_bytes = u32_to_le_bytes(b.len() as u32);
    append_bytes(out, &len_bytes);
    append_bytes(out, b);
    proof {
        assert(out@ =~= out0 + spec_encode_bytes(b@));
    }
}

/// `s` starts with the length-prefixed encoding of `b`.
pub open spec fn starts_with_bytes(s: Seq<u8>, b: Seq<u8>) -> bool {
    &&& b.len() <= u32::MAX
    &&& s.len() >= 4 + b.len()
    &&& s.take(4 + b.len() as int) == spec_encode_bytes(b)
}

/// Where an encoded byte string sits inside a larger buffer.
proof fn lemma_decode_bytes_at(bytes: Seq<u8>, at: int, b: Seq<u8>)
    requires
        0 <= at <= bytes.len(),
        starts_with_bytes(bytes.skip(at), b),
    ensures
        at + 4 + b.len() <= bytes.len(),
        bytes.subrange(at, at + 4) == spec_u32_to_le_bytes(b.len() as u32),
        bytes.subrange(at + 4, at + 4 + b.len()) == b,
{
    lemma_auto_spec_u32_to_from_le_bytes();
    let s = bytes.skip(at);
    let enc = spec_encode_bytes(b);
    assert(enc.len() == 4 + b.len());
    assert forall|i: int| 0 <= i < 4 implies #[trigger] bytes.subrange(at, at + 4)[i]
        == spec_u32_to_le_bytes(b.len() as u32)[i] by {
        assert(s.take(4 + b.len() as int)[i] == s[i]);
        assert(s[i] == bytes[at + i]);
        assert(enc[i] == spec_u32_to_le_bytes(b.len() as u32)[i]);
    }
    assert(bytes.subrange(at, at + 4) =~= spec_u32_to_le_bytes(b.len() as u32));
    assert forall|i: int| 0 <= i < b.len() implies #[trigger] bytes.subrange(
        at + 4,
        at + 4 + b.len(),
    )[i] == b[i] by {
        assert(s.take(4 + b.len() as int)[4 + i] == s[4 + i]);
        assert(s[4 + i] == bytes[at + 4 + i]);
        assert(enc[4 + i] == b[i]);
    }
    assert(bytes.subrange(at + 4, at + 4 + b.len()) =~= b);
}

/// Reads back a length-prefixed byte string starting at `at`.
pub fn decode_from(bytes: &Vec<u8>, at: usize) -> (r: (Vec<u8>, usize))
    requires
        at <= bytes@.len(),
        exists|b: Seq<u8>| #[trigger] starts_with_bytes(bytes@.skip(at as int), b),
    ensures
        forall|b: Seq<u8>|
            #[trigger] starts_with_bytes(bytes@.skip(at as int), b) ==> r.0@ == b && r.1 == at + 4
                + b.len(),
{
    let total = bytes.len();
    let ghost gb: Seq<u8> = choose|b: Seq<u8>|
        #[trigger] starts_with_bytes(bytes@.skip(at as int), b);
    proof {
        lemma_auto_spec_u32_to_from_le_bytes();
        lemma_decode_bytes_at(bytes@, at as int, gb);
        assert(at + 4 + gb.len() <= total);
    }
    let len = read_u32(bytes, at);
    proof {
        assert(spec_u32_to_le_bytes(len) == spec_u32_to_le_bytes(gb.len() as u32));
        assert(spec_u32_from_le_bytes(spec_u32_to_le_bytes(len)) == spec_u32_from_le_bytes(
            spec_u32_to_le_bytes(gb.len() as u32),
        ));
        assert(len == gb.len());
    }
    let out = copy_range(bytes, at + 4, len as usize);
    proof {
        assert(out@ == gb);
        assert forall|b: Seq<u8>| #[trigger] starts_with_bytes(
            bytes@.skip(at as int),
            b,
        ) implies out@ == b && at + 4 + len == at + 4 + b.len() by {
            lemma_decode_bytes_at(bytes@, at as int, b);
            assert(spec_u32_to_le_bytes(b.len() as u32) == spec_u32_to_le_bytes(gb.len() as u32));
            assert(spec_u32_from_le_bytes(spec_u32_to_le_bytes(b.len() as u32))
                == spec_u32_from_le_bytes(spec_u32_to_le_bytes(gb.len() as u32)));
            assert(b.len() == gb.len());
            assert(b =~= gb);
        }
    }
    (out, at + 4 + len as usize)
}

/// Appends every byte of `src` to `out`.
pub fn append_bytes(out: &mut Vec<u8>, src: &Vec<u8>)
    requires
        old(out)@.len() + src@.len() <= usize::MAX,
    ensures
        final(out)@ == old(out)@ + src@,
{
    let ghost out0 = out@;
    let mut i: usize = 0;
    while i < src.len()
        invariant
            i <= src@.len(),
            out0.len() + src@.len() <= usize::MAX,
            out@ == out0 + src@.take(i as int),
        decreases src@.len() - i,
    {
        out.push(src[i]);
        proof {
            assert(out@ =~= out0 + src@.take(i + 1));
        }
        i = i + 1;
    }
    proof {
        assert(out@ =~= out0 + src@);
    }
}

/// Reads the little-endian 32-bit word at `at`.
pub fn read_u32(bytes: &Vec<u8>, at: usize) -> (r: u32)
    requires
        at + 4 <= bytes@.len(),
    ensures
        spec_u32_to_le_bytes(r) == bytes@.subrange(at as int, at + 4),
{
    proof {
        lemma_auto_spec_u32_to_from_le_bytes();
    }
    let window = copy_range(bytes, at, 4);
    u32_from_le_bytes(window.as_slice())
}

/// Reads the little-endian 64-bit word at `at`.
pub fn read_u64(bytes: &Vec<u8>, at: usize) -> (r: u64)
    requires
        at + 8 <= bytes@.len(),
    ensures
        spec_u64_to_le_bytes(r) == bytes@.subrange(at as int, at + 8),
{
    proof {
        lemma_auto_spec_u64_to_from_le_bytes();
    }
    let window = copy_range(bytes, at, 8);
    u64_from_le_bytes(window.as_slice())
}

/// Copies `len` bytes of `bytes` starting at `at`.
pub fn copy_range(bytes: &Vec<u8>, at: usize, len: usize) -> (r: Vec<u8>)
    requires
        at + len <= bytes@.len(),
    ensures
        r@ == bytes@.subrange(at as int, at + len),
{
    let total = bytes.len();
    let mut r: Vec<u8> = Vec::new();
    let mut i: usize = 0;
    while i < len
        invariant
            i <= len,
            total == bytes@.len(),
            at + len <= bytes@.len(),
            r@ == bytes@.subrange(at as int, at + i),
        decreases len - i,
    {
        r.push(bytes[at + i]);
        proof {
            assert(r@ =~= bytes@.subrange(at as int, at + i + 1));
        }
        i = i + 1;
    }
    r
}

impl Key {
    /// The encoded size of this key.
    pub fn encode_size(&self) -> (n: usize)
        requires
            self.raw@.len() + 12 <= usize::MAX,
            self.raw@.len() <= u32::MAX,
        ensures
            n == spec_encode_key(key_view(*self)).len(),
    {
        proof {
            lemma_auto_spec_u32_to_from_le_bytes();
            lemma_auto_spec_u64_to_from_le_bytes();
        }
        4 + self.raw.len() + 8
    }

    /// Appends this key's encoding.
    pub fn encode_to(&self, out: &mut Vec<u8>)
        requires
            self.raw@.len() <= u32::MAX,
            old(out)@.len() + self.raw@.len() + 12 <= usize::MAX,
        ensures
            final(out)@ == old(out)@ + spec_encode_key(key_view(*self)),
    {
        let ghost out0 = out@;
        proof {
            lemma_auto_spec_u32_to_from_le_bytes();
            lemma_auto_spec_u64_to_from_le_bytes();
        }
        encode_to(&self.raw, out);
        let lsn_bytes = u64_to_le_bytes(self.lsn);
        append_bytes(out, &lsn_bytes);
        proof {
            assert(out@ =~= out0 + spec_encode_key(key_view(*self)));
        }
    }
}

impl Value {
    /// The encoded size of this value.
    pub fn encode_size(&self) -> (n: usize)
        requires
            match self {
                Value::Put(b) => b@.len() + 1 <= usize::MAX,
                Value::Delete => true,
            },
        ensures
            n == spec_encode_value(value_view(*self)).len(),
    {
        match self {
            Value::Put(b) => 1 + b.len(),
            Value::Delete => 1,
        }
    }

    /// Appends this value's encoding: a tag byte, then a put's bytes.
    pub fn encode_to(&self, out: &mut Vec<u8>)
        requires
            old(out)@.len() + spec_encode_value(value_view(*self)).len() <= usize::MAX,
        ensures
            final(out)@ == old(out)@ + spec_encode_value(value_view(*self)),
    {
        let ghost out0 = out@;
        match self {
            Value::Put(b) => {
                out.push(0u8);
                append_bytes(out, b);
                proof {
                    assert(out@ =~= out0 + spec_encode_value(value_view(*self)));
                }
            },
            Value::Delete => {
                out.push(1u8);
                proof {
                    assert(out@ =~= out0 + spec_encode_value(value_view(*self)));
                }
            },
        }
    }
}

impl Index {
    /// The encoded size of a child reference: two 64-bit words.
    pub fn encode_size(&self) -> (n: usize)
        ensures
            n == spec_encode_index(*self).len(),
    {
        proof {
            lemma_auto_spec_u64_to_from_le_bytes();
        }
        16
    }

    /// Appends this child reference's encoding.
    pub fn encode_to(&self, out: &mut Vec<u8>)
        requires
            old(out)@.len() + 16 <= usize::MAX,
        ensures
            final(out)@ == old(out)@ + spec_encode_index(*self),
    {
        let ghost out0 = out@;
        proof {
            lemma_auto_spec_u64_to_from_le_bytes();
        }
        let id_bytes = u64_to_le_bytes(self.id);
        append_bytes(out, &id_bytes);
        let epoch_bytes = u64_to_le_bytes(self.epoch);
        append_bytes(out, &epoch_bytes);
        proof {
            assert(out@ =~= out0 + spec_encode_index(*self));
        }
    }

    /// Reads back a child reference starting at `at`.
    pub fn decode_from(bytes: &Vec<u8>, at: usize) -> (r: (Index, usize))
        requires
            at + 16 <= bytes@.len(),
        ensures
            spec_encode_index(r.0) == bytes@.subrange(at as int, at + 16),
            r.1 == at + 16,
    {
        let total = bytes.len();
        proof {
            lemma_auto_spec_u64_to_from_le_bytes();
            assert(at + 16 <= total);
        }
        let id = read_u64(bytes, at);
        let epoch = read_u64(bytes, at + 8);
        let r = Index::new(id, epoch);
        proof {
            assert(spec_encode_index(r) =~= bytes@.subrange(at as int, at + 16));
        }
        (r, at + 16)
    }
}

} // verus!
