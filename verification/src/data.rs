//! The versioned data model: a key is raw bytes plus a caller-supplied
//! logical sequence number (LSN); a value is a put or a delete tombstone.
//!
//! Keys order by raw bytes ascending and then by LSN descending, so that the
//! newest version of a raw key sorts first.

use vstd::prelude::*;

use crate::lex::{bytes_cmp, lemma_lex_cmp_antisym, lemma_lex_cmp_eq, lemma_lex_cmp_trans, lex_cmp,
    Cmp};

verus! {

/// A versioned key: raw bytes and the LSN of this version.
#[derive(Clone, Debug)]
pub struct Key {
    pub raw: Vec<u8>,
    pub lsn: u64,
}

impl Key {
    pub fn new(raw: Vec<u8>, lsn: u64) -> (r: Self)
        ensures
            r.raw == raw,
            r.lsn == lsn,
    {
        Key { raw, lsn }
    }
}

/// A key abstracted to its raw bytes and LSN.
pub type KeySpec = (Seq<u8>, u64);

pub open spec fn key_view(k: Key) -> KeySpec {
    (k.raw@, k.lsn)
}

/// The key order: raw bytes ascending, then LSN descending.
pub open spec fn key_lt(a: KeySpec, b: KeySpec) -> bool {
    crate::lex::lex_lt(a.0, b.0) || (a.0 == b.0 && a.1 > b.1)
}

pub proof fn lemma_key_lt_trans(a: KeySpec, b: KeySpec, c: KeySpec)
    requires
        key_lt(a, b),
        key_lt(b, c),
    ensures
        key_lt(a, c),
{
    lemma_lex_cmp_trans(a.0, b.0, c.0);
    lemma_lex_cmp_eq(a.0, b.0);
    lemma_lex_cmp_eq(b.0, c.0);
    lemma_lex_cmp_eq(a.0, c.0);
}

pub proof fn lemma_key_lt_irrefl(a: KeySpec)
    ensures
        !key_lt(a, a),
{
    lemma_lex_cmp_eq(a.0, a.0);
}

pub proof fn lemma_key_lt_asym(a: KeySpec, b: KeySpec)
    requires
        key_lt(a, b),
    ensures
        !key_lt(b, a),
        a != b,
{
    lemma_lex_cmp_antisym(a.0, b.0);
    lemma_lex_cmp_eq(a.0, b.0);
}

/// Three-way comparison in the key order.
pub fn key_compare(a: &Key, b: &Key) -> (r: Cmp)
    ensures
        r is Less <==> key_lt(key_view(*a), key_view(*b)),
        r is Equal <==> key_view(*a) == key_view(*b),
        r is Greater <==> key_lt(key_view(*b), key_view(*a)),
{
    proof {
        lemma_lex_cmp_eq(a.raw@, b.raw@);
        lemma_lex_cmp_antisym(a.raw@, b.raw@);
    }
    match bytes_cmp(&a.raw, &b.raw) {
        Cmp::Less => Cmp::Less,
        Cmp::Greater => Cmp::Greater,
        Cmp::Equal => {
            if a.lsn > b.lsn {
                Cmp::Less
            } else if a.lsn < b.lsn {
                Cmp::Greater
            } else {
                Cmp::Equal
            }
        },
    }
}

/// A value: bytes written by a put, or a delete tombstone.
#[derive(Clone, Debug)]
pub enum Value {
    Put(Vec<u8>),
    Delete,
}

/// A value abstracted to its bytes; a tombstone carries none.
pub type ValSpec = Option<Seq<u8>>;

pub open spec fn value_view(v: Value) -> ValSpec {
    match v {
        Value::Put(b) => Some(b@),
        Value::Delete => None,
    }
}

/// Clones a value, preserving its view.
pub fn clone_value(v: &Value) -> (r: Value)
    ensures
        value_view(r) == value_view(*v),
{
    match v {
        Value::Put(b) => Value::Put(crate::page::clone_bytes(b)),
        Value::Delete => Value::Delete,
    }
}

/// A child reference on an inner page: a page identifier and the epoch it
/// was taken under.
#[derive(Clone, Copy, Debug, PartialEq, Eq, Structural)]
pub struct Index {
    pub id: u64,
    pub epoch: u64,
}

impl Index {
    pub fn new(id: u64, epoch: u64) -> (r: Self)
        ensures
            r.id == id,
            r.epoch == epoch,
    {
        Index { id, epoch }
    }
}

} // verus!
