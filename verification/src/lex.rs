//! Lexicographic order on byte strings, the key order of the engine.
//!
//! Keys are raw byte strings ordered lexicographically; a shorter string that
//! is a prefix of a longer one sorts first. An empty `highest` bound acts as
//! plus infinity, which `key_in_range` encodes.

use vstd::prelude::*;

verus! {

/// Three-way outcome of a byte-string comparison.
#[derive(Clone, Copy, Debug, PartialEq, Eq, Structural)]
pub enum Cmp {
    Less,
    Equal,
    Greater,
}

/// Lexicographic comparison of two byte strings: negative when `a` sorts
/// before `b`, zero when they are equal, positive when `a` sorts after `b`.
pub open spec fn lex_cmp(a: Seq<u8>, b: Seq<u8>) -> int
    decreases a.len(),
{
    if a.len() == 0 && b.len() == 0 {
        0
    } else if a.len() == 0 {
        -1
    } else if b.len() == 0 {
        1
    } else if a[0] < b[0] {
        -1
    } else if a[0] > b[0] {
        1
    } else {
        lex_cmp(a.drop_first(), b.drop_first())
    }
}

pub open spec fn lex_lt(a: Seq<u8>, b: Seq<u8>) -> bool {
    lex_cmp(a, b) < 0
}

pub open spec fn lex_le(a: Seq<u8>, b: Seq<u8>) -> bool {
    lex_cmp(a, b) <= 0
}

/// `key` lies in the half-open range `[lowest, highest)`, where an empty
/// `highest` stands for plus infinity.
pub open spec fn in_range(key: Seq<u8>, lowest: Seq<u8>, highest: Seq<u8>) -> bool {
    lex_le(lowest, key) && (lex_lt(key, highest) || highest.len() == 0)
}

pub proof fn lemma_lex_cmp_eq(a: Seq<u8>, b: Seq<u8>)
    ensures
        lex_cmp(a, b) == 0 <==> a == b,
    decreases a.len(),
{
    if a.len() == 0 && b.len() == 0 {
        assert(a =~= b);
    } else if a.len() != 0 && b.len() != 0 && a[0] == b[0] {
        lemma_lex_cmp_eq(a.drop_first(), b.drop_first());
        if lex_cmp(a, b) == 0 {
            assert(a.drop_first() == b.drop_first());
            assert(a.len() == b.len());
            assert forall|i: int| 0 <= i < a.len() implies a[i] == b[i] by {
                if i > 0 {
                    assert(a[i] == a.drop_first()[i - 1]);
                    assert(b[i] == b.drop_first()[i - 1]);
                }
            }
            assert(a =~= b);
        }
        if a == b {
            assert(a.drop_first() =~= b.drop_first());
        }
    }
}

pub proof fn lemma_lex_cmp_antisym(a: Seq<u8>, b: Seq<u8>)
    ensures
        lex_cmp(a, b) == -lex_cmp(b, a),
    decreases a.len(),
{
    if a.len() != 0 && b.len() != 0 && a[0] == b[0] {
        lemma_lex_cmp_antisym(a.drop_first(), b.drop_first());
    }
}

pub proof fn lemma_lex_cmp_trans(a: Seq<u8>, b: Seq<u8>, c: Seq<u8>)
    ensures
        lex_cmp(a, b) < 0 && lex_cmp(b, c) < 0 ==> lex_cmp(a, c) < 0,
        lex_cmp(a, b) <= 0 && lex_cmp(b, c) <= 0 ==> lex_cmp(a, c) <= 0,
        lex_cmp(a, b) < 0 && lex_cmp(b, c) <= 0 ==> lex_cmp(a, c) < 0,
        lex_cmp(a, b) <= 0 && lex_cmp(b, c) < 0 ==> lex_cmp(a, c) < 0,
    decreases a.len() + b.len() + c.len(),
{
    lemma_lex_cmp_eq(a, b);
    lemma_lex_cmp_eq(b, c);
    lemma_lex_cmp_eq(a, c);
    if a.len() != 0 && b.len() != 0 && c.len() != 0 && a[0] == b[0] && b[0] == c[0] {
        lemma_lex_cmp_trans(a.drop_first(), b.drop_first(), c.drop_first());
    }
}

/// The comparison only looks at the part of the strings past a common prefix.
proof fn lemma_lex_cmp_skip_step(a: Seq<u8>, b: Seq<u8>, i: int)
    requires
        0 <= i < a.len(),
        0 <= i < b.len(),
        a[i] == b[i],
        lex_cmp(a, b) == lex_cmp(a.skip(i), b.skip(i)),
    ensures
        lex_cmp(a, b) == lex_cmp(a.skip(i + 1), b.skip(i + 1)),
{
    assert(a.skip(i).drop_first() =~= a.skip(i + 1));
    assert(b.skip(i).drop_first() =~= b.skip(i + 1));
}

/// Lexicographic three-way comparison of two byte strings.
pub fn bytes_cmp(a: &Vec<u8>, b: &Vec<u8>) -> (r: Cmp)
    ensures
        r is Less <==> lex_cmp(a@, b@) < 0,
        r is Equal <==> lex_cmp(a@, b@) == 0,
        r is Greater <==> lex_cmp(a@, b@) > 0,
{
    let mut i: usize = 0;
    proof {
        assert(a@.skip(0) =~= a@);
        assert(b@.skip(0) =~= b@);
    }
    loop
        invariant
            0 <= i <= a.len(),
            0 <= i <= b.len(),
            lex_cmp(a@, b@) == lex_cmp(a@.skip(i as int), b@.skip(i as int)),
        decreases a.len() - i,
    {
        if i == a.len() && i == b.len() {
            assert(a@.skip(i as int).len() == 0 && b@.skip(i as int).len() == 0);
            return Cmp::Equal;
        }
        if i == a.len() {
            assert(a@.skip(i as int).len() == 0 && b@.skip(i as int).len() != 0);
            return Cmp::Less;
        }
        if i == b.len() {
            assert(a@.skip(i as int).len() != 0 && b@.skip(i as int).len() == 0);
            return Cmp::Greater;
        }
        let x = a[i];
        let y = b[i];
        assert(a@.skip(i as int)[0] == x && b@.skip(i as int)[0] == y);
        if x < y {
            return Cmp::Less;
        }
        if x > y {
            return Cmp::Greater;
        }
        proof {
            lemma_lex_cmp_skip_step(a@, b@, i as int);
        }
        i = i + 1;
    }
}

/// True when `a` sorts strictly before `b`.
pub fn bytes_lt(a: &Vec<u8>, b: &Vec<u8>) -> (r: bool)
    ensures
        r == lex_lt(a@, b@),
{
    matches!(bytes_cmp(a, b), Cmp::Less)
}

/// True when `a` sorts before `b` or equals it.
pub fn bytes_le(a: &Vec<u8>, b: &Vec<u8>) -> (r: bool)
    ensures
        r == lex_le(a@, b@),
{
    !matches!(bytes_cmp(a, b), Cmp::Greater)
}

/// True when `key` lies in `[lowest, highest)`, an empty `highest` standing
/// for plus infinity.
pub fn key_in_range(key: &Vec<u8>, lowest: &Vec<u8>, highest: &Vec<u8>) -> (r: bool)
    ensures
        r == in_range(key@, lowest@, highest@),
{
    bytes_le(lowest, key) && (highest.len() == 0 || bytes_lt(key, highest))
}

} // verus!
