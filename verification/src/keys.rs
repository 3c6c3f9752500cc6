//! Keys of the block store.
//!
//! A block index is stored under its 8-byte big-endian encoding, so that the
//! lexicographic order of the keys equals the numeric order of the indices.

use vstd::prelude::*;

verus! {

/// The bytes of the big-endian encoding of `x`, most significant first.
pub open spec fn key_bytes(x: u64) -> Seq<u8> {
    seq![
        (x >> 56) as u8,
        (x >> 48) as u8,
        (x >> 40) as u8,
        (x >> 32) as u8,
        (x >> 24) as u8,
        (x >> 16) as u8,
        (x >> 8) as u8,
        x as u8,
    ]
}

/// The index encoded by 8 big-endian bytes.
pub open spec fn key_value(b: Seq<u8>) -> u64 {
    ((b[0] as u64) << 56) | ((b[1] as u64) << 48) | ((b[2] as u64) << 40) | ((b[3] as u64) << 32)
        | ((b[4] as u64) << 24) | ((b[5] as u64) << 16) | ((b[6] as u64) << 8) | (b[7] as u64)
}

/// Strict lexicographic order on byte strings.
pub open spec fn lex_lt(a: Seq<u8>, b: Seq<u8>) -> bool
    decreases a.len(),
{
    if b.len() == 0 {
        false
    } else if a.len() == 0 {
        true
    } else if a[0] != b[0] {
        a[0] < b[0]
    } else {
        lex_lt(a.drop_first(), b.drop_first())
    }
}

/// The key under which a block index is stored.
pub struct BlockKey {
    pub index: u64,
}

impl BlockKey {
    /// Make the key for block index `index`.
    pub fn new(index: u64) -> (r: Self)
        ensures
            r.index == index,
    {
        BlockKey { index }
    }

    /// The index this key stands for.
    pub fn index(&self) -> (r: u64)
        ensures
            r == self.index,
    {
        self.index
    }

    /// Read a key back from its 8-byte big-endian encoding.
    pub fn from_u8(key: &[u8]) -> (r: Self)
        requires
            key@.len() == 8,
        ensures
            r.index == key_value(key@),
    {
        let b0 = key[0];
        let b1 = key[1];
        let b2 = key[2];
        let b3 = key[3];
        let b4 = key[4];
        let b5 = key[5];
        let b6 = key[6];
        let b7 = key[7];
        BlockKey {
            index: ((b0 as u64) << 56) | ((b1 as u64) << 48) | ((b2 as u64) << 40) | ((b3
                as u64) << 32) | ((b4 as u64) << 24) | ((b5 as u64) << 16) | ((b6 as u64) << 8)
                | (b7 as u64),
        }
    }

    /// The 8-byte big-endian encoding of the key.
    pub fn as_slice(&self) -> (r: Vec<u8>)
        ensures
            r@ == key_bytes(self.index),
    {
        let x = self.index;
        let r: Vec<u8> = vec![
            (x >> 56) as u8,
            (x >> 48) as u8,
            (x >> 40) as u8,
            (x >> 32) as u8,
            (x >> 24) as u8,
            (x >> 16) as u8,
            (x >> 8) as u8,
            x as u8,
        ];
        assert(r@ =~= key_bytes(x));
        r
    }
}

/// Decoding inverts encoding: every index is read back unchanged.
pub proof fn lemma_key_round_trip(x: u64)
    ensures
        key_value(key_bytes(x)) == x,
{
    assert((((x >> 56) as u8 as u64) << 56) | (((x >> 48) as u8 as u64) << 48) | (((x >> 40) as u8
        as u64) << 40) | (((x >> 32) as u8 as u64) << 32) | (((x >> 24) as u8 as u64) << 24) | (((x
        >> 16) as u8 as u64) << 16) | (((x >> 8) as u8 as u64) << 8) | (x as u8 as u64) == x)
        by (bit_vector);
}

/// The big-endian encoding preserves numeric order: the keys of two indices
/// compare lexicographically exactly as the indices compare numerically.
pub proof fn lemma_key_order(x: u64, y: u64)
    ensures
        x < y <==> lex_lt(key_bytes(x), key_bytes(y)),
{
    let a = key_bytes(x);
    let b = key_bytes(y);
    let xa0 = (x >> 56) as u8;
    let xa1 = (x >> 48) as u8;
    let xa2 = (x >> 40) as u8;
    let xa3 = (x >> 32) as u8;
    let xa4 = (x >> 24) as u8;
    let xa5 = (x >> 16) as u8;
    let xa6 = (x >> 8) as u8;
    let xa7 = x as u8;
    let ya0 = (y >> 56) as u8;
    let ya1 = (y >> 48) as u8;
    let ya2 = (y >> 40) as u8;
    let ya3 = (y >> 32) as u8;
    let ya4 = (y >> 24) as u8;
    let ya5 = (y >> 16) as u8;
    let ya6 = (y >> 8) as u8;
    let ya7 = y as u8;
    let a1 = a.drop_first();
    let b1 = b.drop_first();
    let a2 = a1.drop_first();
    let b2 = b1.drop_first();
    let a3 = a2.drop_first();
    let b3 = b2.drop_first();
    let a4 = a3.drop_first();
    let b4 = b3.drop_first();
    let a5 = a4.drop_first();
    let b5 = b4.drop_first();
    let a6 = a5.drop_first();
    let b6 = b5.drop_first();
    let a7 = a6.drop_first();
    let b7 = b6.drop_first();
    assert(a1 =~= seq![xa1, xa2, xa3, xa4, xa5, xa6, xa7]);
    assert(a2 =~= seq![xa2, xa3, xa4, xa5, xa6, xa7]);
    assert(a3 =~= seq![xa3, xa4, xa5, xa6, xa7]);
    assert(a4 =~= seq![xa4, xa5, xa6, xa7]);
    assert(a5 =~= seq![xa5, xa6, xa7]);
    assert(a6 =~= seq![xa6, xa7]);
    assert(a7 =~= seq![xa7]);
    assert(b1 =~= seq![ya1, ya2, ya3, ya4, ya5, ya6, ya7]);
    assert(b2 =~= seq![ya2, ya3, ya4, ya5, ya6, ya7]);
    assert(b3 =~= seq![ya3, ya4, ya5, ya6, ya7]);
    assert(b4 =~= seq![ya4, ya5, ya6, ya7]);
    assert(b5 =~= seq![ya5, ya6, ya7]);
    assert(b6 =~= seq![ya6, ya7]);
    assert(b7 =~= seq![ya7]);
    if xa0 != ya0 {
        assert(lex_lt(a, b) == (xa0 < ya0));
        assert((x >> 56) as u8 != (y >> 56) as u8 ==> ((((x >> 56) as u8) < ((y >> 56) as u8)) <==> x
            < y)) by (bit_vector);
    } else if xa1 != ya1 {
        assert(lex_lt(a, b) == lex_lt(a1, b1));
        assert(lex_lt(a1, b1) == (xa1 < ya1));
        assert(lex_lt(a, b) == (xa1 < ya1));
        assert((x >> 56) as u8 == (y >> 56) as u8 && (x >> 48) as u8 != (y >> 48) as u8 ==> ((((x
            >> 48) as u8) < ((y >> 48) as u8)) <==> x < y)) by (bit_vector);
    } else if xa2 != ya2 {
        assert(lex_lt(a, b) == lex_lt(a1, b1));
        assert(lex_lt(a1, b1) == lex_lt(a2, b2));
        assert(lex_lt(a2, b2) == (xa2 < ya2));
        assert(lex_lt(a, b) == (xa2 < ya2));
        assert((x >> 56) as u8 == (y >> 56) as u8 && (x >> 48) as u8 == (y >> 48) as u8 && (x
            >> 40) as u8 != (y >> 40) as u8 ==> ((((x >> 40) as u8) < ((y >> 40) as u8)) <==> x < y))
            by (bit_vector);
    } else if xa3 != ya3 {
        assert(lex_lt(a, b) == lex_lt(a1, b1));
        assert(lex_lt(a1, b1) == lex_lt(a2, b2));
        assert(lex_lt(a2, b2) == lex_lt(a3, b3));
        assert(lex_lt(a3, b3) == (xa3 < ya3));
        assert(lex_lt(a, b) == (xa3 < ya3));
        assert((x >> 56) as u8 == (y >> 56) as u8 && (x >> 48) as u8 == (y >> 48) as u8 && (x
            >> 40) as u8 == (y >> 40) as u8 && (x >> 32) as u8 != (y >> 32) as u8 ==> ((((x >> 32)
            as u8) < ((y >> 32) as u8)) <==> x < y)) by (bit_vector);
    } else if xa4 != ya4 {
        assert(lex_lt(a, b) == lex_lt(a1, b1));
        assert(lex_lt(a1, b1) == lex_lt(a2, b2));
        assert(lex_lt(a2, b2) == lex_lt(a3, b3));
        assert(lex_lt(a3, b3) == lex_lt(a4, b4));
        assert(lex_lt(a4, b4) == (xa4 < ya4));
        assert(lex_lt(a, b) == (xa4 < ya4));
        assert((x >> 56) as u8 == (y >> 56) as u8 && (x >> 48) as u8 == (y >> 48) as u8 && (x
            >> 40) as u8 == (y >> 40) as u8 && (x >> 32) as u8 == (y >> 32) as u8 && (x >> 24)
            as u8 != (y >> 24) as u8 ==> ((((x >> 24) as u8) < ((y >> 24) as u8)) <==> x < y))
            by (bit_vector);
    } else if xa5 != ya5 {
        assert(lex_lt(a, b) == lex_lt(a1, b1));
        assert(lex_lt(a1, b1) == lex_lt(a2, b2));
        assert(lex_lt(a2, b2) == lex_lt(a3, b3));
        assert(lex_lt(a3, b3) == lex_lt(a4, b4));
        assert(lex_lt(a4, b4) == lex_lt(a5, b5));
        assert(lex_lt(a5, b5) == (xa5 < ya5));
        assert(lex_lt(a, b) == (xa5 < ya5));
        assert((x >> 56) as u8 == (y >> 56) as u8 && (x >> 48) as u8 == (y >> 48) as u8 && (x
            >> 40) as u8 == (y >> 40) as u8 && (x >> 32) as u8 == (y >> 32) as u8 && (x >> 24)
            as u8 == (y >> 24) as u8 && (x >> 16) as u8 != (y >> 16) as u8 ==> ((((x >> 16) as u8)
            < ((y >> 16) as u8)) <==> x < y)) by (bit_vector);
    } else if xa6 != ya6 {
        assert(lex_lt(a, b) == lex_lt(a1, b1));
        assert(lex_lt(a1, b1) == lex_lt(a2, b2));
        assert(lex_lt(a2, b2) == lex_lt(a3, b3));
        assert(lex_lt(a3, b3) == lex_lt(a4, b4));
        assert(lex_lt(a4, b4) == lex_lt(a5, b5));
        assert(lex_lt(a5, b5) == lex_lt(a6, b6));
        assert(lex_lt(a6, b6) == (xa6 < ya6));
        assert(lex_lt(a, b) == (xa6 < ya6));
        assert((x >> 56) as u8 == (y >> 56) as u8 && (x >> 48) as u8 == (y >> 48) as u8 && (x
            >> 40) as u8 == (y >> 40) as u8 && (x >> 32) as u8 == (y >> 32) as u8 && (x >> 24)
            as u8 == (y >> 24) as u8 && (x >> 16) as u8 == (y >> 16) as u8 && (x >> 8) as u8 != (y
            >> 8) as u8 ==> ((((x >> 8) as u8) < ((y >> 8) as u8)) <==> x < y)) by (bit_vector);
    } else if xa7 != ya7 {
        assert(lex_lt(a, b) == lex_lt(a1, b1));
        assert(lex_lt(a1, b1) == lex_lt(a2, b2));
        assert(lex_lt(a2, b2) == lex_lt(a3, b3));
        assert(lex_lt(a3, b3) == lex_lt(a4, b4));
        assert(lex_lt(a4, b4) == lex_lt(a5, b5));
        assert(lex_lt(a5, b5) == lex_lt(a6, b6));
        assert(lex_lt(a6, b6) == lex_lt(a7, b7));
        assert(lex_lt(a7, b7) == (xa7 < ya7));
        assert(lex_lt(a, b) == (xa7 < ya7));
        assert((x >> 56) as u8 == (y >> 56) as u8 && (x >> 48) as u8 == (y >> 48) as u8 && (x
            >> 40) as u8 == (y >> 40) as u8 && (x >> 32) as u8 == (y >> 32) as u8 && (x >> 24)
            as u8 == (y >> 24) as u8 && (x >> 16) as u8 == (y >> 16) as u8 && (x >> 8) as u8 == (y
            >> 8) as u8 && x as u8 != y as u8 ==> (((x as u8) < (y as u8)) <==> x < y))
            by (bit_vector);
    } else {
        assert(a7.drop_first() =~= Seq::<u8>::empty());
        assert(b7.drop_first() =~= Seq::<u8>::empty());
        assert(lex_lt(a, b) == lex_lt(a1, b1));
        assert(lex_lt(a1, b1) == lex_lt(a2, b2));
        assert(lex_lt(a2, b2) == lex_lt(a3, b3));
        assert(lex_lt(a3, b3) == lex_lt(a4, b4));
        assert(lex_lt(a4, b4) == lex_lt(a5, b5));
        assert(lex_lt(a5, b5) == lex_lt(a6, b6));
        assert(lex_lt(a6, b6) == lex_lt(a7, b7));
        assert(lex_lt(a7, b7) == lex_lt(a7.drop_first(), b7.drop_first()));
        assert(!lex_lt(a, b));
        assert((x >> 56) as u8 == (y >> 56) as u8 && (x >> 48) as u8 == (y >> 48) as u8 && (x
            >> 40) as u8 == (y >> 40) as u8 && (x >> 32) as u8 == (y >> 32) as u8 && (x >> 24)
            as u8 == (y >> 24) as u8 && (x >> 16) as u8 == (y >> 16) as u8 && (x >> 8) as u8 == (y
            >> 8) as u8 && x as u8 == y as u8 ==> x == y) by (bit_vector);
    }
}

} // verus!
