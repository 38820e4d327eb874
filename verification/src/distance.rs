//! The XOR metric on identifiers, and the buckets it induces.

use vstd::arithmetic::power2::{
    lemma2_to64, lemma_pow2_adds, lemma_pow2_pos, lemma_pow2_strictly_increases, pow2,
};
use vstd::prelude::*;
use vstd::std_specs::bits::{axiom_u8_leading_zeros, u8_leading_zeros};

use crate::hash::NodeId;

verus! {

/// The number that a byte string spells, most significant byte first.
pub open spec fn be_value(bytes: Seq<u8>) -> nat
    decreases bytes.len(),
{
    if bytes.len() == 0 {
        0
    } else {
        be_value(bytes.drop_last()) * 256 + bytes.last() as nat
    }
}

/// The bytewise XOR of two identifiers.
pub open spec fn xor_bytes(a: NodeId, b: NodeId) -> Seq<u8> {
    Seq::new(32, |i: int| a[i] ^ b[i])
}

/// The XOR distance between two identifiers, as a 256-bit number.
pub open spec fn dist(a: NodeId, b: NodeId) -> nat {
    be_value(xor_bytes(a, b))
}

/// The number of zero bits before the first one bit, most significant bit first.
pub open spec fn leading_zero_bits(bytes: Seq<u8>) -> nat
    decreases bytes.len(),
{
    if bytes.len() == 0 {
        0
    } else if bytes[0] == 0 {
        8 + leading_zero_bits(bytes.drop_first())
    } else {
        u8_leading_zeros(bytes[0]) as nat
    }
}

/// The bucket that `other` belongs to in the table of `self_id`: the position of the first
/// bit in which the two differ, and the last bucket when they are the same.
pub open spec fn bucket_of(self_id: NodeId, other: NodeId) -> int {
    if self_id == other {
        255
    } else {
        leading_zero_bits(xor_bytes(self_id, other)) as int
    }
}

/// The bit of an identifier at a position, counted from the most significant bit.
pub open spec fn id_bit(id: NodeId, position: int) -> bool {
    (id[position / 8] >> ((7 - position % 8) as u8)) & 1u8 == 1u8
}

/// Computes the XOR distance between two identifiers.
pub fn xor_distance(a: &NodeId, b: &NodeId) -> (out: [u8; 32])
    ensures
        out@ == xor_bytes(*a, *b),
        be_value(out@) == dist(*a, *b),
{
    let mut out: [u8; 32] = [0u8; 32];
    for i in 0..32usize
        invariant
            forall|j: int| 0 <= j < i ==> out[j] == a[j] ^ b[j],
    {
        out[i] = a[i] ^ b[i];
    }
    assert(out@ =~= xor_bytes(*a, *b));
    out
}

/// Compares two distances, most significant byte first.
pub fn distance_cmp(a: &[u8; 32], b: &[u8; 32]) -> (order: std::cmp::Ordering)
    ensures
        order == std::cmp::Ordering::Less <==> be_value(a@) < be_value(b@),
        order == std::cmp::Ordering::Greater <==> be_value(a@) > be_value(b@),
        order == std::cmp::Ordering::Equal <==> *a == *b,
        order == std::cmp::Ordering::Equal <==> be_value(a@) == be_value(b@),
{
    for i in 0..32usize
        invariant
            forall|j: int| 0 <= j < i ==> a[j] == b[j],
    {
        if a[i] < b[i] {
            proof {
                lemma_first_difference_decides(a@, b@, i + 0);
            }
            return std::cmp::Ordering::Less;
        } else if a[i] > b[i] {
            proof {
                lemma_first_difference_decides(b@, a@, i + 0);
            }
            return std::cmp::Ordering::Greater;
        }
    }
    assert(*a =~= *b);
    std::cmp::Ordering::Equal
}

/// Whether `a` is strictly nearer to `target` than `b` is.
pub fn is_nearer(a: &NodeId, b: &NodeId, target: &NodeId) -> (nearer: bool)
    ensures
        nearer == (dist(*a, *target) < dist(*b, *target)),
{
    let da = xor_distance(a, target);
    let db = xor_distance(b, target);
    distance_less(&da, &db)
}

/// Whether the distance `a` is strictly smaller than `b`.
pub fn distance_less(a: &[u8; 32], b: &[u8; 32]) -> (less: bool)
    ensures
        less == (be_value(a@) < be_value(b@)),
{
    match distance_cmp(a, b) {
        std::cmp::Ordering::Less => true,
        _ => false,
    }
}

/// Finds the bucket of `other` in the table of `self_id`: 0 for the most different
/// identifiers, 255 for the closest ones and for `self_id` itself.
pub fn bucket_index(self_id: &NodeId, other: &NodeId) -> (index: usize)
    ensures
        index == bucket_of(*self_id, *other),
        index < 256,
{
    let distance = xor_distance(self_id, other);
    assert(distance@.skip(0) =~= distance@);
    for i in 0..32usize
        invariant
            distance@ == xor_bytes(*self_id, *other),
            forall|j: int| 0 <= j < i ==> distance[j] == 0,
            leading_zero_bits(distance@) == 8 * i + leading_zero_bits(distance@.skip(i as int)),
    {
        let byte = distance[i];
        proof {
            axiom_u8_leading_zeros(byte);
            assert(distance@.skip(i as int)[0] == byte);
            assert(distance@.skip(i as int).drop_first() =~= distance@.skip(i + 1));
        }
        if byte != 0 {
            let leading = byte.leading_zeros() as usize;
            proof {
                if *self_id == *other {
                    lemma_xor_byte(self_id[i as int], other[i as int]);
                    assert(distance@[i as int] == self_id[i as int] ^ other[i as int]);
                }
            }
            return i * 8 + leading;
        }
    }
    proof {
        assert forall|j: int| 0 <= j < 32 implies self_id[j] == other[j] by {
            lemma_xor_byte(self_id[j], other[j]);
            assert(distance@[j] == self_id[j] ^ other[j]);
        }
        assert(*self_id =~= *other);
    }
    255
}

proof fn lemma_xor_byte(a: u8, b: u8)
    ensures
        a ^ b == b ^ a,
        a ^ b == 0 <==> a == b,
        a ^ (a ^ b) == b,
{
    assert(a ^ b == b ^ a) by (bit_vector);
    assert(a ^ b == 0 <==> a == b) by (bit_vector);
    assert(a ^ (a ^ b) == b) by (bit_vector);
}

/// Of two byte strings of one length, the first byte in which they differ decides which of
/// them spells the smaller number.
pub proof fn lemma_first_difference_decides(a: Seq<u8>, b: Seq<u8>, i: int)
    requires
        a.len() == b.len(),
        0 <= i < a.len(),
        forall|j: int| 0 <= j < i ==> a[j] == b[j],
        a[i] < b[i],
    ensures
        be_value(a) < be_value(b),
    decreases a.len(),
{
    if i == a.len() - 1 {
        assert(a.drop_last() =~= b.drop_last());
    } else {
        lemma_first_difference_decides(a.drop_last(), b.drop_last(), i);
    }
}

/// Two byte strings of one length that spell the same number are the same.
pub proof fn lemma_be_value_injective(a: Seq<u8>, b: Seq<u8>)
    requires
        a.len() == b.len(),
        be_value(a) == be_value(b),
    ensures
        a == b,
    decreases a.len(),
{
    if a.len() == 0 {
        assert(a =~= b);
    } else {
        lemma_be_value_injective(a.drop_last(), b.drop_last());
        assert(a =~= a.drop_last().push(a.last()));
        assert(b =~= b.drop_last().push(b.last()));
    }
}

/// An identifier is at distance zero from itself, and from no other.
pub proof fn lemma_distance_zero_iff_same(a: NodeId, b: NodeId)
    ensures
        dist(a, b) == 0 <==> a == b,
        a == b ==> xor_bytes(a, b) == Seq::new(32, |i: int| 0u8),
{
    let zeros = Seq::new(32, |i: int| 0u8);
    lemma_zeros_spell_zero(32);
    assert forall|i: int| 0 <= i < 32 implies (xor_bytes(a, b)[i] == 0 <==> a[i] == b[i]) by {
        lemma_xor_byte(a[i], b[i]);
    }
    if a == b {
        assert(xor_bytes(a, b) =~= zeros);
    }
    if dist(a, b) == 0 {
        lemma_be_value_injective(xor_bytes(a, b), zeros);
        assert forall|i: int| 0 <= i < 32 implies a[i] == b[i] by {
            assert(xor_bytes(a, b)[i] == zeros[i]);
        }
        assert(a =~= b);
    }
}

proof fn lemma_zeros_spell_zero(n: nat)
    ensures
        be_value(Seq::new(n, |i: int| 0u8)) == 0,
    decreases n,
{
    if n > 0 {
        lemma_zeros_spell_zero((n - 1) as nat);
        assert(Seq::new(n, |i: int| 0u8).drop_last() =~= Seq::new((n - 1) as nat, |i: int| 0u8));
    }
}

/// The distance is the same in both directions.
pub proof fn lemma_distance_symmetric(a: NodeId, b: NodeId)
    ensures
        xor_bytes(a, b) == xor_bytes(b, a),
        dist(a, b) == dist(b, a),
{
    assert forall|i: int| 0 <= i < 32 implies xor_bytes(a, b)[i] == xor_bytes(b, a)[i] by {
        lemma_xor_byte(a[i], b[i]);
    }
    assert(xor_bytes(a, b) =~= xor_bytes(b, a));
}

/// Seen from one target, no two identifiers are at the same distance.
pub proof fn lemma_distance_unique(a: NodeId, b: NodeId, target: NodeId)
    ensures
        dist(a, target) == dist(b, target) <==> a == b,
{
    if dist(a, target) == dist(b, target) {
        lemma_be_value_injective(xor_bytes(a, target), xor_bytes(b, target));
        assert forall|i: int| 0 <= i < 32 implies a[i] == b[i] by {
            assert(xor_bytes(a, target)[i] == xor_bytes(b, target)[i]);
            lemma_xor_byte(a[i], target[i]);
            lemma_xor_byte(b[i], target[i]);
            lemma_xor_byte(target[i], a[i]);
            lemma_xor_byte(target[i], b[i]);
        }
        assert(a =~= b);
    }
}

proof fn lemma_be_value_split_first(bytes: Seq<u8>)
    requires
        bytes.len() > 0,
    ensures
        be_value(bytes) == bytes[0] * pow2((8 * (bytes.len() - 1)) as nat) + be_value(
            bytes.drop_first(),
        ),
    decreases bytes.len(),
{
    lemma2_to64();
    if bytes.len() == 1 {
        assert(bytes.drop_last() =~= Seq::<u8>::empty());
        assert(bytes.drop_first() =~= Seq::<u8>::empty());
        assert(be_value(bytes) == bytes[0]);
        assert(bytes[0] * pow2(0) == bytes[0]) by {
            assert(pow2(0) == 1);
        }
    } else {
        let front = bytes.drop_last();
        lemma_be_value_split_first(front);
        assert(bytes.drop_first().drop_last() =~= front.drop_first());
        let low = (8 * (front.len() - 1)) as nat;
        lemma_pow2_adds(low, 8);
        assert(low + 8 == 8 * (bytes.len() - 1));
        let p = pow2(low) as int;
        let x = bytes[0] as int;
        let v = be_value(front.drop_first()) as int;
        assert(front[0] == bytes[0]);
        assert(bytes.drop_first().last() == bytes.last());
        assert(pow2((8 * (bytes.len() - 1)) as nat) == p * 256);
        assert((x * p + v) * 256 == x * (p * 256) + v * 256) by (nonlinear_arith);
    }
}

proof fn lemma_byte_range(byte: u8)
    requires
        byte != 0,
    ensures
        0 <= u8_leading_zeros(byte) < 8,
        pow2((7 - u8_leading_zeros(byte)) as nat) <= byte < pow2((8 - u8_leading_zeros(byte)) as nat),
{
    axiom_u8_leading_zeros(byte);
    lemma2_to64();
    let lz = u8_leading_zeros(byte) as u8;
    let low = (8 - lz) as u8;
    let top = (7 - lz) as u8;
    assert(byte >> low == 0);
    assert((byte >> top) & 1u8 != 0u8);
    assert(byte >> 8u8 == 0 && (byte >> 7u8) & 1u8 != 0u8 ==> 128 <= byte) by (bit_vector);
    assert(byte >> 7u8 == 0 && (byte >> 6u8) & 1u8 != 0u8 ==> 64 <= byte < 128) by (bit_vector);
    assert(byte >> 6u8 == 0 && (byte >> 5u8) & 1u8 != 0u8 ==> 32 <= byte < 64) by (bit_vector);
    assert(byte >> 5u8 == 0 && (byte >> 4u8) & 1u8 != 0u8 ==> 16 <= byte < 32) by (bit_vector);
    assert(byte >> 4u8 == 0 && (byte >> 3u8) & 1u8 != 0u8 ==> 8 <= byte < 16) by (bit_vector);
    assert(byte >> 3u8 == 0 && (byte >> 2u8) & 1u8 != 0u8 ==> 4 <= byte < 8) by (bit_vector);
    assert(byte >> 2u8 == 0 && (byte >> 1u8) & 1u8 != 0u8 ==> 2 <= byte < 4) by (bit_vector);
    assert(byte >> 1u8 == 0 && (byte >> 0u8) & 1u8 != 0u8 ==> 1 <= byte < 2) by (bit_vector);
}

proof fn lemma_be_value_range(bytes: Seq<u8>)
    ensures
        leading_zero_bits(bytes) <= 8 * bytes.len(),
        be_value(bytes) < pow2((8 * bytes.len() - leading_zero_bits(bytes)) as nat),
        leading_zero_bits(bytes) < 8 * bytes.len() ==> pow2(
            (8 * bytes.len() - leading_zero_bits(bytes) - 1) as nat,
        ) <= be_value(bytes),
        leading_zero_bits(bytes) == 8 * bytes.len() ==> be_value(bytes) == 0,
    decreases bytes.len(),
{
    lemma2_to64();
    if bytes.len() > 0 {
        let rest = bytes.drop_first();
        let low = (8 * rest.len()) as nat;
        lemma_be_value_range(rest);
        lemma_be_value_split_first(bytes);
        if bytes[0] != 0 {
            lemma_byte_range(bytes[0]);
            let lz = u8_leading_zeros(bytes[0]) as int;
            let x = bytes[0] as int;
            let p = pow2(low) as int;
            let hi = pow2((8 - lz) as nat) as int;
            let lo = pow2((7 - lz) as nat) as int;
            let v = be_value(rest) as int;
            lemma_pow2_adds((8 - lz) as nat, low);
            lemma_pow2_adds((7 - lz) as nat, low);
            lemma_be_value_bound(rest);
            assert(lo * p <= x * p) by (nonlinear_arith)
                requires
                    lo <= x,
                    0 <= p,
            ;
            assert(x * p + v < hi * p) by (nonlinear_arith)
                requires
                    x + 1 <= hi,
                    0 <= v < p,
            ;
        }
    }
}

proof fn lemma_be_value_bound(bytes: Seq<u8>)
    ensures
        be_value(bytes) < pow2((8 * bytes.len()) as nat),
    decreases bytes.len(),
{
    lemma2_to64();
    if bytes.len() > 0 {
        lemma_be_value_bound(bytes.drop_last());
        lemma_pow2_adds((8 * (bytes.len() - 1)) as nat, 8);
    }
}

/// Bucket `i` holds the identifiers at a distance from 2^(255-i) up to 2^(256-i).
pub proof fn lemma_bucket_covers_distance_range(self_id: NodeId, other: NodeId)
    requires
        self_id != other,
    ensures
        0 <= bucket_of(self_id, other) < 256,
        pow2((255 - bucket_of(self_id, other)) as nat) <= dist(self_id, other),
        dist(self_id, other) < pow2((256 - bucket_of(self_id, other)) as nat),
{
    lemma_be_value_range(xor_bytes(self_id, other));
    lemma_distance_zero_iff_same(self_id, other);
}

/// Identifiers that share more leading bits with a node are nearer to it.
pub proof fn lemma_deeper_bucket_is_nearer(self_id: NodeId, a: NodeId, b: NodeId)
    requires
        bucket_of(self_id, a) > bucket_of(self_id, b),
    ensures
        dist(a, self_id) < dist(b, self_id),
{
    lemma_distance_symmetric(self_id, a);
    lemma_distance_symmetric(self_id, b);
    lemma_distance_zero_iff_same(self_id, a);
    lemma_distance_zero_iff_same(self_id, b);
    if self_id != a {
        lemma_bucket_covers_distance_range(self_id, a);
    }
    if self_id == b {
        assert(false);
    }
    lemma_bucket_covers_distance_range(self_id, b);
    if self_id != a {
        let ia = bucket_of(self_id, a);
        let ib = bucket_of(self_id, b);
        if ia - 1 > ib {
            lemma_pow2_strictly_increases((256 - ia) as nat, (255 - ib) as nat);
        }
    }
}

proof fn lemma_leading_zero_position(bytes: Seq<u8>)
    ensures
        ({
            let r = leading_zero_bits(bytes) as int;
            r < 8 * bytes.len() ==> {
                &&& forall|j: int| 0 <= j < r / 8 ==> bytes[j] == 0
                &&& bytes[r / 8] != 0
                &&& u8_leading_zeros(bytes[r / 8]) == r % 8
            }
        }),
    decreases bytes.len(),
{
    if bytes.len() > 0 {
        axiom_u8_leading_zeros(bytes[0]);
        if bytes[0] == 0 {
            let rest = bytes.drop_first();
            lemma_leading_zero_position(rest);
            let r = leading_zero_bits(bytes) as int;
            if r < 8 * bytes.len() {
                assert((r - 8) / 8 == r / 8 - 1);
                assert((r - 8) % 8 == r % 8);
                assert forall|j: int| 0 <= j < r / 8 implies bytes[j] == 0 by {
                    if j > 0 {
                        assert(rest[j - 1] == 0);
                    }
                }
                assert(bytes[r / 8] == rest[r / 8 - 1]);
            }
        }
    }
}

proof fn lemma_xor_bit(a: u8, b: u8, s: u8)
    requires
        s < 8,
    ensures
        ((a ^ b) >> s) & 1u8 == 0u8 <==> ((a >> s) & 1u8 == 1u8) == ((b >> s) & 1u8 == 1u8),
{
    assert(((a ^ b) >> s) & 1u8 == 0u8 <==> ((a >> s) & 1u8 == 1u8) == ((b >> s) & 1u8 == 1u8))
        by (bit_vector)
        requires
            s < 8,
    ;
}

/// The bucket of another identifier is the position of the first bit in which it differs.
pub proof fn lemma_bucket_is_first_differing_bit(self_id: NodeId, other: NodeId)
    requires
        self_id != other,
    ensures
        id_bit(self_id, bucket_of(self_id, other)) != id_bit(other, bucket_of(self_id, other)),
        forall|p: int|
            0 <= p < bucket_of(self_id, other) ==> #[trigger] id_bit(self_id, p) == id_bit(other, p),
{
    let r = bucket_of(self_id, other);
    let x = xor_bytes(self_id, other);
    lemma_bucket_covers_distance_range(self_id, other);
    lemma_leading_zero_position(x);
    axiom_u8_leading_zeros(x[r / 8]);
    let s = (7 - r % 8) as u8;
    lemma_xor_bit(self_id[r / 8], other[r / 8], s);
    assert(id_bit(self_id, r) != id_bit(other, r));
    assert forall|p: int| 0 <= p < r implies #[trigger] id_bit(self_id, p) == id_bit(other, p) by {
        let t = (7 - p % 8) as u8;
        lemma_xor_bit(self_id[p / 8], other[p / 8], t);
        if p / 8 < r / 8 {
            assert(x[p / 8] == 0);
            assert((0u8 >> t) & 1u8 == 0u8) by (bit_vector)
                requires
                    t < 8,
            ;
        } else {
            assert(p / 8 == r / 8);
            assert((x[r / 8] >> t) & 1u8 == 0u8);
        }
    }
}

/// A node's own identifier belongs to the last bucket, and no other identifier to a later one.
pub proof fn lemma_own_bucket_is_last(self_id: NodeId, other: NodeId)
    ensures
        bucket_of(self_id, self_id) == 255,
        bucket_of(self_id, other) <= bucket_of(self_id, self_id),
{
    if self_id != other {
        lemma_bucket_covers_distance_range(self_id, other);
    }
}

} // verus!
