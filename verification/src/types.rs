use vstd::prelude::*;

verus! {

/// The identifier a user gives to a vector.
pub type VectorId = u64;

/// The bit pattern of one `f32` coordinate or distance (`f32::to_bits`).
pub type ScalarBits = u32;

/// Defines the mathematical space used to calculate distances between vectors.
#[derive(Debug, Clone, Copy, PartialEq, Eq, Structural)]
pub enum DistanceMetric {
    /// Cosine distance. Best for normalized embeddings.
    Cosine,
    /// Squared Euclidean distance. Best for raw spatial data or computer
    /// vision embeddings.
    L2Squared,
}

/// The position of an `f32` bit pattern in the total order used to rank
/// distances: negative patterns (sign bit set) come first, in reverse,
/// then non-negative ones, in order. For two non-NaN floats `a < b`
/// implies `order_key(a) < order_key(b)`.
pub open spec fn order_key(bits: u32) -> u32 {
    if bits >= 0x8000_0000 {
        (0xFFFF_FFFFu32 - bits) as u32
    } else {
        (bits + 0x8000_0000u32) as u32
    }
}

/// Computes `order_key` of a distance bit pattern.
pub fn distance_key(bits: u32) -> (key: u32)
    ensures
        key == order_key(bits),
{
    if bits >= 0x8000_0000 {
        0xFFFF_FFFFu32 - bits
    } else {
        bits + 0x8000_0000u32
    }
}

/// The ranking of distances follows the bit patterns: among non-negative
/// patterns (sign bit clear) a larger pattern ranks later, among negative
/// ones a larger pattern ranks earlier, and every negative pattern ranks
/// before every non-negative one. Distinct patterns never tie.
pub proof fn lemma_order_key_ranking(a: u32, b: u32)
    ensures
        a < 0x8000_0000 && b < 0x8000_0000 ==> (order_key(a) < order_key(b) <==> a < b),
        a >= 0x8000_0000 && b >= 0x8000_0000 ==> (order_key(a) < order_key(b) <==> b < a),
        a >= 0x8000_0000 && b < 0x8000_0000 ==> order_key(a) < order_key(b),
        a != b ==> order_key(a) != order_key(b),
{
}

} // verus!
