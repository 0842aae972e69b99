//! The zigzag mapping between signed integers and unsigned bit patterns of the
//! same width: 0, -1, 1, -2, 2, ... map to 0, 1, 2, 3, 4, ...
use vstd::prelude::*;

verus! {

/// Zigzag image of a signed value: non-negative `v` goes to `2v`, negative `v` to `-2v - 1`.
pub open spec fn zigzag(v: int) -> int {
    if v >= 0 {
        2 * v
    } else {
        -2 * v - 1
    }
}

/// Inverse of `zigzag`: even `u` goes back to `u / 2`, odd `u` to `-(u / 2) - 1`.
pub open spec fn unzigzag(u: int) -> int {
    if u % 2 == 0 {
        u / 2
    } else {
        -(u / 2) - 1
    }
}

/// Maps a signed 32-bit value to its unsigned zigzag pattern (total, `i32::MIN` included).
pub fn zigzag_encode_32(src: i32) -> (r: u32)
    ensures
        r == zigzag(src as int),
{
    if src >= 0 {
        (src as u32) * 2
    } else {
        ((-(src + 1)) as u32) * 2 + 1
    }
}

/// Maps an unsigned 32-bit zigzag pattern back to the signed value it stands for.
pub fn zigzag_decode_32(src: u32) -> (r: i32)
    ensures
        r == unzigzag(src as int),
{
    if src % 2 != 0 {
        -((src / 2) as i32) - 1
    } else {
        (src / 2) as i32
    }
}

/// Maps a signed 64-bit value to its unsigned zigzag pattern (total, `i64::MIN` included).
pub fn zigzag_encode_64(src: i64) -> (r: u64)
    ensures
        r == zigzag(src as int),
{
    if src >= 0 {
        (src as u64) * 2
    } else {
        ((-(src + 1)) as u64) * 2 + 1
    }
}

/// Maps an unsigned 64-bit zigzag pattern back to the signed value it stands for.
pub fn zigzag_decode_64(src: u64) -> (r: i64)
    ensures
        r == unzigzag(src as int),
{
    if src % 2 != 0 {
        -((src / 2) as i64) - 1
    } else {
        (src / 2) as i64
    }
}

/// Every signed value comes back from its zigzag pattern, which is never negative.
pub proof fn lemma_zigzag_round_trip(v: int)
    ensures
        zigzag(v) >= 0,
        unzigzag(zigzag(v)) == v,
{
}

/// Every unsigned pattern comes back from the signed value it stands for.
pub proof fn lemma_unzigzag_round_trip(u: nat)
    ensures
        zigzag(unzigzag(u as int)) == u,
{
}

} // verus!
