//! Eight bytes at a time: a word taken as eight lanes of one byte each, the
//! first byte in the lowest lane.
//!
//! A comparison or a subtraction is done on all eight lanes with a few
//! operations on the word, arranged so that no lane disturbs its neighbour.

use vstd::prelude::*;
use vstd::std_specs::bits::{axiom_u64_leading_zeros, axiom_u64_trailing_zeros};

verus! {

/// The number of lanes in a word.
pub const LANES: usize = 8;

/// The top bit of every lane.
pub const LANE_TOPS: u64 = 0x8080808080808080;

/// All bits of every lane but the top one.
pub const LANE_LOWS: u64 = 0x7f7f7f7f7f7f7f7f;

/// The lowest bit of every lane.
pub const LANE_ONES: u64 = 0x0101010101010101;

/// Lane `k` of `word`: its byte number `k`, counted from the low end.
pub open spec fn lane(word: u64, k: u64) -> u8 {
    ((word >> (8 * k)) & 0xff) as u8
}

/// The top bit of lane `k` of `flags` is set.
pub open spec fn lane_flag(flags: u64, k: u64) -> bool {
    (flags >> (8 * k + 7)) & 1 == 1
}

/// Only top bits of lanes are set in `flags`.
pub open spec fn only_flags(flags: u64) -> bool {
    flags & 0x7f7f7f7f7f7f7f7f == 0
}

/// `byte` taken from one lane: a lane below `byte` wraps round.
pub open spec fn lane_difference(lane: u8, byte: u8) -> u8 {
    if lane >= byte {
        (lane - byte) as u8
    } else {
        (lane + 256 - byte) as u8
    }
}

/// Every lane of zero is zero.
proof fn lemma_lane_of_zero(k: u64)
    requires
        k < 8,
    ensures
        lane(0, k) == 0,
{
    assert((0u64 >> (8 * k)) & 0xff == 0) by (bit_vector)
        requires
            k < 8,
    ;
}

/// A byte put into an empty lane shows in that lane and in no other.
proof fn lemma_lane_insert(word: u64, b: u8, k: u64, j: u64)
    requires
        k < 8,
        j < 8,
        forall|i: u64| k <= i < 8 ==> lane(word, i) == 0,
    ensures
        lane(word | ((b as u64) << (8 * k)), j) == (if j == k {
            b
        } else {
            lane(word, j)
        }),
{
    let wide: u64 = b as u64;
    let next: u64 = word | (wide << (8 * k));
    assert((word >> (8 * k)) & 0xff < 256 && (word >> (8 * j)) & 0xff < 256 && (next >> (8 * j))
        & 0xff < 256) by (bit_vector);
    assert(lane(word, k) == 0);
    assert(((word | (wide << (8 * k))) >> (8 * j)) & 0xff == (if j == k {
        wide
    } else {
        (word >> (8 * j)) & 0xff
    })) by (bit_vector)
        requires
            k < 8,
            j < 8,
            wide < 256,
            (word >> (8 * k)) & 0xff == 0,
    ;
}

/// The lane-wise subtraction leaves in each lane the difference of that lane
/// alone, wrapped to a byte.
proof fn lemma_sub_lane(word: u64, wide: u64, spread: u64, r: u64, k: u64)
    by (bit_vector)
    requires
        wide < 256,
        k < 8,
        spread == (wide * 0x0101010101010101u64) as u64,
        r == (((word | 0x8080808080808080u64) - (spread & 0x7f7f7f7f7f7f7f7fu64)) as u64) ^ ((
        word ^ !spread) & 0x8080808080808080u64),
    ensures
        (r >> (8 * k)) & 0xff == (((word >> (8 * k)) & 0xff) + 256 - wide) % 256,
        (r >> (8 * k)) & 0xff < 256,
        (word >> (8 * k)) & 0xff < 256,
{
}

/// The lane-wise comparison flags a lane exactly where it holds the byte.
proof fn lemma_match_lane(word: u64, wide: u64, spread: u64, flags: u64, k: u64)
    by (bit_vector)
    requires
        wide < 256,
        k < 8,
        spread == (wide * 0x0101010101010101u64) as u64,
        flags == !((((((word ^ spread) & 0x7f7f7f7f7f7f7f7fu64) + 0x7f7f7f7f7f7f7f7fu64) as u64)
            | (word ^ spread)) & 0x8080808080808080u64) & 0x8080808080808080u64,
    ensures
        ((flags >> (8 * k + 7)) & 1 == 1) <==> ((word >> (8 * k)) & 0xff == wide),
        (word >> (8 * k)) & 0xff < 256,
        flags & 0x7f7f7f7f7f7f7f7fu64 == 0,
{
}

/// Zero flags no lane.
proof fn lemma_no_flag(k: u64)
    requires
        k < 8,
    ensures
        !lane_flag(0, k),
{
    assert((0u64 >> (8 * k + 7)) & 1 == 0) by (bit_vector)
        requires
            k < 8,
    ;
}

/// A bit set among flags is the top bit of its lane.
proof fn lemma_flag_position(flags: u64, b: u64)
    by (bit_vector)
    requires
        flags & 0x7f7f7f7f7f7f7f7fu64 == 0,
        b < 64,
        (flags >> b) & 1 != 0,
    ensures
        b % 8 == 7,
        (flags >> b) & 1 == 1,
{
}

/// Eight bytes of `slice` from `index` on, packed into one word with the first
/// byte in the lowest lane; lanes past the end of the slice are zero.
pub fn load_lanes(slice: &[u8], index: usize) -> (word: u64)
    requires
        index <= slice@.len(),
    ensures
        forall|k: u64|
            k < 8 ==> #[trigger] lane(word, k) == (if index + k < slice@.len() {
                slice@[index + k]
            } else {
                0
            }),
{
    let len: usize = slice.len();
    let mut word: u64 = 0;
    let mut k: u64 = 0;
    proof {
        assert forall|i: u64| i < 8 implies #[trigger] lane(word, i) == 0 by {
            lemma_lane_of_zero(i);
        }
    }
    while k < 8 && index + (k as usize) < len
        invariant
            k <= 8,
            index <= len == slice@.len(),
            index + k <= len,
            forall|i: u64| i < k ==> #[trigger] lane(word, i) == slice@[index + i],
            forall|i: u64| k <= i < 8 ==> #[trigger] lane(word, i) == 0,
        decreases 8 - k,
    {
        let ghost before = word;
        let b: u8 = slice[index + k as usize];
        word = word | ((b as u64) << (8 * k));
        proof {
            assert forall|i: u64| i < 8 implies #[trigger] lane(word, i) == (if i == k {
                b
            } else {
                lane(before, i)
            }) by {
                lemma_lane_insert(before, b, k, i);
            }
        }
        k = k + 1;
    }
    word
}

/// Lane `k` of `word`.
pub fn extract_lane(word: u64, k: u64) -> (b: u8)
    requires
        k < 8,
    ensures
        b == lane(word, k),
{
    let shifted: u64 = (word >> (8 * k)) & 0xff;
    shifted as u8
}

/// `byte` taken from each of the eight lanes of `word` at once, every lane on
/// its own.
///
/// The top bit of every lane is set before the subtraction, so that no lane
/// borrows from its neighbour, and put right afterwards.
pub fn sub_lanes(word: u64, byte: u8) -> (r: u64)
    ensures
        forall|k: u64| k < 8 ==> #[trigger] lane(r, k) == lane_difference(lane(word, k), byte),
{
    let spread: u64 = (byte as u64) * LANE_ONES;
    assert((word | 0x8080808080808080u64) >= (spread & 0x7f7f7f7f7f7f7f7fu64)) by (bit_vector);
    let r: u64 = ((word | LANE_TOPS) - (spread & LANE_LOWS)) ^ ((word ^ !spread) & LANE_TOPS);
    proof {
        assert forall|k: u64| k < 8 implies #[trigger] lane(r, k) == lane_difference(
            lane(word, k),
            byte,
        ) by {
            lemma_sub_lane(word, byte as u64, spread, r, k);
        }
    }
    r
}

/// The lanes of `word` that hold `needle`, flagged by their top bits: the top
/// bit of a lane is set where the lane is `needle`, and no other bit is set.
///
/// Each lane is first turned to zero where it matches. The low seven bits of a
/// lane then carry into its top bit, and into no other lane, exactly where one
/// of them is set.
pub fn match_lanes(word: u64, needle: u8) -> (flags: u64)
    ensures
        forall|k: u64| k < 8 ==> (#[trigger] lane_flag(flags, k) <==> lane(word, k) == needle),
        only_flags(flags),
        flags == 0 ==> forall|k: u64| k < 8 ==> #[trigger] lane(word, k) != needle,
{
    let spread: u64 = (needle as u64) * LANE_ONES;
    let differing: u64 = word ^ spread;
    assert((differing & 0x7f7f7f7f7f7f7f7fu64) + 0x7f7f7f7f7f7f7f7fu64 <= 0xffff_ffff_ffff_ffffu64)
        by (bit_vector);
    let carried: u64 = (differing & LANE_LOWS) + LANE_LOWS;
    let flags: u64 = !((carried | differing) & LANE_TOPS) & LANE_TOPS;
    proof {
        lemma_match_lane(word, needle as u64, spread, flags, 0);
        assert forall|k: u64| k < 8 implies (#[trigger] lane_flag(flags, k) <==> lane(word, k)
            == needle) by {
            lemma_match_lane(word, needle as u64, spread, flags, k);
        }
        if flags == 0 {
            assert forall|k: u64| k < 8 implies #[trigger] lane(word, k) != needle by {
                lemma_no_flag(k);
            }
        }
    }
    flags
}

/// The lowest flagged lane.
pub fn first_flag(flags: u64) -> (k: usize)
    requires
        flags != 0,
        only_flags(flags),
    ensures
        k < 8,
        lane_flag(flags, k as u64),
        forall|j: u64| j < k ==> !lane_flag(flags, j),
{
    let bit: u32 = flags.trailing_zeros();
    proof {
        axiom_u64_trailing_zeros(flags);
        lemma_flag_position(flags, bit as u64);
    }
    (bit / 8) as usize
}

/// The highest flagged lane.
pub fn last_flag(flags: u64) -> (k: usize)
    requires
        flags != 0,
        only_flags(flags),
    ensures
        k < 8,
        lane_flag(flags, k as u64),
        forall|j: u64| k < j < 8 ==> !lane_flag(flags, j),
{
    let bit: u32 = 63 - flags.leading_zeros();
    proof {
        axiom_u64_leading_zeros(flags);
        lemma_flag_position(flags, bit as u64);
    }
    (bit / 8) as usize
}

} // verus!
