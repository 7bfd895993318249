//! Byte search over slices: the first or the last position of a byte.
//!
//! The lane-wise searches walk the haystack a word of eight bytes at a time,
//! reduce each word to the flags of its matching lanes and pick the answer
//! from the flags; what is left over is searched byte by byte.

use crate::lanes::{first_flag, lane, lane_flag, last_flag, load_lanes, match_lanes};
use vstd::prelude::*;
use vstd::slice::slice_subrange;

verus! {

/// The byte that ends a line.
pub const NEW_LINE_BYTE: u8 = 10;

/// The byte between a station name and its temperature.
pub const SEMICOLON_BYTE: u8 = 59;

/// `needle` does not occur in `s`.
pub open spec fn absent(s: Seq<u8>, needle: u8) -> bool {
    forall|j: int| 0 <= j < s.len() ==> s[j] != needle
}

/// `i` is the position of the first `needle` in `s`.
pub open spec fn is_first_index(s: Seq<u8>, needle: u8, i: int) -> bool {
    &&& 0 <= i < s.len()
    &&& s[i] == needle
    &&& forall|j: int| 0 <= j < i ==> s[j] != needle
}

/// `i` is the position of the last `needle` in `s`.
pub open spec fn is_last_index(s: Seq<u8>, needle: u8, i: int) -> bool {
    &&& 0 <= i < s.len()
    &&& s[i] == needle
    &&& forall|j: int| i < j < s.len() ==> s[j] != needle
}

/// What a forward search returns: the first position, or nothing when the byte
/// is absent.
pub open spec fn is_first_match(s: Seq<u8>, needle: u8, r: Option<usize>) -> bool {
    match r {
        Some(i) => is_first_index(s, needle, i as int),
        None => absent(s, needle),
    }
}

/// What a backward search returns: the last position, or nothing when the byte
/// is absent.
pub open spec fn is_last_match(s: Seq<u8>, needle: u8, r: Option<usize>) -> bool {
    match r {
        Some(i) => is_last_index(s, needle, i as int),
        None => absent(s, needle),
    }
}

/// The first position of `needle` at or after `from`, or `s.len()` when there
/// is none.
pub open spec fn next_index(s: Seq<u8>, needle: u8, from: int) -> int
    decreases s.len() - from,
{
    if from >= s.len() {
        s.len() as int
    } else if s[from] == needle {
        from
    } else {
        next_index(s, needle, from + 1)
    }
}

/// `next_index` stays inside the sequence, skips no match and stops on one.
pub proof fn lemma_next_index(s: Seq<u8>, needle: u8, from: int)
    requires
        0 <= from <= s.len(),
    ensures
        from <= next_index(s, needle, from) <= s.len(),
        forall|j: int| from <= j < next_index(s, needle, from) ==> s[j] != needle,
        next_index(s, needle, from) < s.len() ==> s[next_index(s, needle, from)] == needle,
    decreases s.len() - from,
{
    if from < s.len() && s[from] != needle {
        lemma_next_index(s, needle, from + 1);
    }
}

/// Any position that skips no match and stops on one, or at the end, is
/// `next_index`.
pub proof fn lemma_next_index_unique(s: Seq<u8>, needle: u8, from: int, at: int)
    requires
        0 <= from <= at <= s.len(),
        forall|j: int| from <= j < at ==> s[j] != needle,
        at < s.len() ==> s[at] == needle,
    ensures
        next_index(s, needle, from) == at,
    decreases at - from,
{
    if from < at {
        lemma_next_index_unique(s, needle, from + 1, at);
    }
}

/// A forward search of the rest of `s` from `from` locates `next_index`.
pub proof fn lemma_next_index_of_match(s: Seq<u8>, needle: u8, from: int, r: Option<usize>)
    requires
        0 <= from <= s.len(),
        is_first_match(s.subrange(from, s.len() as int), needle, r),
    ensures
        next_index(s, needle, from) == match r {
            Some(i) => from + i,
            None => s.len() as int,
        },
{
    let rest = s.subrange(from, s.len() as int);
    let at = match r {
        Some(i) => from + i,
        None => s.len() as int,
    };
    assert forall|j: int| from <= j < at implies s[j] != needle by {
        assert(rest[j - from] == s[j]);
    }
    lemma_next_index_unique(s, needle, from, at);
}

/// The first position of `needle` in `haystack`, found by `memchr::memchr`.
///
/// Trusted: the contract restates that function's documentation, which promises
/// the index of the first occurrence, or `None` when there is none.
#[verifier::external_body]
pub(crate) fn find_byte(needle: u8, haystack: &[u8]) -> (r: Option<usize>)
    ensures
        is_first_match(haystack@, needle, r),
{
    memchr::memchr(needle, haystack)
}

/// The first position of `needle` in `haystack`, or `None` when it is absent.
///
/// Blocks of 32 bytes are searched four words at a time, each word reduced to
/// the flags of its matching lanes, of which the lowest is the first match;
/// the tail shorter than a block is searched byte by byte.
pub fn search_u8_avx2(haystack: &[u8], needle: u8) -> (r: Option<usize>)
    ensures
        is_first_match(haystack@, needle, r),
{
    let len: usize = haystack.len();
    let mut i: usize = 0;
    while len - i >= 32
        invariant
            i <= len == haystack@.len(),
            forall|j: int| 0 <= j < i ==> haystack@[j] != needle,
        decreases len - i,
    {
        let mut words: usize = 0;
        while words < 4
            invariant
                words <= 4,
                i + 32 <= len == haystack@.len(),
                forall|j: int| 0 <= j < i + 8 * words ==> haystack@[j] != needle,
            decreases 4 - words,
        {
            let at: usize = i + 8 * words;
            let word: u64 = load_lanes(haystack, at);
            let flags: u64 = match_lanes(word, needle);
            if flags != 0 {
                let k: usize = first_flag(flags);
                proof {
                    assert forall|j: int| at <= j < at + k implies haystack@[j] != needle by {
                        let before = (j - at) as u64;
                        assert(!lane_flag(flags, before));
                    }
                }
                return Some(at + k);
            }
            proof {
                assert forall|j: int| at <= j < at + 8 implies haystack@[j] != needle by {
                    assert(lane(word, (j - at) as u64) == haystack@[j]);
                }
            }
            words = words + 1;
        }
        i = i + 32;
    }
    while i < len
        invariant
            i <= len == haystack@.len(),
            forall|j: int| 0 <= j < i ==> haystack@[j] != needle,
        decreases len - i,
    {
        if haystack[i] == needle {
            return Some(i);
        }
        i = i + 1;
    }
    None
}

/// The last position of `needle` in `haystack`, or `None` when it is absent.
///
/// The haystack is walked from its end a word of 8 bytes at a time, each word
/// reduced to the flags of its matching lanes, of which the highest is the
/// last match; the head shorter than a word is searched byte by byte,
/// backwards.
pub fn search_u8_sse2_reverse(haystack: &[u8], needle: u8) -> (r: Option<usize>)
    ensures
        is_last_match(haystack@, needle, r),
{
    let len: usize = haystack.len();
    let mut i: usize = len;
    while i >= 8
        invariant
            i <= len == haystack@.len(),
            forall|j: int| i <= j < len ==> haystack@[j] != needle,
        decreases i,
    {
        i = i - 8;
        let word: u64 = load_lanes(haystack, i);
        let flags: u64 = match_lanes(word, needle);
        if flags != 0 {
            let k: usize = last_flag(flags);
            proof {
                assert forall|j: int| i + k < j < i + 8 implies haystack@[j] != needle by {
                    let after = (j - i) as u64;
                    assert(!lane_flag(flags, after));
                }
            }
            return Some(i + k);
        }
        proof {
            assert forall|j: int| i <= j < i + 8 implies haystack@[j] != needle by {
                assert(lane(word, (j - i) as u64) == haystack@[j]);
            }
        }
    }
    while i > 0
        invariant
            i <= len == haystack@.len(),
            forall|j: int| i <= j < len ==> haystack@[j] != needle,
        decreases i,
    {
        i = i - 1;
        if haystack[i] == needle {
            return Some(i);
        }
    }
    None
}

/// Where the first `needle` at or after `from` lies in `data`: `data.len()`
/// when there is none.
pub fn find_from(data: &[u8], needle: u8, from: usize) -> (at: usize)
    requires
        from <= data@.len(),
    ensures
        at == next_index(data@, needle, from as int),
        from <= at <= data@.len(),
{
    let rest = slice_subrange(data, from, data.len());
    let found = find_byte(needle, rest);
    proof {
        lemma_next_index_of_match(data@, needle, from as int, found);
    }
    match found {
        Some(i) => from + i,
        None => data.len(),
    }
}

} // verus!
