use vstd::prelude::*;
use vstd::string::*;

verus! {

pub const HASH_OFFSET: u64 = 0xcbf29ce484222325;

pub const HASH_PRIME: u64 = 0x100000001b3;

/// One FNV-1a round: the hash state mixed with the code point of `c`.
pub open spec fn hash_step(h: u64, c: char) -> u64 {
    (h ^ (c as u32 as u64)).wrapping_mul(HASH_PRIME)
}

/// FNV-1a over the code points of a character sequence.
pub open spec fn hash_chars(s: Seq<char>) -> u64
    decreases s.len(),
{
    if s.len() == 0 {
        HASH_OFFSET
    } else {
        hash_step(hash_chars(s.drop_last()), s.last())
    }
}

/// Content identity of a string: FNV-1a over its characters.
pub fn compute_hash(s: &str) -> (h: u64)
    ensures
        h == hash_chars(s@),
{
    let n = s.unicode_len();
    let mut h: u64 = HASH_OFFSET;
    let mut i: usize = 0;
    while i < n
        invariant
            n == s@.len(),
            i <= n,
            h == hash_chars(s@.subrange(0, i as int)),
        decreases n - i,
    {
        let c = s.get_char(i);
        assert(s@.subrange(0, i + 1).drop_last() =~= s@.subrange(0, i as int));
        h = (h ^ (c as u32 as u64)).wrapping_mul(HASH_PRIME);
        i = i + 1;
    }
    assert(s@.subrange(0, n as int) =~= s@);
    h
}

/// FNV-1a style mixing of 64-bit words, one word per round.
pub open spec fn hash_words(s: Seq<u64>) -> u64
    decreases s.len(),
{
    if s.len() == 0 {
        HASH_OFFSET
    } else {
        (hash_words(s.drop_last()) ^ s.last()).wrapping_mul(HASH_PRIME)
    }
}

/// Content identity of a sequence of words.
pub fn compute_hash_words(v: &[u64]) -> (h: u64)
    ensures
        h == hash_words(v@),
{
    let n = v.len();
    let mut h: u64 = HASH_OFFSET;
    let mut i: usize = 0;
    while i < n
        invariant
            n == v@.len(),
            i <= n,
            h == hash_words(v@.subrange(0, i as int)),
        decreases n - i,
    {
        assert(v@.subrange(0, i + 1).drop_last() =~= v@.subrange(0, i as int));
        h = (h ^ v[i]).wrapping_mul(HASH_PRIME);
        i = i + 1;
    }
    assert(v@.subrange(0, n as int) =~= v@);
    h
}

} // verus!
