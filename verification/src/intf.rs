//! Platform helpers: turning random words into random bytes and numbers,
//! and the block store's state.

use vstd::prelude::*;

verus! {

/// Byte `k` (0 to 3, least significant first) of a word.
pub open spec fn word_byte(w: u32, k: int) -> u8 {
    ((w >> ((k * 8) as u32)) & 0xffu32) as u8
}

/// How many words make `len` random bytes: one per four bytes, and one
/// more for the rest.
pub open spec fn words_needed(len: nat) -> nat {
    len / 4 + if len % 4 > 0 {
        1nat
    } else {
        0nat
    }
}

/// `len` random bytes from random words: four bytes from each word, least
/// significant first, and the rest from the low bytes of one more word.
pub fn random_bytes_from_words(len: usize, words: &Vec<u32>) -> (r: Vec<u8>)
    requires
        words@.len() == words_needed(len as nat),
    ensures
        r@.len() == len,
        forall|i: int| 0 <= i < len ==> #[trigger] r@[i] == word_byte(words@[i / 4], i % 4),
{
    let mut out: Vec<u8> = Vec::new();
    let mut i: usize = 0;
    while i < len
        invariant
            i <= len,
            words@.len() == words_needed(len as nat),
            out@.len() == i,
            forall|j: int| 0 <= j < i ==> #[trigger] out@[j] == word_byte(words@[j / 4], j % 4),
        decreases len - i,
    {
        let w = words[i / 4];
        let k: u32 = (i % 4) as u32;
        let b = ((w >> (k * 8)) & 0xffu32) as u8;
        out.push(b);
        i += 1;
    }
    out
}

/// A random 64-bit number from two random words: the first is the high half.
pub fn combine_random_u64(high: u32, low: u32) -> (r: u64)
    ensures
        r == high as u64 * 0x1_0000_0000u64 + low as u64,
{
    let r = ((high as u64) << 32u64) | (low as u64);
    assert(((high as u64) << 32u64) | (low as u64) == high as u64 * 0x1_0000_0000u64 + low as u64) by (bit_vector);
    r
}

/// The block store's own state.
pub struct BlockStoreInner {}

/// The block store, with the configuration it was made with.
pub struct BlockStore<C> {
    pub config: C,
    pub inner: BlockStoreInner,
}

impl<C> BlockStore<C> {
    /// A fresh state.
    pub fn new_inner() -> (r: BlockStoreInner)
        ensures
            r == (BlockStoreInner {}),
    {
        BlockStoreInner {}
    }

    /// A block store for the configuration.
    pub fn new(config: C) -> (r: Self)
        ensures
            r.config == config,
    {
        BlockStore { config, inner: Self::new_inner() }
    }
}

} // verus!
