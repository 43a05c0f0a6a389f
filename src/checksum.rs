use vstd::prelude::*;

use crate::error::Error;

verus! {

/// The unsigned value of the little-endian 32-bit word at byte `i` of `s`.
pub open spec fn le_word(s: Seq<u8>, i: int) -> int {
    s[i] as int + s[i + 1] as int * 0x100 + s[i + 2] as int * 0x1_0000 + s[i + 3] as int
        * 0x100_0000
}

/// The sum, over the integers, of the first `n` words of `s`.
pub open spec fn word_sum(s: Seq<u8>, n: nat) -> int
    decreases n,
{
    if n == 0 {
        0
    } else {
        word_sum(s, (n - 1) as nat) + le_word(s, 4 * (n - 1))
    }
}

/// The sum of all words of `s`, reduced to 32 bits.
pub open spec fn checksum_of(s: Seq<u8>) -> u32 {
    (word_sum(s, s.len() / 4) % 0x1_0000_0000) as u32
}

/// Reads the little-endian word at byte `i` of `s`.
pub fn read_le_word(s: &[u8], i: usize) -> (r: u32)
    requires
        i + 4 <= s@.len(),
    ensures
        r as int == le_word(s@, i as int),
{
    let b0 = s[i] as u32;
    let b1 = s[i + 1] as u32;
    let b2 = s[i + 2] as u32;
    let b3 = s[i + 3] as u32;
    b0 + b1 * 0x100 + b2 * 0x1_0000 + b3 * 0x100_0000
}

/// Running 32-bit sum, with wraparound, of the words of a firmware image.
pub struct Checksum {
    pub value: u32,
}

impl Checksum {
    pub fn new() -> (r: Checksum)
        ensures
            r.value == 0,
    {
        Checksum { value: 0 }
    }

    /// Adds each little-endian word of `data` to the sum. A length that is
    /// not a multiple of four is truncated data and leaves the sum as it was.
    pub fn update(&mut self, data: &[u8]) -> (r: Result<(), Error>)
        ensures
            data@.len() % 4 != 0 ==> r == Err::<(), Error>(
                Error::TruncatedData { offset: (data@.len() - data@.len() % 4) as usize, len: 4 },
            ) && final(self).value == old(self).value,
            data@.len() % 4 == 0 ==> r is Ok && final(self).value == (old(self).value
                + word_sum(data@, data@.len() / 4)) % 0x1_0000_0000,
    {
        let n = data.len();
        if n % 4 != 0 {
            return Err(Error::TruncatedData { offset: n - n % 4, len: 4 });
        }
        let ghost start = self.value;
        let mut offset: usize = 0;
        while offset < n
            invariant
                n == data@.len(),
                n % 4 == 0,
                offset % 4 == 0,
                offset <= n,
                self.value == (start + word_sum(data@, offset as nat / 4)) % 0x1_0000_0000,
            decreases n - offset,
        {
            let val = read_le_word(data, offset);
            let ghost before = self.value;
            self.value = self.value.wrapping_add(val);
            proof {
                let k = offset as nat / 4;
                assert((offset + 4) as nat / 4 == k + 1);
                assert(4 * k == offset);
                assert(word_sum(data@, k + 1) == word_sum(data@, k) + val);
                lemma_mod_add(start + word_sum(data@, k), val as int);
            }
            offset = offset + 4;
        }
        Ok(())
    }
}

proof fn lemma_mod_add(a: int, b: int)
    requires
        0 <= b < 0x1_0000_0000,
    ensures
        ((a % 0x1_0000_0000) + b) % 0x1_0000_0000 == (a + b) % 0x1_0000_0000,
{
    vstd::arithmetic::div_mod::lemma_add_mod_noop(a, b, 0x1_0000_0000);
    vstd::arithmetic::div_mod::lemma_mod_twice(b, 0x1_0000_0000);
    vstd::arithmetic::div_mod::lemma_small_mod(b as nat, 0x1_0000_0000);
}

} // verus!
