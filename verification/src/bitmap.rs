//! A fixed-size bitmap, one bit per index, packed into 64-bit words.
//!
//! The collector keeps one mark bit per slot address in such a bitmap, apart
//! from the object headers, so that tracing never touches layout metadata.

use vstd::prelude::*;

verus! {

/// Number of bits held by one word of the bitmap.
pub const BITS_PER_WORD: usize = 64;

/// Whether bit `b` of `word` is set.
pub open spec fn bit_of(word: u64, b: u64) -> bool {
    (word >> b) & 1u64 == 1u64
}

proof fn lemma_bit_of_zero(b: u64)
    requires
        b < 64,
    ensures
        !bit_of(0u64, b),
{
    assert(((0u64 >> b) & 1u64) == 0u64) by (bit_vector)
        requires
            b < 64,
    ;
}

proof fn lemma_bit_set(word: u64, b: u64, c: u64)
    requires
        b < 64,
        c < 64,
    ensures
        bit_of(word | (1u64 << b), c) == (c == b || bit_of(word, c)),
{
    assert((((word | (1u64 << b)) >> c) & 1u64 == 1u64) == (c == b || ((word >> c) & 1u64
        == 1u64))) by (bit_vector)
        requires
            b < 64,
            c < 64,
    ;
}

proof fn lemma_bit_clear(word: u64, b: u64, c: u64)
    requires
        b < 64,
        c < 64,
    ensures
        bit_of(word & !(1u64 << b), c) == (c != b && bit_of(word, c)),
{
    assert((((word & !(1u64 << b)) >> c) & 1u64 == 1u64) == (c != b && ((word >> c) & 1u64
        == 1u64))) by (bit_vector)
        requires
            b < 64,
            c < 64,
    ;
}

proof fn lemma_bit_test(word: u64, b: u64)
    requires
        b < 64,
    ensures
        (word & (1u64 << b) != 0u64) == bit_of(word, b),
{
    assert((word & (1u64 << b) != 0u64) == ((word >> b) & 1u64 == 1u64)) by (bit_vector)
        requires
            b < 64,
    ;
}

/// The indices of the bits that are set.
pub open spec fn set_bits(bits: Seq<bool>) -> Set<int> {
    Set::new(|i: int| 0 <= i < bits.len() && bits[i])
}

/// The number of clear bits.
pub open spec fn count_clear(bits: Seq<bool>) -> nat
    decreases bits.len(),
{
    if bits.len() == 0 {
        0
    } else if bits.last() {
        count_clear(bits.drop_last())
    } else {
        count_clear(bits.drop_last()) + 1
    }
}

/// Setting a clear bit leaves one clear bit fewer.
pub proof fn lemma_count_clear_set(bits: Seq<bool>, i: int)
    requires
        0 <= i < bits.len(),
        !bits[i],
    ensures
        count_clear(bits.update(i, true)) + 1 == count_clear(bits),
    decreases bits.len(),
{
    if i == bits.len() - 1 {
        assert(bits.update(i, true).drop_last() =~= bits.drop_last());
    } else {
        assert(bits.update(i, true).drop_last() =~= bits.drop_last().update(i, true));
        lemma_count_clear_set(bits.drop_last(), i);
    }
}

/// A sequence of `len` bits, all addressable by index.
pub struct Bitmap {
    words: Vec<u64>,
    len: usize,
}

impl View for Bitmap {
    type V = Seq<bool>;

    /// The bits, in index order.
    closed spec fn view(&self) -> Seq<bool> {
        Seq::new(self.len as nat, |i: int| bit_of(self.words@[i / 64], (i % 64) as u64))
    }
}

impl Bitmap {
    /// The words cover every index below `len`.
    pub closed spec fn wf(&self) -> bool {
        self.words@.len() == self.len / 64 + 1
    }

    /// A bitmap of `len` bits, all clear.
    pub fn new(len: usize) -> (r: Bitmap)
        ensures
            r.wf(),
            r@.len() == len,
            forall|i: int| 0 <= i < len ==> !r@[i],
    {
        let n: usize = len / BITS_PER_WORD + 1;
        let mut words: Vec<u64> = Vec::new();
        while words.len() < n
            invariant
                words@.len() <= n,
                forall|w: int| 0 <= w < words@.len() ==> words@[w] == 0u64,
            decreases n - words@.len(),
        {
            words.push(0u64);
        }
        let r = Bitmap { words, len };
        assert forall|i: int| 0 <= i < len implies !r@[i] by {
            lemma_bit_of_zero((i % 64) as u64);
        }
        r
    }

    /// The number of bits.
    pub fn len(&self) -> (n: usize)
        ensures
            n == self@.len(),
    {
        self.len
    }

    /// Reads bit `i`.
    pub fn get(&self, i: usize) -> (b: bool)
        requires
            self.wf(),
            i < self@.len(),
        ensures
            b == self@[i as int],
    {
        let w: usize = i / BITS_PER_WORD;
        let b: u64 = (i % BITS_PER_WORD) as u64;
        let word: u64 = self.words[w];
        proof {
            lemma_bit_test(word, b);
        }
        word & (1u64 << b) != 0
    }

    /// Sets bit `i` and leaves every other bit as it was.
    pub fn set(&mut self, i: usize)
        requires
            old(self).wf(),
            i < old(self)@.len(),
        ensures
            final(self).wf(),
            final(self)@ == old(self)@.update(i as int, true),
    {
        let w: usize = i / BITS_PER_WORD;
        let b: u64 = (i % BITS_PER_WORD) as u64;
        let word: u64 = self.words[w];
        self.words[w] = word | (1u64 << b);
        proof {
            assert forall|j: int| 0 <= j < self.len implies self@[j] == old(self)@.update(
                i as int,
                true,
            )[j] by {
                if j / 64 == w as int {
                    lemma_bit_set(word, b, (j % 64) as u64);
                }
            }
            assert(self@ =~= old(self)@.update(i as int, true));
        }
    }

    /// Clears bit `i` and leaves every other bit as it was.
    pub fn clear(&mut self, i: usize)
        requires
            old(self).wf(),
            i < old(self)@.len(),
        ensures
            final(self).wf(),
            final(self)@ == old(self)@.update(i as int, false),
    {
        let w: usize = i / BITS_PER_WORD;
        let b: u64 = (i % BITS_PER_WORD) as u64;
        let word: u64 = self.words[w];
        self.words[w] = word & !(1u64 << b);
        proof {
            assert forall|j: int| 0 <= j < self.len implies self@[j] == old(self)@.update(
                i as int,
                false,
            )[j] by {
                if j / 64 == w as int {
                    lemma_bit_clear(word, b, (j % 64) as u64);
                }
            }
            assert(self@ =~= old(self)@.update(i as int, false));
        }
    }
}

} // verus!
