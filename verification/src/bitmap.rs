//! Fixed-capacity bitset with a cached population count.
//!
//! One bitmap records, for a single raw filter, which sample records the
//! filter matched: bit `k` is set iff the filter matched sample record `k`.
//! The scheduler intersects bitmaps to estimate how many records survive a
//! sequence of filters, so `and` and `count` carry exact contracts.

use vstd::prelude::*;
use vstd::pervasive::VecAdditionalExecFns;

verus! {

/// Bits in one storage word.
pub const WORDSZ: usize = 64;
/// Words backing one bitmap.
pub const BITMAP_WORDS: usize = 16;
/// Capacity in bits; at least the maximum number of sample records.
pub const BITMAP_CAPACITY: usize = 1024;

/// True iff bit `k` of word `w` is one.
pub open spec fn word_bit(w: u64, k: u64) -> bool {
    (w >> k) & 1u64 == 1u64
}

/// The bit sequence held by a vector of storage words, low bits first.
pub open spec fn bits_view(words: Seq<u64>) -> Seq<bool> {
    Seq::new(BITMAP_CAPACITY as nat, |i: int| word_bit(words[i / 64], (i % 64) as u64))
}

/// Number of set bits in `s`.
pub open spec fn popcount(s: Seq<bool>) -> nat
    decreases s.len(),
{
    if s.len() == 0 {
        0
    } else {
        popcount(s.drop_last()) + if s.last() {
            1nat
        } else {
            0nat
        }
    }
}

/// Pointwise conjunction of two bit sequences; the length follows the first.
pub open spec fn and_bits(x: Seq<bool>, y: Seq<bool>) -> Seq<bool> {
    Seq::new(x.len(), |i: int| x[i] && y[i])
}

/// The all-zero bit sequence of full capacity.
pub open spec fn empty_bits() -> Seq<bool> {
    Seq::new(BITMAP_CAPACITY as nat, |i: int| false)
}

pub struct Bitmap {
    bits: Vec<u64>,
    count: usize,
}

impl View for Bitmap {
    type V = Seq<bool>;

    closed spec fn view(&self) -> Seq<bool> {
        bits_view(self.bits@)
    }
}

proof fn lemma_word_bit_or(w: u64, s: u64, k: u64)
    by (bit_vector)
    requires
        s < 64,
        k < 64,
    ensures
        word_bit(w | (1u64 << s), k) == (k == s || word_bit(w, k)),
{
}

proof fn lemma_word_bit_clear(w: u64, s: u64, k: u64)
    by (bit_vector)
    requires
        s < 64,
        k < 64,
    ensures
        word_bit(w & !(1u64 << s), k) == (k != s && word_bit(w, k)),
{
}

proof fn lemma_word_bit_and(a: u64, b: u64, k: u64)
    by (bit_vector)
    requires
        k < 64,
    ensures
        word_bit(a & b, k) == (word_bit(a, k) && word_bit(b, k)),
{
}

proof fn lemma_word_bit_zero(k: u64)
    by (bit_vector)
    requires
        k < 64,
    ensures
        !word_bit(0u64, k),
{
}

/// A population count never exceeds the length counted over.
pub proof fn lemma_popcount_le_len(s: Seq<bool>)
    ensures
        popcount(s) <= s.len(),
    decreases s.len(),
{
    if s.len() > 0 {
        lemma_popcount_le_len(s.drop_last());
    }
}

/// Updating one bit moves the population count by the difference of the
/// old and new bit.
pub proof fn lemma_popcount_update(s: Seq<bool>, i: int, b: bool)
    ensures
        0 <= i < s.len() ==> popcount(s.update(i, b)) == popcount(s) - (if s[i] {
            1int
        } else {
            0int
        }) + (if b {
            1int
        } else {
            0int
        }),
    decreases s.len(),
{
    if 0 <= i < s.len() {
        if i == s.len() - 1 {
            assert(s.update(i, b).drop_last() =~= s.drop_last());
        } else {
            assert(s.update(i, b).drop_last() =~= s.drop_last().update(i, b));
            lemma_popcount_update(s.drop_last(), i, b);
        }
    }
}

/// The population count of one more element extends that of the prefix.
pub proof fn lemma_popcount_take_step(s: Seq<bool>, i: int)
    requires
        0 <= i < s.len(),
    ensures
        popcount(s.take(i + 1)) == popcount(s.take(i)) + if s[i] {
            1nat
        } else {
            0nat
        },
{
    assert(s.take(i + 1).drop_last() =~= s.take(i));
    assert(s.take(i + 1).last() == s[i]);
}

/// A sequence with no set bit counts zero.
pub proof fn lemma_popcount_empty(s: Seq<bool>)
    requires
        forall|i: int| 0 <= i < s.len() ==> !s[i],
    ensures
        popcount(s) == 0,
    decreases s.len(),
{
    if s.len() > 0 {
        lemma_popcount_empty(s.drop_last());
    }
}

impl Bitmap {
    /// The cached count is the true population and the backing store has
    /// its fixed size.
    pub closed spec fn wf(&self) -> bool {
        &&& self.bits@.len() == BITMAP_WORDS
        &&& self.count == popcount(self@)
    }

    /// A fresh bitmap: all bits zero, population zero.
    pub fn new() -> (r: Bitmap)
        ensures
            r.wf(),
            r@ == empty_bits(),
    {
        let bits: Vec<u64> = vec![0u64; BITMAP_WORDS];
        proof {
            assert forall|i: int| 0 <= i < BITMAP_CAPACITY implies !bits_view(bits@)[i] by {
                lemma_word_bit_zero((i % 64) as u64);
            }
            assert(bits_view(bits@) =~= empty_bits());
            lemma_popcount_empty(bits_view(bits@));
        }
        Bitmap { bits, count: 0 }
    }

    /// Clear all bits; the population becomes zero.
    pub fn reset(&mut self)
        ensures
            final(self).wf(),
            final(self)@ == empty_bits(),
    {
        let mut bits: Vec<u64> = vec![0u64; BITMAP_WORDS];
        proof {
            assert forall|i: int| 0 <= i < BITMAP_CAPACITY implies !bits_view(bits@)[i] by {
                lemma_word_bit_zero((i % 64) as u64);
            }
            assert(bits_view(bits@) =~= empty_bits());
            lemma_popcount_empty(bits_view(bits@));
        }
        self.bits = bits;
        self.count = 0;
    }

    /// Set bit `index`; the view is the old view with that bit true, and
    /// the cached count stays the true population.
    pub fn set(&mut self, index: usize)
        requires
            old(self).wf(),
            index < BITMAP_CAPACITY,
        ensures
            final(self).wf(),
            final(self)@ == old(self)@.update(index as int, true),
    {
        let word = index / WORDSZ;
        let shift = (index % WORDSZ) as u64;
        let w = self.bits[word];
        proof {
            lemma_popcount_le_len(self@);
        }
        if (w >> shift) & 1u64 == 0u64 {
            self.bits.set(word, w | (1u64 << shift));
            proof {
                self.lemma_one_word_changed(*old(self), word as int, index as int, true);
                lemma_popcount_update(old(self)@, index as int, true);
                assert(!old(self)@[index as int]) by {
                    assert(!word_bit(w, shift)) by (bit_vector)
                        requires
                            (w >> shift) & 1u64 == 0u64,
                    ;
                }
            }
            self.count = self.count + 1;
        } else {
            proof {
                assert(word_bit(w, shift)) by (bit_vector)
                    requires
                        !((w >> shift) & 1u64 == 0u64),
                ;
                assert(old(self)@[index as int]);
                assert(final(self)@ =~= old(self)@.update(index as int, true));
                lemma_popcount_update(old(self)@, index as int, true);
            }
        }
    }

    /// Clear bit `index`; the view is the old view with that bit false,
    /// and the cached count stays the true population.
    pub fn unset(&mut self, index: usize)
        requires
            old(self).wf(),
            index < BITMAP_CAPACITY,
        ensures
            final(self).wf(),
            final(self)@ == old(self)@.update(index as int, false),
    {
        let word = index / WORDSZ;
        let shift = (index % WORDSZ) as u64;
        let w = self.bits[word];
        if (w >> shift) & 1u64 == 1u64 {
            self.bits.set(word, w & !(1u64 << shift));
            proof {
                self.lemma_one_word_changed(*old(self), word as int, index as int, false);
                lemma_popcount_update(old(self)@, index as int, false);
                assert(word_bit(w, shift)) by (bit_vector)
                    requires
                        (w >> shift) & 1u64 == 1u64,
                ;
                assert(old(self)@[index as int]);
            }
            self.count = self.count - 1;
        } else {
            proof {
                assert(!word_bit(w, shift)) by (bit_vector)
                    requires
                        !((w >> shift) & 1u64 == 1u64),
                ;
                assert(!old(self)@[index as int]);
                assert(final(self)@ =~= old(self)@.update(index as int, false));
                lemma_popcount_update(old(self)@, index as int, false);
            }
        }
    }

    /// After replacing word `word` such that only position `index` differs
    /// as bit `b`, the view is the pointwise update of the old view.
    proof fn lemma_one_word_changed(&self, prev: Bitmap, word: int, index: int, b: bool)
        requires
            prev.bits@.len() == BITMAP_WORDS,
            self.bits@.len() == BITMAP_WORDS,
            0 <= index < BITMAP_CAPACITY,
            word == index / 64,
            forall|j: int| 0 <= j < BITMAP_WORDS && j != word ==> self.bits@[j] == prev.bits@[j],
            self.bits@[word] == if b {
                prev.bits@[word] | (1u64 << ((index % 64) as u64))
            } else {
                prev.bits@[word] & !(1u64 << ((index % 64) as u64))
            },
        ensures
            self@ == prev@.update(index, b),
    {
        let shift = (index % 64) as u64;
        assert forall|i: int| 0 <= i < BITMAP_CAPACITY implies self@[i] == prev@.update(index, b)[i] by {
            let k = (i % 64) as u64;
            if i / 64 == word {
                if b {
                    lemma_word_bit_or(prev.bits@[word], shift, k);
                } else {
                    lemma_word_bit_clear(prev.bits@[word], shift, k);
                }
                assert(i == index <==> (i / 64 == word && k == shift)) by (nonlinear_arith)
                    requires
                        0 <= i < 1024,
                        0 <= index < 1024,
                        word == index / 64,
                        i / 64 == word,
                        k == (i % 64) as u64,
                        shift == (index % 64) as u64,
                ;
            }
        }
        assert(self@ =~= prev@.update(index, b));
    }

    /// True iff bit `index` is set.
    pub fn is_set(&self, index: usize) -> (r: bool)
        requires
            self.wf(),
            index < BITMAP_CAPACITY,
        ensures
            r == self@[index as int],
    {
        let word = index / WORDSZ;
        let shift = (index % WORDSZ) as u64;
        (self.bits[word] >> shift) & 1u64 == 1u64
    }

    /// The cached population count, equal to the number of set bits.
    pub fn count(&self) -> (c: usize)
        requires
            self.wf(),
        ensures
            c == popcount(self@),
            c <= BITMAP_CAPACITY,
    {
        proof {
            lemma_popcount_le_len(self@);
        }
        self.count
    }

    /// Bitwise intersection; the result's view is the pointwise AND and
    /// its population count is computed afresh.
    pub fn and(&self, bm: &Bitmap) -> (r: Bitmap)
        requires
            self.wf(),
            bm.wf(),
        ensures
            r.wf(),
            r@ == and_bits(self@, bm@),
    {
        let mut words: Vec<u64> = Vec::new();
        let mut j: usize = 0;
        while j < BITMAP_WORDS
            invariant
                j <= BITMAP_WORDS,
                words@.len() == j,
                self.bits@.len() == BITMAP_WORDS,
                bm.bits@.len() == BITMAP_WORDS,
                forall|t: int| 0 <= t < j ==> words@[t] == (self.bits@[t] & bm.bits@[t]),
            decreases BITMAP_WORDS - j,
        {
            words.push(self.bits[j] & bm.bits[j]);
            j = j + 1;
        }
        proof {
            assert forall|i: int| 0 <= i < BITMAP_CAPACITY implies bits_view(words@)[i] == (
            self@[i] && bm@[i]) by {
                lemma_word_bit_and(self.bits@[i / 64], bm.bits@[i / 64], (i % 64) as u64);
            }
            assert(bits_view(words@) =~= and_bits(self@, bm@));
        }
        let count = count_bits(&words);
        Bitmap { bits: words, count }
    }

    /// Overwrite this bitmap with the contents of another.
    pub fn copy_from(&mut self, other: &Bitmap)
        requires
            other.wf(),
        ensures
            final(self).wf(),
            final(self)@ == other@,
    {
        let mut words: Vec<u64> = Vec::new();
        let mut j: usize = 0;
        while j < BITMAP_WORDS
            invariant
                j <= BITMAP_WORDS,
                words@.len() == j,
                other.bits@.len() == BITMAP_WORDS,
                forall|t: int| 0 <= t < j ==> words@[t] == other.bits@[t],
            decreases BITMAP_WORDS - j,
        {
            words.push(other.bits[j]);
            j = j + 1;
        }
        proof {
            assert(words@ =~= other.bits@);
        }
        self.bits = words;
        self.count = other.count;
    }
}

impl Default for Bitmap {
    /// Same as `Bitmap::new`: all bits zero.
    fn default() -> (r: Bitmap)
        ensures
            r.wf(),
            r@ == empty_bits(),
    {
        Bitmap::new()
    }
}

/// Count the set bits of a word vector by walking every bit position.
fn count_bits(words: &Vec<u64>) -> (c: usize)
    requires
        words@.len() == BITMAP_WORDS,
    ensures
        c == popcount(bits_view(words@)),
        c <= BITMAP_CAPACITY,
{
    let ghost v = bits_view(words@);
    let mut c: usize = 0;
    let mut i: usize = 0;
    while i < BITMAP_CAPACITY
        invariant
            i <= BITMAP_CAPACITY,
            words@.len() == BITMAP_WORDS,
            v == bits_view(words@),
            c == popcount(v.take(i as int)),
            c <= i,
        decreases BITMAP_CAPACITY - i,
    {
        proof {
            lemma_popcount_take_step(v, i as int);
        }
        if (words[i / WORDSZ] >> ((i % WORDSZ) as u64)) & 1u64 == 1u64 {
            c = c + 1;
        }
        i = i + 1;
    }
    proof {
        assert(v.take(BITMAP_CAPACITY as int) =~= v);
    }
    c
}

/// A bitmap's view always has exactly the full capacity.
pub proof fn lemma_view_len(b: Bitmap)
    ensures
        b@.len() == BITMAP_CAPACITY,
{
}

/// Intersection of bit sequences is commutative: `and` applied either way
/// round yields the same bits.
pub proof fn lemma_and_commutative(x: Seq<bool>, y: Seq<bool>)
    requires
        x.len() == y.len(),
    ensures
        and_bits(x, y) == and_bits(y, x),
{
    assert(and_bits(x, y) =~= and_bits(y, x));
}

/// Intersection of bit sequences is associative.
pub proof fn lemma_and_associative(x: Seq<bool>, y: Seq<bool>, z: Seq<bool>)
    requires
        x.len() == y.len(),
        y.len() == z.len(),
    ensures
        and_bits(and_bits(x, y), z) == and_bits(x, and_bits(y, z)),
{
    assert(and_bits(and_bits(x, y), z) =~= and_bits(x, and_bits(y, z)));
}

/// Intersection of bit sequences is idempotent.
pub proof fn lemma_and_idempotent(x: Seq<bool>)
    ensures
        and_bits(x, x) == x,
{
    assert(and_bits(x, x) =~= x);
}

} // verus!
