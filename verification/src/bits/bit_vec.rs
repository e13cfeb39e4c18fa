//! A fixed-length, word-packed vector of booleans.
//!
//! The vector is stored as 64-bit words; bits past the logical length are
//! kept at zero, so whole-word operations (XOR, scans) agree with the
//! bit-level view.

use vstd::arithmetic::div_mod::{
    lemma_div_is_ordered, lemma_div_plus_one, lemma_fundamental_div_mod,
    lemma_fundamental_div_mod_converse_div, lemma_fundamental_div_mod_converse_mod,
};
use vstd::prelude::*;

verus! {

/// True iff bit `i` of word `w` is set.
pub open spec fn word_bit(w: u64, i: int) -> bool {
    0 <= i < 64 && (w >> (i as u64)) & 1u64 == 1u64
}

/// A bit vector of fixed length, packed into 64-bit words.
pub struct BitVec {
    words: Vec<u64>,
    len: usize,
}

impl View for BitVec {
    type V = Seq<bool>;

    closed spec fn view(&self) -> Seq<bool> {
        Seq::new(self.len as nat, |i: int| word_bit(self.words@[i / 64], i % 64))
    }
}

/// Every index below `len` maps into a word strictly below `(len + 63) / 64`.
pub(crate) proof fn lemma_bit_index(len: int, i: int)
    requires
        0 <= i < len,
    ensures
        0 <= i / 64 < (len + 63) / 64,
        0 <= i % 64 < 64,
        i == 64 * (i / 64) + i % 64,
{
    lemma_fundamental_div_mod(i, 64);
    lemma_div_is_ordered(i, len - 1, 64);
    lemma_div_plus_one(len - 1, 64);
    lemma_div_is_ordered(0, i, 64);
}

/// The word and bit positions determine the bit index uniquely.
proof fn lemma_bit_index_converse(wi: int, j: int)
    requires
        0 <= wi,
        0 <= j < 64,
    ensures
        (64 * wi + j) / 64 == wi,
        (64 * wi + j) % 64 == j,
{
    lemma_fundamental_div_mod_converse_div(64 * wi + j, 64, wi, j);
    lemma_fundamental_div_mod_converse_mod(64 * wi + j, 64, wi, j);
}

pub(crate) proof fn lemma_zero_word_has_no_bits()
    ensures
        forall|j: int| !word_bit(0u64, j),
{
    assert(forall|ju: u64| ju < 64 ==> #[trigger] ((0u64 >> ju) & 1u64) == 0u64) by (bit_vector);
    assert forall|j: int| !word_bit(0u64, j) by {
        if 0 <= j < 64 {
            assert((0u64 >> (j as u64)) & 1u64 == 0u64);
        }
    }
}

/// Setting bit `sh` leaves every other bit alone.
proof fn lemma_word_set_bit(w: u64, sh: u64, j: u64)
    by (bit_vector)
    requires
        sh < 64,
        j < 64,
    ensures
        ((w | (1u64 << sh)) >> j) & 1u64 == (if j == sh {
            1u64
        } else {
            (w >> j) & 1u64
        }),
        ((w & !(1u64 << sh)) >> j) & 1u64 == (if j == sh {
            0u64
        } else {
            (w >> j) & 1u64
        }),
{
}

/// XOR acts bitwise.
proof fn lemma_word_xor_bit(a: u64, b: u64, j: u64)
    by (bit_vector)
    requires
        j < 64,
    ensures
        ((a ^ b) >> j) & 1u64 == 1u64 <==> (((a >> j) & 1u64 == 1u64) != ((b >> j) & 1u64
            == 1u64)),
{
}

/// AND acts bitwise.
pub(crate) proof fn lemma_word_and_bit(a: u64, b: u64, j: int)
    ensures
        word_bit(a & b, j) <==> (word_bit(a, j) && word_bit(b, j)),
{
    if 0 <= j < 64 {
        let ju = j as u64;
        assert(((a & b) >> ju) & 1u64 == 1u64 <==> (((a >> ju) & 1u64 == 1u64) && ((b >> ju) & 1u64
            == 1u64))) by (bit_vector)
            requires
                ju < 64,
        ;
    }
}

/// Clearing bit `t` leaves every other bit alone.
pub(crate) proof fn lemma_word_clear_bit(w: u64, t: u64, j: int)
    requires
        t < 64,
    ensures
        word_bit(w & !(1u64 << t), j) <==> (word_bit(w, j) && j != t as int),
{
    if 0 <= j < 64 {
        let ju = j as u64;
        assert(((w & !(1u64 << t)) >> ju) & 1u64 == (if ju == t {
            0u64
        } else {
            (w >> ju) & 1u64
        })) by (bit_vector)
            requires
                t < 64,
                ju < 64,
        ;
    }
}

impl Clone for BitVec {
    /// A clone has the same bits and the same well-formedness.
    fn clone(&self) -> (r: Self)
        ensures
            r@ == self@,
            r.wf() == self.wf(),
    {
        let words = self.words.clone();
        proof {
            assert forall|i: int| 0 <= i < words@.len() implies words@[i] == self.words@[i] by {
                assert(cloned::<u64>(self.words@[i], words@[i]));
            }
            assert(words@ =~= self.words@);
        }
        BitVec { words, len: self.len }
    }
}

impl BitVec {
    /// All words present, and every bit at or above `len` clear.
    pub closed spec fn wf(self) -> bool {
        &&& self.len <= usize::MAX - 63
        &&& self.words@.len() == (self.len + 63) / 64
        &&& forall|wi: int, j: int|
            0 <= wi < self.words@.len() && 0 <= j < 64 && 64 * wi + j >= self.len
                ==> !#[trigger] word_bit(self.words@[wi], j)
    }

    /// A vector of `len` zero bits.
    pub fn new(len: usize) -> (r: BitVec)
        requires
            len <= usize::MAX - 63,
        ensures
            r.wf(),
            r@.len() == len,
            forall|i: int| 0 <= i < len ==> !r@[i],
    {
        let n_words = (len + 63) / 64;
        let mut words: Vec<u64> = Vec::new();
        while words.len() < n_words
            invariant
                words@.len() <= n_words,
                forall|k: int| 0 <= k < words@.len() ==> words@[k] == 0u64,
            decreases n_words - words@.len(),
        {
            words.push(0u64);
        }
        proof {
            lemma_zero_word_has_no_bits();
        }
        let r = BitVec { words, len };
        proof {
            assert forall|i: int| 0 <= i < len implies !r@[i] by {
                lemma_bit_index(len as int, i);
            }
        }
        r
    }

    /// The number of bits.
    pub fn len(&self) -> (r: usize)
        ensures
            r == self@.len(),
    {
        self.len
    }

    /// The number of 64-bit words backing the vector.
    pub fn num_words(&self) -> (r: usize)
        requires
            self.wf(),
        ensures
            r == (self@.len() + 63) / 64,
            64 * r >= self@.len(),
            self@.len() <= usize::MAX - 63,
    {
        proof {
            lemma_fundamental_div_mod(self.len + 63, 64);
        }
        self.words.len()
    }

    /// Read one backing word; its set bits are exactly the set bits of the
    /// vector in that word's range.
    pub fn word(&self, wi: usize) -> (w: u64)
        requires
            self.wf(),
            wi < (self@.len() + 63) / 64,
        ensures
            forall|j: int|
                0 <= j < 64 ==> (word_bit(w, j) <==> (64 * wi + j < self@.len() && self@[64 * wi
                    + j])),
            self@.len() <= usize::MAX - 63,
    {
        let w = self.words[wi];
        proof {
            assert forall|j: int| 0 <= j < 64 implies (word_bit(w, j) <==> (64 * wi + j
                < self@.len() && self@[64 * wi + j])) by {
                lemma_bit_index_converse(wi as int, j);
                if 64 * wi + j < self.len {
                    assert(self@[64 * wi + j] == word_bit(
                        self.words@[(64 * wi + j) / 64],
                        (64 * wi + j) % 64,
                    ));
                }
            }
        }
        w
    }

    /// Read bit `i`.
    pub fn get(&self, i: usize) -> (r: bool)
        requires
            self.wf(),
            i < self@.len(),
        ensures
            r == self@[i as int],
    {
        proof {
            lemma_bit_index(self.len as int, i as int);
        }
        let w = self.words[i / 64];
        ((w >> ((i % 64) as u64)) & 1u64) == 1u64
    }

    /// Write bit `i`.
    pub fn set(&mut self, i: usize, value: bool)
        requires
            old(self).wf(),
            i < old(self)@.len(),
        ensures
            final(self).wf(),
            final(self)@ == old(self)@.update(i as int, value),
    {
        proof {
            lemma_bit_index(self.len as int, i as int);
        }
        let wi = i / 64;
        let sh = (i % 64) as u64;
        let w = self.words[wi];
        let nw = if value {
            w | (1u64 << sh)
        } else {
            w & !(1u64 << sh)
        };
        self.words[wi] = nw;
        proof {
            assert forall|j: int|
                0 <= j < 64 implies word_bit(nw, j) == (if j == sh as int {
                value
            } else {
                word_bit(w, j)
            }) by {
                lemma_word_set_bit(w, sh, j as u64);
            }
            assert forall|k: int| 0 <= k < self.len implies self@[k] == old(self)@.update(
                i as int,
                value,
            )[k] by {
                lemma_bit_index(self.len as int, k);
                if k / 64 == wi as int {
                    lemma_bit_index(self.len as int, i as int);
                    if k == i as int {
                    } else {
                        assert(k % 64 != i as int % 64) by {
                            lemma_fundamental_div_mod(k, 64);
                            lemma_fundamental_div_mod(i as int, 64);
                        }
                    }
                }
            }
            assert(self@ =~= old(self)@.update(i as int, value));
            assert forall|wj: int, j: int|
                0 <= wj < self.words@.len() && 0 <= j < 64 && 64 * wj + j
                    >= self.len implies !#[trigger] word_bit(self.words@[wj], j) by {
                if wj == wi as int {
                    assert(64 * wj + j != i as int) by {
                        lemma_bit_index(self.len as int, i as int);
                        lemma_bit_index_converse(wj, j);
                    }
                    assert(j != sh as int) by {
                        lemma_bit_index(self.len as int, i as int);
                        lemma_bit_index_converse(wj, j);
                    }
                }
            }
        }
    }

    /// XOR every bit of `other` into `self`.
    pub fn xor(&mut self, other: &BitVec)
        requires
            old(self).wf(),
            other.wf(),
            old(self)@.len() == other@.len(),
        ensures
            final(self).wf(),
            final(self)@.len() == old(self)@.len(),
            forall|k: int|
                0 <= k < final(self)@.len() ==> final(self)@[k] == (old(self)@[k] != other@[k]),
    {
        let n_words = self.words.len();
        let mut wi: usize = 0;
        while wi < n_words
            invariant
                old(self).wf(),
                other.wf(),
                old(self)@.len() == other@.len(),
                self.len == old(self).len,
                wi <= n_words,
                n_words == self.words@.len(),
                self.words@.len() == old(self).words@.len(),
                forall|k: int| wi <= k < n_words ==> self.words@[k] == old(self).words@[k],
                forall|k: int|
                    0 <= k < wi ==> self.words@[k] == (old(self).words@[k] ^ other.words@[k]),
            decreases n_words - wi,
        {
            let a = self.words[wi];
            let b = other.words[wi];
            self.words[wi] = a ^ b;
            wi = wi + 1;
        }
        proof {
            assert forall|wj: int, j: int|
                0 <= wj < self.words@.len() && 0 <= j < 64 implies (#[trigger] word_bit(
                self.words@[wj],
                j,
            )) == (word_bit(old(self).words@[wj], j) != word_bit(other.words@[wj], j)) by {
                lemma_word_xor_bit(old(self).words@[wj], other.words@[wj], j as u64);
            }
            assert forall|k: int| 0 <= k < self@.len() implies self@[k] == (old(self)@[k]
                != other@[k]) by {
                lemma_bit_index(self.len as int, k);
            }
        }
    }
}

} // verus!
