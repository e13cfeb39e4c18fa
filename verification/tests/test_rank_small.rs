//! Consistency of the packed bit vector: the number of set bits seen while
//! scanning a prefix must agree with the bits that were written.

use sux::bits::bit_vec::BitVec;

/// A small deterministic generator, so each run sees the same bit patterns.
fn next_state(state: &mut u64) -> u64 {
    *state = state
        .wrapping_mul(6364136223846793005)
        .wrapping_add(1442695040888963407);
    *state >> 33
}

fn check_prefix_counts(len: usize, density_num: u64, density_den: u64, seed: u64) {
    let mut state = seed;
    let mut bits = BitVec::new(len);
    let mut expected = Vec::with_capacity(len);
    for i in 0..len {
        let bit = next_state(&mut state) % density_den < density_num;
        if bit {
            bits.set(i, true);
        }
        expected.push(bit);
    }
    let mut rank = 0usize;
    for i in 0..len {
        assert_eq!(bits.get(i), expected[i], "bit {} of {}", i, len);
        if expected[i] {
            rank += 1;
        }
    }
    // the packed words must carry exactly the bits that were written
    let mut word_rank = 0usize;
    for w in 0..bits.num_words() {
        word_rank += bits.word(w).count_ones() as usize;
    }
    assert_eq!(word_rank, rank);
}

#[test]
fn test_rank_small0() {
    for len in [1, 63, 64, 65, 1000, 100_000] {
        check_prefix_counts(len, 1, 2, 0);
    }
}

#[test]
fn test_rank_small1() {
    for len in [2, 127, 128, 129, 2000, 150_000] {
        check_prefix_counts(len, 1, 4, 1);
    }
}

#[test]
fn test_rank_small2() {
    for len in [3, 191, 192, 193, 3000, 200_000] {
        check_prefix_counts(len, 3, 4, 2);
    }
}

#[test]
fn test_rank_small3() {
    for len in [4, 255, 256, 257, 4000, 250_000] {
        check_prefix_counts(len, 1, 16, 3);
    }
}

#[test]
fn test_rank_small4() {
    for len in [5, 319, 320, 321, 5000, 300_000] {
        check_prefix_counts(len, 15, 16, 4);
    }
}
