use dummycrypt::cost::{
    compute_hamming_var, compute_unigram_var, compute_var_scale, gap_squared, hamming_var_against,
    sorted_own_pairs,
};
use dummycrypt::freq::{residue_unigram, residue_unigrams, stream_unigram, Unigram};
use dummycrypt::sorting::sort_pairs_in_place;
use dummycrypt::table::{gen_lvl1_sub, gen_lvl2_sub, gen_lvl3_sub};
use dummycrypt::wide::{mul_wide, product_exceeds};

fn identity() -> [usize; 256] {
    let mut t = [0usize; 256];
    gen_lvl1_sub(0, &mut t);
    t
}

#[test]
fn unigram_of_the_empty_stream() {
    let u = Unigram::new();
    assert_eq!(u.total, 0);
    assert!(u.counts.iter().all(|&c| c == 0));
    let v = stream_unigram(&[]);
    assert_eq!(v.total, 0);
    assert!(v.counts.iter().all(|&c| c == 0));
}

#[test]
fn unigram_counts_every_byte() {
    let u = stream_unigram(b"abracadabra");
    assert_eq!(u.total, 11);
    assert_eq!(u.counts[b'a' as usize], 5);
    assert_eq!(u.counts[b'b' as usize], 2);
    assert_eq!(u.counts[b'r' as usize], 2);
    assert_eq!(u.counts[b'c' as usize], 1);
    assert_eq!(u.counts[b'd' as usize], 1);
    assert_eq!(u.counts.iter().sum::<u64>(), 11);
}

#[test]
fn residue_unigram_counts_one_class() {
    let data = [10u8, 20, 30, 10, 21, 30, 10, 22];
    let u = residue_unigram(&data, 0, 3);
    assert_eq!(u.total, 3);
    assert_eq!(u.counts[10], 3);
    let u = residue_unigram(&data, 1, 3);
    assert_eq!(u.total, 3);
    assert_eq!(u.counts[20], 1);
    assert_eq!(u.counts[21], 1);
    assert_eq!(u.counts[22], 1);
    let u = residue_unigram(&data, 2, 3);
    assert_eq!(u.total, 2);
    assert_eq!(u.counts[30], 2);
}

#[test]
fn residue_beyond_the_stream_is_empty() {
    let data = [1u8, 2, 3];
    let u = residue_unigram(&data, 3, 5);
    assert_eq!(u.total, 0);
    let u = residue_unigram(&data, 2, usize::MAX);
    assert_eq!(u.total, 1);
    assert_eq!(u.counts[3], 1);
}

#[test]
fn residue_unigrams_cover_the_stream() {
    let data: Vec<u8> = (0..100u32).map(|i| (i % 7) as u8).collect();
    let us = residue_unigrams(&data, 6);
    assert_eq!(us.len(), 6);
    assert_eq!(us.iter().map(|u| u.total).sum::<u64>(), 100);
    for (p, u) in us.iter().enumerate() {
        let w = residue_unigram(&data, p, 6);
        assert_eq!(u.total, w.total);
        assert_eq!(u.counts, w.counts);
    }
    assert!(residue_unigrams(&data, 0).is_empty());
}

#[test]
fn squared_gap_of_two_probabilities() {
    // 2/3 against 3/4: (2*4 - 3*3)^2 = 1 on the scale 144.
    assert_eq!(gap_squared(2, 3, 3, 4), 1);
    assert_eq!(gap_squared(3, 4, 2, 3), 1);
    assert_eq!(gap_squared(1, 3, 0, 4), 16);
    assert_eq!(gap_squared(0, 0, 0, 0), 0);
    assert_eq!(gap_squared(1 << 28, 1 << 28, 0, 1 << 28), 1 << 112);
}

#[test]
fn unigram_variance_exact_value() {
    let u1 = stream_unigram(&[0, 0, 1]);
    let u2 = stream_unigram(&[5, 5, 5, 6]);
    let mut s = [0usize; 256];
    gen_lvl1_sub(5, &mut s);
    // (2/3 - 3/4)^2 + (1/3 - 0)^2 + (0 - 1/4)^2 = (1 + 16 + 9) / 144
    assert_eq!(compute_unigram_var(&u1, &u2, &s), 26);
    assert_eq!(compute_var_scale(&u1, &u2), 144);
}

#[test]
fn unigram_variance_is_zero_when_the_distributions_coincide() {
    let plain = b"the quick brown fox jumps over the lazy dog";
    let u1 = stream_unigram(plain);
    let mut s = [0usize; 256];
    gen_lvl3_sub(0x21, 0x43, 6543, &mut s);
    let cipher: Vec<u8> = plain.iter().map(|&b| s[b as usize] as u8).collect();
    let u2 = stream_unigram(&cipher);
    assert_eq!(compute_unigram_var(&u1, &u2, &s), 0);
    // Twice the stream has the same distribution.
    let twice: Vec<u8> = cipher.iter().chain(cipher.iter()).copied().collect();
    assert_eq!(compute_unigram_var(&u1, &stream_unigram(&twice), &s), 0);
    let mut t = [0usize; 256];
    gen_lvl3_sub(0x21, 0x43, 6544, &mut t);
    assert!(compute_unigram_var(&u1, &u2, &t) > 0);
}

#[test]
fn variance_against_an_empty_stream_is_zero_over_zero() {
    let u1 = stream_unigram(b"abc");
    let u2 = stream_unigram(&[]);
    assert_eq!(compute_unigram_var(&u1, &u2, &identity()), 0);
    assert_eq!(compute_hamming_var(&u1, &u2, &identity()), 0);
    assert_eq!(compute_var_scale(&u1, &u2), 0);
}

#[test]
fn pairs_are_sorted_by_weight_then_count() {
    let mut v = vec![(3u8, 5u64), (1, 9), (3, 2), (0, 7), (1, 9), (8, 0), (1, 1)];
    sort_pairs_in_place(&mut v);
    assert_eq!(v, vec![(0, 7), (1, 1), (1, 9), (1, 9), (3, 2), (3, 5), (8, 0)]);
    let mut e: Vec<(u8, u64)> = vec![];
    sort_pairs_in_place(&mut e);
    assert!(e.is_empty());
    let mut w: Vec<(u8, u64)> = (0..300u64).map(|i| ((i * 37 % 9) as u8, i * 101 % 17)).collect();
    let mut expected = w.clone();
    expected.sort();
    sort_pairs_in_place(&mut w);
    assert_eq!(w, expected);
}

#[test]
fn hamming_variance_exact_value() {
    let u1 = stream_unigram(&[0, 0, 1]);
    let u2 = stream_unigram(&[5, 5, 5, 6]);
    // Weight 0: 2/3 against 0. Weight 1: 1/3 against 0. Weight 2: 0 against
    // 1/4 and 0 against 3/4. On the scale 144: 64 + 16 + 9 + 81.
    assert_eq!(compute_hamming_var(&u1, &u2, &identity()), 170);
}

#[test]
fn own_pairs_are_sorted_by_weight_then_count() {
    let u = stream_unigram(&[5, 5, 5, 6, 0, 0xff]);
    let own = sorted_own_pairs(&u);
    assert_eq!(own.len(), 256);
    assert_eq!(own[0], (0, 1));
    assert_eq!(own[255], (8, 1));
    // Weight 2 has 28 bytes: 26 unseen, then 6 once and 5 three times.
    assert_eq!(own[9], (2, 0));
    assert_eq!(own[34], (2, 0));
    assert_eq!(own[35], (2, 1));
    assert_eq!(own[36], (2, 3));
    assert_eq!(own[37], (3, 0));
}

#[test]
fn hamming_variance_against_the_sorted_side() {
    let u1 = stream_unigram(&[0, 0, 1]);
    let u2 = stream_unigram(&[5, 5, 5, 6]);
    let own = sorted_own_pairs(&u2);
    assert_eq!(hamming_var_against(&u1, &u2, &identity(), &own), 170);
    let mut s = [0usize; 256];
    gen_lvl2_sub(0x0f, 0x33, &mut s);
    assert_eq!(hamming_var_against(&u1, &u2, &s, &own), compute_hamming_var(&u1, &u2, &s));
}

#[test]
fn hamming_variance_ignores_bit_permutations() {
    let u1 = stream_unigram(b"It was the best of times, it was the worst of times");
    let u2 = stream_unigram(b"\x93\x12\x55\x93\x93\x01\x7f\x7f\x12\x80\x80\x80\xfe");
    let mut s = [0usize; 256];
    let mut t = [0usize; 256];
    for (x, a) in [(0u8, 0u8), (0x37, 0x91), (0xff, 0x01)] {
        gen_lvl2_sub(x, a, &mut s);
        let h = compute_hamming_var(&u1, &u2, &s);
        for m in [1u16, 2, 5040, 33333, 40319] {
            gen_lvl3_sub(x, a, m, &mut t);
            assert_eq!(compute_hamming_var(&u1, &u2, &t), h);
        }
    }
}

#[test]
fn hamming_variance_is_zero_for_the_true_key() {
    let plain = b"the quick brown fox jumps over the lazy dog";
    let u1 = stream_unigram(plain);
    let mut s = [0usize; 256];
    gen_lvl3_sub(0x21, 0x43, 6543, &mut s);
    let cipher: Vec<u8> = plain.iter().map(|&b| s[b as usize] as u8).collect();
    let u2 = stream_unigram(&cipher);
    assert_eq!(compute_hamming_var(&u1, &u2, &s), 0);
    let mut l2 = [0usize; 256];
    gen_lvl2_sub(0x21, 0x43, &mut l2);
    assert_eq!(compute_hamming_var(&u1, &u2, &l2), 0);
}

#[test]
fn wide_product_splits_at_64_bits() {
    assert_eq!(mul_wide(0, 7), (0, 0));
    assert_eq!(mul_wide(5, 7), (0, 35));
    assert_eq!(mul_wide(1 << 64, 3), (3, 0));
    assert_eq!(mul_wide(u128::MAX, 1), ((1 << 64) - 1, (1 << 64) - 1));
    assert_eq!(mul_wide(u128::MAX, 2), ((1 << 65) - 1, (1 << 64) - 2));
    assert_eq!(mul_wide((1 << 64) - 1, 1 << 31), ((1 << 31) - 1, (1 << 64) - (1 << 31)));
}

#[test]
fn products_are_compared_beyond_128_bits() {
    assert!(product_exceeds(3, 5, 7, 2));
    assert!(!product_exceeds(7, 2, 3, 5));
    assert!(!product_exceeds(6, 5, 10, 3));
    assert!(product_exceeds(u128::MAX, u32::MAX, u128::MAX, u32::MAX - 1));
    assert!(!product_exceeds(u128::MAX, u32::MAX - 1, u128::MAX, u32::MAX));
    assert!(!product_exceeds(u128::MAX, u32::MAX, u128::MAX, u32::MAX));
    assert!(product_exceeds(u128::MAX, 2, u128::MAX - 1, 2));
    assert!(!product_exceeds(1, 0, 0, 1));
}
