use dummycrypt::table::{
    compute_hamming_weight, gen_lvl1_sub, gen_lvl2_sub, gen_lvl3_sub, gen_sub, inv_sub,
};

fn is_bijection(t: &[usize; 256]) -> bool {
    let mut seen = [false; 256];
    for &v in t.iter() {
        if v >= 256 || seen[v] {
            return false;
        }
        seen[v] = true;
    }
    true
}

#[test]
fn hamming_weight_counts_set_bits() {
    assert_eq!(compute_hamming_weight(0x00), 0);
    assert_eq!(compute_hamming_weight(0x01), 1);
    assert_eq!(compute_hamming_weight(0x80), 1);
    assert_eq!(compute_hamming_weight(0xa5), 4);
    assert_eq!(compute_hamming_weight(0xff), 8);
    for b in 0..=255u8 {
        assert_eq!(compute_hamming_weight(b) as u32, b.count_ones());
    }
}

#[test]
fn level1_table_is_xor() {
    let mut t = [0usize; 256];
    gen_lvl1_sub(0x5a, &mut t);
    for i in 0..256 {
        assert_eq!(t[i], i ^ 0x5a);
    }
}

#[test]
fn level2_table_is_xor_then_add() {
    let mut t = [0usize; 256];
    gen_lvl2_sub(0x0f, 0xf8, &mut t);
    for i in 0..256usize {
        assert_eq!(t[i], ((i ^ 0x0f) + 0xf8) % 256);
    }
    assert_eq!(t[0x00], 0x07);
    assert_eq!(t[0xff], 0xe8);
}

#[test]
fn level3_table_routes_the_bits() {
    let mut t = [0usize; 256];
    // Index 1 swaps bit 6 and bit 7.
    gen_lvl3_sub(0, 0, 1, &mut t);
    assert_eq!(t[0x40], 0x80);
    assert_eq!(t[0x80], 0x40);
    assert_eq!(t[0x3f], 0x3f);
    assert_eq!(t[0xc1], 0xc1);
    // Index 40319 reverses the bits.
    gen_lvl3_sub(0, 0, 40319, &mut t);
    for i in 0..256usize {
        assert_eq!(t[i], (i as u8).reverse_bits() as usize);
    }
    // Xor and add come before the routing.
    gen_lvl3_sub(0x01, 0x01, 40319, &mut t);
    assert_eq!(t[0x00], 0x40);
    assert_eq!(t[0xfe], 0x00);
}

#[test]
fn cipher_table_is_the_level3_table() {
    let mut s = [0usize; 256];
    let mut t = [0usize; 256];
    for (x, a, m) in [(0u8, 0u8, 0u16), (0x13, 0x37, 12345), (0xff, 0xff, 65535)] {
        gen_sub(x, a, m, &mut s);
        gen_lvl3_sub(x, a, m, &mut t);
        assert_eq!(s, t);
    }
}

#[test]
fn every_table_is_a_bijection() {
    let mut t = [0usize; 256];
    for x in [0u8, 1, 0x7f, 0x80, 0xff] {
        gen_lvl1_sub(x, &mut t);
        assert!(is_bijection(&t));
        for a in [0u8, 1, 0x7f, 0x80, 0xff] {
            gen_lvl2_sub(x, a, &mut t);
            assert!(is_bijection(&t));
            for m in [0u16, 1, 5039, 5040, 40319, 40320, 65535] {
                gen_sub(x, a, m, &mut t);
                assert!(is_bijection(&t), "x {} a {} m {}", x, a, m);
            }
        }
    }
}

#[test]
fn inverse_undoes_the_table() {
    let mut t = [0usize; 256];
    for (x, a, m) in [(0u8, 0u8, 0u16), (0x13, 0x37, 12345), (0xde, 0xad, 40319)] {
        gen_sub(x, a, m, &mut t);
        let mut inv = t;
        inv_sub(&mut inv);
        for b in 0..256 {
            assert_eq!(inv[t[b]], b);
            assert_eq!(t[inv[b]], b);
        }
        assert!(is_bijection(&inv));
    }
}

#[test]
fn inverting_twice_gives_the_table_back() {
    let mut t = [0usize; 256];
    gen_sub(0x42, 0x99, 31337, &mut t);
    let mut u = t;
    inv_sub(&mut u);
    assert_ne!(u, t);
    inv_sub(&mut u);
    assert_eq!(u, t);
}

#[test]
fn level3_without_add_and_mix_is_level1() {
    let mut s = [0usize; 256];
    let mut t = [0usize; 256];
    for x in 0..=255u8 {
        gen_lvl3_sub(x, 0, 0, &mut s);
        gen_lvl1_sub(x, &mut t);
        assert_eq!(s, t);
    }
}

#[test]
fn level3_without_mix_is_level2() {
    let mut s = [0usize; 256];
    let mut t = [0usize; 256];
    for (x, a) in [(0u8, 1u8), (0x55, 0xaa), (0xff, 0xff)] {
        gen_lvl3_sub(x, a, 0, &mut s);
        gen_lvl2_sub(x, a, &mut t);
        assert_eq!(s, t);
    }
}

#[test]
fn routing_keeps_the_hamming_weight() {
    let mut s = [0usize; 256];
    let mut t = [0usize; 256];
    gen_lvl2_sub(0x3c, 0x11, &mut s);
    for m in [1u16, 777, 40319] {
        gen_lvl3_sub(0x3c, 0x11, m, &mut t);
        for i in 0..256 {
            assert_eq!(
                compute_hamming_weight(s[i] as u8),
                compute_hamming_weight(t[i] as u8)
            );
        }
    }
}
