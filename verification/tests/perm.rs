use dummycrypt::perm::{decode_perm, PERM_COUNT};

fn is_permutation(p: &[u8; 8]) -> bool {
    let mut seen = [false; 8];
    for &v in p.iter() {
        if v >= 8 || seen[v as usize] {
            return false;
        }
        seen[v as usize] = true;
    }
    true
}

#[test]
fn every_index_decodes_to_a_permutation() {
    for m in 0..=u16::MAX {
        assert!(is_permutation(&decode_perm(m)), "index {}", m);
    }
}

#[test]
fn distinct_indices_decode_to_distinct_permutations() {
    let mut all: Vec<[u8; 8]> = (0..PERM_COUNT).map(decode_perm).collect();
    all.sort();
    all.dedup();
    assert_eq!(all.len(), 40320);
}

#[test]
fn indices_come_in_lexicographic_order() {
    let mut prev = decode_perm(0);
    for m in 1..PERM_COUNT {
        let p = decode_perm(m);
        assert!(prev < p, "index {}", m);
        prev = p;
    }
}

#[test]
fn indices_beyond_the_count_fold() {
    assert_eq!(decode_perm(40320), decode_perm(0));
    assert_eq!(decode_perm(40321), decode_perm(1));
    assert_eq!(decode_perm(65535), decode_perm(65535 - 40320));
}

#[test]
fn index_one_swaps_the_two_highest_positions() {
    assert_eq!(decode_perm(1), [0, 1, 2, 3, 4, 5, 7, 6]);
}

#[test]
fn index_5040_starts_with_position_one() {
    assert_eq!(decode_perm(5040), [1, 0, 2, 3, 4, 5, 6, 7]);
}

#[test]
fn a_scan_over_the_free_positions_gives_the_same_permutation() {
    let c = [40320u16, 5040, 720, 120, 24, 6, 2, 1, 1];
    for m in [0u16, 1, 2, 719, 720, 5039, 12345, 40319, 40320, 50000, 65535] {
        let mut used = [false; 8];
        let mut p = [0usize; 8];
        for i in 0..8 {
            p[i] = ((m % c[i]) / c[i + 1] + 1) as usize;
            for j in 0..8 {
                if !used[j] {
                    p[i] -= 1;
                }
                if p[i] == 0 {
                    p[i] = j;
                    used[j] = true;
                    break;
                }
            }
        }
        let got = decode_perm(m);
        for i in 0..8 {
            assert_eq!(got[i] as usize, p[i], "index {} entry {}", m, i);
        }
    }
}
