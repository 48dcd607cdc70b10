use dummycrypt::breaker::{
    break_lvl1, break_lvl2, break_lvl3, collect, refine_shortlist, search_lvl1, search_lvl2,
    search_lvl3, search_mixes, Pruning, SBTask, Sample, Variance,
};
use dummycrypt::cipher::{dummy_crypt, Key};
use dummycrypt::cost::{compute_hamming_var, compute_unigram_var, compute_var_scale};
use dummycrypt::freq::{residue_unigrams, stream_unigram};
use dummycrypt::length::{distance_from_uniform, length_evidence};
use dummycrypt::shortlist::{build_shortlist, offer_candidate, Candidate};
use dummycrypt::table::{gen_lvl2_sub, gen_lvl3_sub};

const PROSE: &[u8] = b"It is a truth universally acknowledged, that a single man in possession \
of a good fortune, must be in want of a wife. However little known the feelings or views of such \
a man may be on his first entering a neighbourhood, this truth is so well fixed in the minds of \
the surrounding families, that he is considered the rightful property of some one or other of \
their daughters. My dear Mr. Bennet, said his lady to him one day, have you heard that \
Netherfield Park is let at last? Mr. Bennet replied that he had not. But it is, returned she; \
for Mrs. Long has just been here, and she told me all about it. Mr. Bennet made no answer. Do \
you not want to know who has taken it? cried his wife impatiently. You want to tell me, and I \
have no objection to hearing it. This was invitation enough. ";

const OTHER_PROSE: &[u8] = b"Call me Ishmael. Some years ago, never mind how long precisely, \
having little or no money in my purse, and nothing particular to interest me on shore, I thought \
I would sail about a little and see the watery part of the world. It is a way I have of driving \
off the spleen and regulating the circulation. Whenever I find myself growing grim about the \
mouth; whenever it is a damp, drizzly November in my soul; whenever I find myself involuntarily \
pausing before coffin warehouses, and bringing up the rear of every funeral I meet; then, I \
account it high time to get to sea as soon as I can. There is nothing surprising in this. ";

fn prose(n: usize) -> Vec<u8> {
    PROSE.iter().cycle().take(n).copied().collect()
}

fn noise(n: usize) -> Vec<u8> {
    let mut state: u64 = 0x2545_f491_4f6c_dd1d;
    (0..n)
        .map(|_| {
            state ^= state << 13;
            state ^= state >> 7;
            state ^= state << 17;
            (state >> 32) as u8
        })
        .collect()
}

fn value(v: &Variance) -> f64 {
    if v.scale == 0 {
        1.0
    } else {
        v.num as f64 / v.scale as f64
    }
}

fn score(vs: &[Variance]) -> f64 {
    vs.iter().fold(1.0, |acc, v| acc - value(v).sqrt() / vs.len() as f64)
}

#[test]
fn sample_keeps_data_and_unigram() {
    let s = Sample::new();
    assert!(s.data.is_empty());
    assert_eq!(s.unigram.total, 0);
    let s = Sample::from_data(b"hello".to_vec());
    assert_eq!(s.data, b"hello".to_vec());
    assert_eq!(s.unigram.total, 5);
    assert_eq!(s.unigram.counts[b'l' as usize], 2);
}

#[test]
fn level1_search_finds_the_xor_byte() {
    let du = stream_unigram(OTHER_PROSE);
    let cipher: Vec<u8> = PROSE.iter().map(|b| b ^ 0xa7).collect();
    let u = stream_unigram(&cipher);
    let res = search_lvl1(&du, &u, 5);
    assert_eq!((res.x, res.a, res.m, res.p), (0xa7, 0, 0, 5));
    assert!(res.score < compute_var_scale(&du, &u));
    let mut t = [0usize; 256];
    gen_lvl2_sub(0xa7, 0, &mut t);
    assert_eq!(res.score, compute_unigram_var(&du, &u, &t));
}

#[test]
fn level1_search_takes_the_first_of_equal_minima() {
    // One byte value seen once on each side: every x that maps the sample
    // byte to the cipher byte scores 0, and there is just one such x.
    let du = stream_unigram(&[0x10]);
    let u = stream_unigram(&[0x35]);
    let res = search_lvl1(&du, &u, 0);
    assert_eq!((res.x, res.score), (0x25, 0));
    // A sample that is flat over two bytes a bit apart: x and x ^ 1 tie.
    let du = stream_unigram(&[0x10, 0x11]);
    let u = stream_unigram(&[0x34, 0x35]);
    let res = search_lvl1(&du, &u, 0);
    assert_eq!((res.x, res.score), (0x24, 0));
}

#[test]
fn search_on_an_empty_residue_finds_nothing() {
    let du = stream_unigram(PROSE);
    let u = stream_unigram(&[]);
    let res = search_lvl1(&du, &u, 3);
    assert_eq!((res.x, res.a, res.m, res.p, res.score), (0, 0, 0, 3, 0));
    let res = search_lvl2(&du, &u, 4);
    assert_eq!((res.x, res.a, res.m, res.p, res.score), (0, 0, 0, 4, 0));
}

#[test]
fn level2_search_finds_xor_and_add() {
    let du = stream_unigram(OTHER_PROSE);
    let cipher: Vec<u8> = PROSE.iter().map(|b| (b ^ 0x35).wrapping_add(0x77)).collect();
    let u = stream_unigram(&cipher);
    let res = search_lvl2(&du, &u, 1);
    assert_eq!((res.x, res.a, res.m, res.p), (0x35, 0x77, 0, 1));
}

#[test]
fn level2_search_reports_the_first_of_two_equal_keys() {
    // Flipping the top bit of x and adding 0x80 are the same substitution.
    let du = stream_unigram(OTHER_PROSE);
    let cipher: Vec<u8> = PROSE.iter().map(|b| (b ^ 0xb5).wrapping_add(0x77)).collect();
    let u = stream_unigram(&cipher);
    let res = search_lvl2(&du, &u, 0);
    assert_eq!((res.x, res.a), (0x35, 0xf7));
}

#[test]
fn level1_break_recovers_the_key() {
    let sample = Sample::from_data(OTHER_PROSE.to_vec());
    let mut data = prose(4096);
    dummy_crypt(&mut data, &Key::new(vec![0xde, 0xad, 0xbe, 0xef], vec![], vec![]));
    let mut key = Vec::new();
    let v = break_lvl1(&data, &sample, 4, &mut key);
    assert_eq!(key, vec![vec![0xde, 0xad, 0xbe, 0xef]]);
    assert!(!v.aborted);
    assert_eq!(v.variance.len(), 4);
    assert!(score(&v.variance) > 0.5);
}

#[test]
fn level2_break_recovers_the_key() {
    let sample = Sample::from_data(PROSE.to_vec());
    let mut data = prose(4096);
    dummy_crypt(&mut data, &Key::new(vec![0x11, 0x22, 0x33], vec![0x01, 0x02, 0x03], vec![]));
    let mut key = Vec::new();
    let v = break_lvl2(&data, &sample, 3, &mut key);
    assert_eq!(key, vec![vec![0x11, 0x22, 0x33], vec![0x01, 0x02, 0x03]]);
    assert!(!v.aborted);
    assert!(score(&v.variance) > 0.5);
}

#[test]
fn breaks_are_repeatable() {
    let sample = Sample::from_data(OTHER_PROSE.to_vec());
    let mut data = prose(1500);
    dummy_crypt(&mut data, &Key::new(vec![0x5a, 0x3c], vec![0x10], vec![]));
    let mut k1 = Vec::new();
    let mut k2 = Vec::new();
    let v1 = break_lvl2(&data, &sample, 2, &mut k1);
    let v2 = break_lvl2(&data, &sample, 2, &mut k2);
    assert_eq!(k1, k2);
    for (a, b) in v1.variance.iter().zip(v2.variance.iter()) {
        assert_eq!((a.num, a.scale), (b.num, b.scale));
    }
    let mut k1 = Vec::new();
    let mut k2 = Vec::new();
    let v1 = break_lvl1(&data, &sample, 2, &mut k1);
    let v2 = break_lvl1(&data, &sample, 2, &mut k2);
    assert_eq!(k1, k2);
    for (a, b) in v1.variance.iter().zip(v2.variance.iter()) {
        assert_eq!((a.num, a.scale), (b.num, b.scale));
    }
}

#[test]
fn level3_breaks_are_repeatable() {
    let sample = Sample::from_data(PROSE.to_vec());
    let mut data = prose(900);
    dummy_crypt(&mut data, &Key::new(vec![0x21, 0x10], vec![0x43], vec![0x03, 0x09, 0x00, 0x07]));
    let pr = Pruning { shortlist: 3, cutoff_num: 1, cutoff_den: 50 };
    let mut k1 = Vec::new();
    let mut k2 = Vec::new();
    let v1 = break_lvl3(&data, &sample, 2, &mut k1, &pr);
    let v2 = break_lvl3(&data, &sample, 2, &mut k2, &pr);
    assert_eq!(k1, k2);
    assert_eq!(v1.aborted, v2.aborted);
    for (a, b) in v1.variance.iter().zip(v2.variance.iter()) {
        assert_eq!((a.num, a.scale), (b.num, b.scale));
    }
}

#[test]
fn true_key_brings_every_residue_to_variance_zero() {
    let plain = prose(1000);
    let key = Key::new(vec![0x21, 0x10, 0xfe], vec![0x43], vec![0x03, 0x09, 0x00, 0x07]);
    let mut data = plain.clone();
    dummy_crypt(&mut data, &key);
    let before = residue_unigrams(&plain, 3);
    let after = residue_unigrams(&data, 3);
    let mut t = [0usize; 256];
    for p in 0..3 {
        let m = (key.m[2 * p] as u16) * 256 + key.m[2 * p + 1] as u16;
        gen_lvl3_sub(key.x[p], key.a[p], m, &mut t);
        assert_eq!(before[p].total, after[p].total);
        for b in 0..256 {
            assert_eq!(before[p].counts[b], after[p].counts[t[b]]);
        }
        assert_eq!(compute_unigram_var(&before[p], &after[p], &t), 0);
    }
}

#[test]
fn break_of_length_zero_gives_empty_streams() {
    let sample = Sample::from_data(OTHER_PROSE.to_vec());
    let data = prose(100);
    let mut key = vec![vec![1u8, 2, 3]];
    let v = break_lvl1(&data, &sample, 0, &mut key);
    assert_eq!(key, vec![Vec::<u8>::new()]);
    assert!(v.variance.is_empty());
    let v = break_lvl3(&data, &sample, 0, &mut key, &Pruning::standard());
    assert_eq!(key, vec![Vec::<u8>::new(), Vec::new(), Vec::new()]);
    assert!(!v.aborted);
}

#[test]
fn break_longer_than_the_data_leaves_empty_residues_without_key() {
    let sample = Sample::from_data(OTHER_PROSE.to_vec());
    let data: Vec<u8> = b"ab".iter().map(|b| b ^ 0x20).collect();
    let mut key = Vec::new();
    let v = break_lvl1(&data, &sample, 3, &mut key);
    assert_eq!(key[0][2], 0);
    assert_eq!((v.variance[2].num, v.variance[2].scale), (0, 0));
    assert_eq!(value(&v.variance[2]), 1.0);
}

#[test]
fn shortlist_is_ascending_and_bounded() {
    let du = stream_unigram(OTHER_PROSE);
    let cipher: Vec<u8> = PROSE.iter().map(|b| (b ^ 0x35).wrapping_add(0x77)).collect();
    let u = stream_unigram(&cipher);
    let sl = build_shortlist(&du, &u, 12);
    assert_eq!(sl.len(), 12);
    let mut t = [0usize; 256];
    for w in sl.windows(2) {
        let (c, d) = (&w[0], &w[1]);
        assert!(c.cost < d.cost || (c.cost == d.cost && (c.x, c.a) < (d.x, d.a)));
    }
    for c in sl.iter() {
        gen_lvl2_sub(c.x, c.a, &mut t);
        assert_eq!(c.cost, compute_hamming_var(&du, &u, &t));
    }
    // The true key has Hamming variance 0 against a sample of the same
    // distribution, so it heads the shortlist of the cipher's own unigram.
    let own = build_shortlist(&stream_unigram(PROSE), &u, 3);
    assert_eq!(own[0].cost, 0);
    assert!(build_shortlist(&du, &u, 0).is_empty());
}

#[test]
fn offered_candidates_keep_the_best_in_order() {
    let mut list: Vec<Candidate> = Vec::new();
    let offers = [(0u8, 0u8, 50u128), (0, 1, 30), (0, 2, 50), (0, 3, 10), (0, 4, 30), (0, 5, 5)];
    for (x, a, cost) in offers {
        offer_candidate(&mut list, Candidate { x, a, cost }, 3);
    }
    let got: Vec<(u8, u128)> = list.iter().map(|c| (c.a, c.cost)).collect();
    assert_eq!(got, vec![(5, 5), (3, 10), (1, 30)]);
    let mut list: Vec<Candidate> = Vec::new();
    for (x, a, cost) in offers {
        offer_candidate(&mut list, Candidate { x, a, cost }, 10);
    }
    let got: Vec<(u8, u128)> = list.iter().map(|c| (c.a, c.cost)).collect();
    assert_eq!(got, vec![(5, 5), (3, 10), (1, 30), (4, 30), (0, 50), (2, 50)]);
}

#[test]
fn mix_search_finds_the_first_best_index() {
    let plain = PROSE;
    let du = stream_unigram(plain);
    let mut s = [0usize; 256];
    gen_lvl3_sub(0x21, 0x43, 777, &mut s);
    let cipher: Vec<u8> = plain.iter().map(|&b| s[b as usize] as u8).collect();
    let u = stream_unigram(&cipher);
    let scale = compute_var_scale(&du, &u);
    let start = SBTask { x: 9, a: 9, m: 9, p: 2, score: scale };
    let res = search_mixes(&du, &u, start, &Candidate { x: 0x21, a: 0x43, cost: 0 });
    assert_eq!((res.x, res.a, res.p, res.score), (0x21, 0x43, 2, 0));
    let mut t = [0usize; 256];
    gen_lvl3_sub(0x21, 0x43, res.m, &mut t);
    assert_eq!(compute_unigram_var(&du, &u, &t), 0);
    assert!(res.m <= 777);
    for m in 0..res.m {
        gen_lvl3_sub(0x21, 0x43, m, &mut t);
        assert!(compute_unigram_var(&du, &u, &t) > 0);
    }
    // Nothing beats a score of 0: the start is handed back.
    let start = SBTask { x: 9, a: 9, m: 9, p: 2, score: 0 };
    let res = search_mixes(&du, &u, start, &Candidate { x: 0x21, a: 0x43, cost: 0 });
    assert_eq!((res.x, res.a, res.m, res.p, res.score), (9, 9, 9, 2, 0));
}

#[test]
fn shortlist_walk_stops_at_the_cutoff() {
    let du = stream_unigram(PROSE);
    let mut s = [0usize; 256];
    gen_lvl3_sub(0x21, 0x43, 777, &mut s);
    let cipher: Vec<u8> = PROSE.iter().map(|&b| s[b as usize] as u8).collect();
    let u = stream_unigram(&cipher);
    let scale = compute_var_scale(&du, &u);
    let good = Candidate { x: 0x21, a: 0x43, cost: 0 };
    let over = Candidate { x: 0x21, a: 0x43, cost: scale / 100 + 1 };
    let at = Candidate { x: 0x00, a: 0x00, cost: scale / 100 };
    let pr = Pruning::standard();
    assert_eq!((pr.shortlist, pr.cutoff_num, pr.cutoff_den), (40, 1, 100));
    // A candidate over the cutoff ends the walk before the good one.
    let res = refine_shortlist(&du, &u, 0, &vec![over, good], &pr);
    assert_eq!((res.x, res.a, res.m, res.score), (0, 0, 0, scale));
    // One at the cutoff does not.
    let res = refine_shortlist(&du, &u, 0, &vec![at, good], &pr);
    assert_eq!((res.x, res.a, res.score), (0x21, 0x43, 0));
    // Once the best is 0, a candidate of cost above 0 ends the walk.
    let res = refine_shortlist(&du, &u, 0, &vec![good, Candidate { x: 1, a: 1, cost: 1 }], &pr);
    assert_eq!((res.x, res.a, res.score), (0x21, 0x43, 0));
    let res = refine_shortlist(&du, &u, 7, &vec![], &pr);
    assert_eq!((res.x, res.a, res.m, res.p, res.score), (0, 0, 0, 7, scale));
}

#[test]
fn level3_search_recovers_an_equivalent_key() {
    let du = stream_unigram(PROSE);
    let mut s = [0usize; 256];
    gen_lvl3_sub(0x21, 0x43, 777, &mut s);
    let cipher: Vec<u8> = PROSE.iter().map(|&b| s[b as usize] as u8).collect();
    let u = stream_unigram(&cipher);
    let pr = Pruning { shortlist: 2, cutoff_num: 1, cutoff_den: 100 };
    let res = search_lvl3(&du, &u, 0, &pr);
    assert_eq!(res.score, 0);
    let mut t = [0usize; 256];
    gen_lvl3_sub(res.x, res.a, res.m, &mut t);
    assert_eq!(compute_unigram_var(&du, &u, &t), 0);
    let back: Vec<u8> = cipher
        .iter()
        .map(|&c| t.iter().position(|&v| v == c as usize).unwrap() as u8)
        .collect();
    assert_eq!(back, PROSE.to_vec());
}

#[test]
fn level3_break_on_noise_ends_without_a_key() {
    let sample = Sample::from_data(PROSE[..64].to_vec());
    let data = noise(4096);
    let mut key = Vec::new();
    let v = break_lvl3(&data, &sample, 2, &mut key, &Pruning::standard());
    assert_eq!(key.len(), 3);
    assert_eq!((key[0].len(), key[1].len(), key[2].len()), (2, 2, 4));
    assert_eq!(v.variance.len(), 2);
    let s = if v.aborted { 0.0 } else { score(&v.variance) };
    assert!((0.0..=1.0).contains(&s));
    assert!(v.aborted);
    assert_eq!(key, vec![vec![0, 0], vec![0, 0], vec![0, 0, 0, 0]]);
}

#[test]
fn level3_break_writes_the_mix_index_big_endian() {
    let sample = Sample::from_data(PROSE.to_vec());
    let mut data = PROSE.to_vec();
    dummy_crypt(&mut data, &Key::new(vec![0x21], vec![0x43], vec![0x03, 0x09]));
    let mut key = Vec::new();
    let v = break_lvl3(&data, &sample, 1, &mut key, &Pruning::standard());
    assert!(!v.aborted);
    assert_eq!(v.variance[0].num, 0);
    let found = Key::new(key[0].clone(), key[1].clone(), key[2].clone());
    let mut again = PROSE.to_vec();
    dummy_crypt(&mut again, &found);
    assert_eq!(again, data);
}

#[test]
fn results_are_placed_by_their_residue() {
    let du = stream_unigram(PROSE);
    let data = prose(300);
    let us = residue_unigrams(&data, 3);
    let scale1 = compute_var_scale(&du, &us[1]);
    let tasks = vec![
        SBTask { x: 0x22, a: 0x02, m: 0x0309, p: 2, score: 7 },
        SBTask { x: 0x20, a: 0x00, m: 0xffff, p: 0, score: 5 },
    ];
    let rec = collect(&du, &us, &tasks);
    assert_eq!(rec.x, vec![0x20, 0x00, 0x22]);
    assert_eq!(rec.a, vec![0x00, 0x00, 0x02]);
    assert_eq!(rec.m, vec![0xff, 0xff, 0x00, 0x00, 0x03, 0x09]);
    let nums: Vec<u128> = rec.variance.iter().map(|v| v.num).collect();
    assert_eq!(nums, vec![5, scale1, 7]);
    assert_eq!(rec.variance[1].scale, scale1);
    assert!(!rec.aborted);
    // A later result for the same residue replaces the earlier one; a
    // result that found nothing marks the recovery as aborted.
    let tasks = vec![
        SBTask { x: 1, a: 1, m: 1, p: 1, score: 9 },
        SBTask { x: 0, a: 0, m: 0, p: 1, score: scale1 },
    ];
    let rec = collect(&du, &us, &tasks);
    assert_eq!(rec.x, vec![0, 0, 0]);
    assert_eq!(rec.variance[1].num, scale1);
    assert!(rec.aborted);
}

#[test]
fn distance_from_uniform_exact_value() {
    // One byte value only: (256 - 1)^2 + 255 * 1 on the scale 256^2.
    let v = distance_from_uniform(&stream_unigram(&[7]));
    assert_eq!((v.num, v.scale), (255 * 255 + 255, 256 * 256));
    // Every byte value once: uniform.
    let all: Vec<u8> = (0..=255).collect();
    let v = distance_from_uniform(&stream_unigram(&all));
    assert_eq!((v.num, v.scale), (0, 65536 * 65536));
    let v = distance_from_uniform(&stream_unigram(&[]));
    assert_eq!((v.num, v.scale), (0, 0));
}

#[test]
fn length_evidence_has_one_row_per_length() {
    let data = prose(200);
    let ev = length_evidence(&data, 4);
    assert_eq!(ev.len(), 4);
    for (k, row) in ev.iter().enumerate() {
        assert_eq!(row.len(), k + 1);
        let us = residue_unigrams(&data, k + 1);
        for (p, v) in row.iter().enumerate() {
            let d = distance_from_uniform(&us[p]);
            assert_eq!((v.num, v.scale), (d.num, d.scale));
        }
    }
    assert!(length_evidence(&data, 0).is_empty());
}

#[test]
fn key_length_is_recovered() {
    let mut data = prose(4096);
    dummy_crypt(&mut data, &Key::new(vec![0xde, 0xad, 0xbe, 0xef], vec![], vec![]));
    let ev = length_evidence(&data, 10);
    let mut scored: Vec<(f64, usize)> = ev
        .iter()
        .enumerate()
        .map(|(k, row)| {
            let l = (k + 1) as f64;
            let s: f64 = row
                .iter()
                .map(|v| (v.num as f64 / v.scale as f64).sqrt() / l.powf(1.1))
                .sum();
            (s, k + 1)
        })
        .collect();
    scored.sort_by(|a, b| b.0.partial_cmp(&a.0).unwrap());
    assert!(scored[0].1 == 4 || scored[..3].iter().any(|c| c.1 % 4 == 0));
    assert_eq!(scored[0].1 % 4, 0);
}
