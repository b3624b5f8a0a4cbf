use samegame::choice::{weighted_pick, Rng};
use samegame::memo::{bucket_of, hash, same_key, TranspositionTable};

#[test]
fn the_generator_steps_as_its_rule_says() {
    let mut rng = Rng::new(0);
    let first = rng.next();
    assert_eq!(rng.state, 1_442_695_040_888_963_407);
    assert_eq!(first, 1_442_695_040_888_963_407 >> 16);
    let second = rng.next();
    let expected = 1_442_695_040_888_963_407u64
        .wrapping_mul(6_364_136_223_846_793_005)
        .wrapping_add(1_442_695_040_888_963_407);
    assert_eq!(rng.state, expected);
    assert_eq!(second, expected >> 16);
}

#[test]
fn the_same_seed_gives_the_same_draws() {
    let mut a = Rng::new(0xfeed);
    let mut b = Rng::new(0xfeed);
    for _ in 0..100 {
        assert_eq!(a.next(), b.next());
    }
    let mut c = Rng::new(0xfeee);
    assert_ne!(a.next(), c.next());
}

#[test]
fn a_draw_falls_on_the_stretch_of_its_weight() {
    let weights = vec![2, 0, 5, 1];
    let picks: Vec<usize> = (0..8).map(|d| weighted_pick(&weights, d)).collect();
    assert_eq!(picks, vec![0, 0, 2, 2, 2, 2, 2, 3]);
    // draws are reduced to the sum of the weights
    assert_eq!(weighted_pick(&weights, 8), 0);
    assert_eq!(weighted_pick(&weights, 15), 3);
    assert_eq!(weighted_pick(&weights, u64::MAX), weighted_pick(&weights, u64::MAX % 8));
}

#[test]
fn a_place_without_weight_is_never_picked_beside_one_with_weight() {
    let weights = vec![0, 0, 3, 0];
    for d in 0..50 {
        assert_eq!(weighted_pick(&weights, d), 2);
    }
}

#[test]
fn where_no_place_has_weight_every_place_is_picked_alike() {
    let weights = vec![0, 0, 0];
    let picks: Vec<usize> = (0..6).map(|d| weighted_pick(&weights, d)).collect();
    assert_eq!(picks, vec![0, 1, 2, 0, 1, 2]);
}

#[test]
fn every_place_with_weight_is_picked_by_some_draw() {
    let weights = vec![1, 1, 4, 1, 9];
    let mut hit = vec![false; 5];
    for d in 0..16 {
        hit[weighted_pick(&weights, d)] = true;
    }
    assert_eq!(hit, vec![true; 5]);
}

#[test]
fn large_weights_do_not_overflow() {
    let weights = vec![u64::MAX, u64::MAX, u64::MAX];
    assert_eq!(weighted_pick(&weights, 0), 0);
    assert_eq!(weighted_pick(&weights, u64::MAX - 1), 0);
    assert_eq!(weighted_pick(&vec![7], 123), 0);
}

#[test]
fn the_digest_follows_its_rule() {
    assert_eq!(hash(&Vec::new()), 14_695_981_039_346_656_037);
    let one = 14_695_981_039_346_656_037u64
        .wrapping_mul(1_099_511_628_211)
        .wrapping_add(7);
    assert_eq!(hash(&vec![7]), one);
    let two = one.wrapping_mul(1_099_511_628_211).wrapping_add(200);
    assert_eq!(hash(&vec![7, 200]), two);
    assert_eq!(bucket_of(&vec![7, 200]), (two % 65_536) as usize);
}

#[test]
fn keys_are_the_same_when_their_bytes_are() {
    assert!(same_key(&vec![1, 2, 3], &vec![1, 2, 3]));
    assert!(!same_key(&vec![1, 2, 3], &vec![1, 2, 4]));
    assert!(!same_key(&vec![1, 2, 3], &vec![1, 2]));
    assert!(same_key(&Vec::new(), &Vec::new()));
}

#[test]
fn the_table_names_the_first_node_given_for_a_key() {
    let mut table = TranspositionTable::new();
    assert_eq!(table.probe(&vec![1, 2, 3]), None);
    assert_eq!(table.get_or_insert(vec![1, 2, 3], 5), 5);
    assert_eq!(table.probe(&vec![1, 2, 3]), Some(5));
    assert_eq!(table.get_or_insert(vec![1, 2, 3], 9), 5);
    assert_eq!(table.probe(&vec![1, 2, 3]), Some(5));
    assert_eq!(table.probe(&vec![1, 2]), None);
    assert_eq!(table.get_or_insert(vec![1, 2], 9), 9);
    assert_eq!(table.probe(&vec![1, 2]), Some(9));
    assert_eq!(table.probe(&vec![1, 2, 3]), Some(5));
}

#[test]
fn the_table_tells_keys_of_one_bucket_apart() {
    // find two keys that share a bucket
    let first: Vec<u8> = vec![0, 0, 0];
    let bucket = bucket_of(&first);
    let mut second: Vec<u8> = Vec::new();
    'search: for a in 0..=255u8 {
        for b in 0..=255u8 {
            for c in 1..=255u8 {
                let key = vec![a, b, c];
                if bucket_of(&key) == bucket {
                    second = key;
                    break 'search;
                }
            }
        }
    }
    assert_eq!(second.len(), 3);
    assert_ne!(first, second);
    let mut table = TranspositionTable::new();
    assert_eq!(table.get_or_insert(first.clone(), 1), 1);
    assert_eq!(table.probe(&second), None);
    assert_eq!(table.get_or_insert(second.clone(), 2), 2);
    assert_eq!(table.probe(&first), Some(1));
    assert_eq!(table.probe(&second), Some(2));
}
