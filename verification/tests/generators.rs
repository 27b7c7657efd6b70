use cta_bench::generators::{
    adj_list, bst_key_sequence, bst_with_two_keys, canonical_coin_system, int_vec, interval_vec, knapsack_instance,
    pair_int_vec, sample_len, sorted_int_vec_with_target,
};
use rand::SeedableRng;
use rand_chacha::ChaCha20Rng;

#[test]
fn generated_vectors_respect_their_ranges() {
    let mut rng = ChaCha20Rng::seed_from_u64(7);
    for _ in 0..50 {
        let (v, t) = sorted_int_vec_with_target(&mut rng, 0, 1000, -5, 5);
        assert!(v.len() <= 256);
        assert!(v.windows(2).all(|w| w[0] <= w[1]));
        assert!(v.iter().all(|x| (-5..=5).contains(x)));
        assert!((-5..=5).contains(&t));
        let w = int_vec(&mut rng, 3, 8, 0, 9);
        assert!(w.len() >= 3 && w.len() <= 8);
        let (a, b) = pair_int_vec(&mut rng, 1, 4, 1, 1);
        assert!(a.iter().chain(b.iter()).all(|x| *x == 1));
        let iv = interval_vec(&mut rng, 0, 100, -3, 3);
        assert!(iv.len() <= 64);
        assert!(iv.iter().all(|(s, e)| -3 <= *s && s < e && *e <= 4));
    }
    assert_eq!(sample_len(&mut rng, 5, 5), 5);
    assert_eq!(sample_len(&mut rng, 9, 2), 9);
    assert_eq!(int_vec(&mut rng, 0, 0, 10, 0), Vec::<i32>::new());
}

#[test]
fn generated_graphs_are_simple() {
    let mut rng = ChaCha20Rng::seed_from_u64(11);
    for _ in 0..30 {
        let (adj, s) = adj_list(&mut rng, 0, 12, 3);
        assert!(!adj.is_empty() && adj.len() <= 12);
        assert!(s < adj.len());
        for (u, row) in adj.iter().enumerate() {
            assert!(row.len() <= 3);
            assert!(row.windows(2).all(|w| w[0] < w[1]));
            assert!(row.iter().all(|v| *v < adj.len() && *v != u));
        }
    }
}

#[test]
fn generated_instances_and_keys() {
    let mut rng = ChaCha20Rng::seed_from_u64(3);
    let systems = vec![vec![1, 5, 10], vec![1, 2]];
    for _ in 0..30 {
        let (d, a) = canonical_coin_system(&mut rng, &systems, 0, 40);
        assert!(systems.contains(&d));
        assert!(a <= 40);
        let (w, v, c) = knapsack_instance(&mut rng, 0, 40, 1, 9, 0, 5, 3, 7);
        assert_eq!(w.len(), v.len());
        assert!(w.len() <= 16);
        assert!(w.iter().all(|x| (1..=9).contains(x)) && v.iter().all(|x| *x <= 5));
        assert!((3..=7).contains(&c));
        let (ks, k) = bst_key_sequence(&mut rng, 0, 10, -2, 2);
        assert!(ks.len() <= 10 && ks.iter().all(|x| (-2..=2).contains(x)) && (-2..=2).contains(&k));
        let (keys, p, q) = bst_with_two_keys(&mut rng, 0, 10, 0, 100);
        assert!(keys.len() >= 2 && keys.len() <= 10);
        assert!(keys.contains(&p) && keys.contains(&q));
        let mut sorted = keys.clone();
        sorted.sort();
        sorted.dedup();
        assert_eq!(sorted.len(), keys.len());
    }
    // a one-value key range falls back to two keys
    let (keys, _, _) = bst_with_two_keys(&mut rng, 4, 10, 5, 5);
    assert_eq!(keys, vec![5, 6]);
}

#[test]
fn same_seed_same_inputs() {
    let mut a = ChaCha20Rng::seed_from_u64(42);
    let mut b = ChaCha20Rng::seed_from_u64(42);
    assert_eq!(adj_list(&mut a, 1, 20, 4), adj_list(&mut b, 1, 20, 4));
    assert_eq!(
        sorted_int_vec_with_target(&mut a, 0, 30, -9, 9),
        sorted_int_vec_with_target(&mut b, 0, 30, -9, 9)
    );
}
