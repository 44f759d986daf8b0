use diffusion_factorio::random::{count, RandomStream};
use rand::seq::SliceRandom;
use rand::{Rng, SeedableRng};
use rand_chacha::ChaCha8Rng;

#[test]
fn a_stream_draws_what_the_generator_draws() {
    let mut stream = RandomStream::seed_from_u64(42);
    let mut rng = ChaCha8Rng::seed_from_u64(42);
    for bound in [1usize, 2, 3, 10, 97, 1 << 20, 12345] {
        assert_eq!(stream.below(bound), rng.gen_range(0..bound));
    }
    let options: Vec<usize> = (0..9).collect();
    for _ in 0..20 {
        assert_eq!(stream.pick(9), *options.choose(&mut rng).unwrap());
    }
    let mut deck: Vec<usize> = (0..30).collect();
    let dealt = stream.shuffle(deck.clone());
    deck.shuffle(&mut rng);
    assert_eq!(dealt, deck);
    assert_eq!(stream.below(1000), rng.gen_range(0..1000usize));
}

#[test]
fn a_seed_fixes_every_draw() {
    let mut a = RandomStream::seed_from_u64(7);
    let mut b = RandomStream::seed_from_u64(7);
    let mut c = RandomStream::seed_from_u64(8);
    let first: Vec<usize> = (0..50).map(|_| a.below(1000)).collect();
    let again: Vec<usize> = (0..50).map(|_| b.below(1000)).collect();
    let other: Vec<usize> = (0..50).map(|_| c.below(1000)).collect();
    assert_eq!(first, again);
    assert_ne!(first, other);
    assert_eq!(a, b);
    assert!(first.iter().all(|&v| v < 1000));
}

#[test]
fn shuffling_keeps_the_values() {
    let mut stream = RandomStream::seed_from_u64(3);
    let dealt = stream.shuffle(vec![5, 5, 1, 2, 9, 9, 9, 0]);
    let mut sorted = dealt.clone();
    sorted.sort();
    assert_eq!(sorted, vec![0, 1, 2, 5, 5, 9, 9, 9]);
    assert_ne!(stream.shuffle(count(40)), count(40));
    assert_eq!(count(4), vec![0, 1, 2, 3]);
}
