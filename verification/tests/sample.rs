use diffusion_factorio::factory_gen::{generate, Canvas, LessonKind};
use diffusion_factorio::random::RandomStream;
use diffusion_factorio::sample::{argmax_legal, rank_of, reveal_count, start, stay_masked, Session};
use diffusion_factorio::world::{
    legal_cells, Cell, Direction, Entity, Grid, LEGAL, N_CHANNELS, VOCAB,
};
use rand::{Rng, SeedableRng};
use rand_chacha::ChaCha8Rng;

fn pick_of(cell: Cell) -> usize {
    legal_cells()
        .iter()
        .position(|ids| Cell::from_ids(*ids) == Some(cell))
        .unwrap()
}

fn decode(session: &mut Session, steps: usize, mut score: impl FnMut(usize) -> i64) {
    for step in 0..steps {
        let cells = session.masked_cells();
        let scores: Vec<i64> = cells.iter().map(|&c| score(c)).collect();
        let picks: Vec<usize> = cells.iter().map(|&c| c % LEGAL).collect();
        let scheduled = session.masked0 * (steps - step - 1) / steps;
        session.commit(step, steps, scheduled, &scores, &picks);
    }
}

/// The order of numbers that are not positive, as integers.
fn order_key(value: f64) -> i64 {
    -((-value + 0.0).to_bits() as i64)
}

/// The legal cell that four heads agree on best, or a draw among the legal cells at
/// temperature one, with its joint log-probability.
fn decode_cell(
    probs: &[Vec<f32>; N_CHANNELS],
    temperature: f64,
    rng: &mut ChaCha8Rng,
) -> ([usize; N_CHANNELS], f64) {
    let legal = legal_cells();
    let scores: Vec<f64> = legal
        .iter()
        .map(|ids| (0..N_CHANNELS).map(|c| (probs[c][ids[c]] as f64).max(1e-9).ln()).sum())
        .collect();
    let pick = if temperature > 0.0 {
        let top = scores.iter().copied().fold(f64::NEG_INFINITY, f64::max);
        let weights: Vec<f64> = scores.iter().map(|s| ((s - top) / temperature).exp()).collect();
        let mut r = rng.gen::<f64>() * weights.iter().sum::<f64>();
        weights
            .iter()
            .position(|w| {
                r -= w;
                r <= 0.0
            })
            .unwrap_or(LEGAL - 1)
    } else {
        argmax_legal(&scores.iter().map(|&v| order_key(v)).collect())
    };
    (legal[pick], scores[pick])
}

fn sure_of_the_first(vocab: usize) -> Vec<f32> {
    (0..vocab).map(|id| if id == 0 { 1.0 } else { 0.0 }).collect()
}

#[test]
fn a_split_direction_vote_no_longer_builds_a_belt_facing_nowhere() {
    let mut entity = vec![0.0; VOCAB[0]];
    entity[Entity::Empty.id()] = 0.3;
    entity[Entity::TransportBelt.id()] = 0.7;
    let mut direction = vec![0.0; VOCAB[1]];
    direction[Direction::Nowhere.id()] = 0.3;
    direction[Direction::East.id()] = 0.28;
    direction[Direction::North.id()] = 0.16;
    direction[Direction::South.id()] = 0.16;
    direction[Direction::West.id()] = 0.1;
    let probs = [entity, direction, sure_of_the_first(VOCAB[2]), sure_of_the_first(VOCAB[3])];

    let apart: [usize; N_CHANNELS] = std::array::from_fn(|c| {
        (0..VOCAB[c])
            .max_by(|&a, &b| probs[c][a].partial_cmp(&probs[c][b]).unwrap())
            .unwrap()
    });
    assert_eq!(apart[0], Entity::TransportBelt.id());
    assert_eq!(apart[1], Direction::Nowhere.id());
    assert!(!Cell::from_ids(apart).unwrap().is_consistent());

    let mut rng = ChaCha8Rng::seed_from_u64(0);
    let (ids, _) = decode_cell(&probs, 0.0, &mut rng);
    let cell = Cell::from_ids(ids).unwrap();
    assert!(cell.is_consistent(), "decoded {cell:?}");
    assert_eq!(cell.entity, Entity::TransportBelt);
    assert_eq!(cell.direction, Direction::East);
}

#[test]
fn a_cell_the_model_cannot_resolve_scores_low_instead_of_guessing() {
    let mut entity = vec![0.0; VOCAB[0]];
    entity[Entity::Empty.id()] = 0.45;
    entity[Entity::TransportBelt.id()] = 0.55;
    let mut direction = vec![0.55 / 4.0; VOCAB[1]];
    direction[Direction::Nowhere.id()] = 0.45;
    let probs = [entity, direction, sure_of_the_first(VOCAB[2]), sure_of_the_first(VOCAB[3])];
    let mut rng = ChaCha8Rng::seed_from_u64(0);
    let (ids, score) = decode_cell(&probs, 0.0, &mut rng);
    let cell = Cell::from_ids(ids).unwrap();
    assert!(cell.is_consistent(), "decoded {cell:?}");
    assert_eq!(cell.entity, Entity::Empty);
    assert!(score < (0.55f64 * 0.45).ln(), "score {score}");
}

#[test]
fn no_distribution_and_no_temperature_can_decode_an_illegal_cell() {
    let mut rng = ChaCha8Rng::seed_from_u64(9);
    for trial in 0..2_000 {
        let probs: [Vec<f32>; N_CHANNELS] = std::array::from_fn(|c| {
            let raw: Vec<f32> = (0..VOCAB[c]).map(|_| rng.gen::<f32>()).collect();
            let total: f32 = raw.iter().sum();
            raw.into_iter().map(|v| v / total).collect()
        });
        let temperature = if trial % 2 == 0 { 0.0 } else { 1.0 };
        let (ids, _) = decode_cell(&probs, temperature, &mut rng);
        let cell = Cell::from_ids(ids).expect("decoded ids are real categories");
        assert!(cell.is_consistent(), "trial {trial} decoded {cell:?}");
    }
}

#[test]
fn the_schedule_leaves_nothing_masked_at_the_end() {
    for steps in [1, 2, 4, 12, 24, 64] {
        for masked0 in [1, 7, 115, 1024] {
            assert_eq!(
                stay_masked(steps - 1, steps, masked0),
                0,
                "steps={steps} masked0={masked0}"
            );
        }
    }
}

#[test]
fn every_legal_cell_is_listed_once_and_in_order() {
    let legal = legal_cells();
    assert_eq!(legal.len(), 57);
    let mut expected = Vec::new();
    for e in 0..VOCAB[0] {
        for d in 0..VOCAB[1] {
            for i in 0..VOCAB[2] {
                for m in 0..VOCAB[3] {
                    if Cell::from_ids([e, d, i, m]).unwrap().is_consistent() {
                        expected.push([e, d, i, m]);
                    }
                }
            }
        }
    }
    assert_eq!(legal, expected);
}

#[test]
fn the_first_of_the_highest_scores_is_picked() {
    assert_eq!(argmax_legal(&vec![-5, 3, 3, -9]), 1);
    assert_eq!(argmax_legal(&vec![-5]), 0);
    assert_eq!(argmax_legal(&Vec::new()), 0);
}

#[test]
fn ties_rank_by_their_place() {
    let scores = vec![4, 9, 4, 9];
    let ranks: Vec<usize> = (0..4).map(|j| rank_of(&scores, j)).collect();
    assert_eq!(ranks, vec![2, 0, 3, 1]);
}

#[test]
fn a_round_commits_at_least_one_cell_and_the_last_all() {
    assert_eq!(reveal_count(10, 4), 6);
    assert_eq!(reveal_count(10, 10), 1);
    assert_eq!(reveal_count(10, 40), 1);
    assert_eq!(reveal_count(0, 0), 0);
    assert_eq!(stay_masked(2, 12, 70), 70);
    assert_eq!(stay_masked(11, 12, 70), 0);
}

#[test]
fn the_surest_cells_are_committed_first() {
    let grid = Grid::new(4, 1);
    let mut session = start(&grid, &vec![false; 4]);
    assert_eq!(session.masked0, 4);
    let belt = pick_of(Cell::belt(Direction::East));
    let chosen = session.commit(0, 3, 2, &vec![1, 8, 3, 8], &vec![belt; 4]);
    assert_eq!(chosen, vec![false, true, false, true]);
    assert_eq!(session.masked_cells(), vec![0, 2]);
    assert_eq!(session.reveal_step, vec![0, 1, 0, 1]);
    assert_eq!(session.grid().get(1, 0), Cell::belt(Direction::East));
    assert!(session.grid().get(0, 0).is_empty());

    let chosen = session.commit(1, 3, 2, &vec![1, 0], &vec![belt, belt]);
    assert_eq!(chosen, vec![true, false]);
    let chosen = session.commit(2, 3, 2, &vec![0], &vec![0]);
    assert_eq!(chosen, vec![true]);
    assert!(session.masked_cells().is_empty());
    assert_eq!(session.reveal_step, vec![2, 1, 3, 1]);
}

#[test]
fn a_model_is_shown_the_mask_where_nothing_is_committed() {
    let mut grid = Grid::new(2, 1);
    grid.set(0, 0, Cell::belt(Direction::North));
    grid.set(1, 0, Cell::belt(Direction::North));
    let session = start(&grid, &vec![true, false]);
    assert_eq!(session.tokens(), vec![3, 8, 1, 5, 0, 6, 0, 3]);
}

#[test]
fn reconstruct_preserves_observed_and_wellformed_shape() {
    let s = generate(LessonKind::MoveOneItem, Canvas::square(11), 4).unwrap();
    let mut rng = RandomStream::seed_from_u64(2);
    let (partial, observed) = s.blank(None, &mut rng);
    let mut session = start(&partial, &observed);
    decode(&mut session, 6, |c| (c as i64 * 7919) % 101);
    let g = session.grid();
    assert_eq!((g.height, g.width), (11, 11));
    for (cell, &o) in observed.iter().enumerate() {
        if o {
            let (x, y) = (cell % 11, cell / 11);
            assert_eq!(g.get(x, y), s.solution.get(x, y), "observed cell changed");
        } else {
            assert!(g.cells[cell].is_consistent());
        }
    }
}

#[test]
fn diagnostics_cover_every_cell() {
    let sample = generate(LessonKind::MoveOneItem, Canvas::square(7), 9).unwrap();
    let mut rng = RandomStream::seed_from_u64(3);
    let (partial, observed) = sample.blank(None, &mut rng);
    let mut session = start(&partial, &observed);
    decode(&mut session, 3, |c| -(c as i64));
    assert_eq!(session.reveal_step.len(), 49);
    for (i, &is_observed) in observed.iter().enumerate() {
        assert_eq!(session.reveal_step[i] == 0, is_observed);
    }
    assert!(session.masked_cells().is_empty());
}

#[test]
fn what_is_committed_stays() {
    let mut session = start(&Grid::new(5, 5), &vec![false; 25]);
    let mut before = session.grid();
    for step in 0..5 {
        let n = session.masked_cells().len();
        let held: Vec<bool> = session.masked.iter().map(|m| !m).collect();
        let scores: Vec<i64> = (0..n as i64).map(|i| (i * 31) % 17).collect();
        session.commit(step, 5, 25 - 5 * (step + 1), &scores, &vec![step + 1; n]);
        let after = session.grid();
        assert_eq!(session.masked_cells().len(), n - 5);
        for (i, &kept) in held.iter().enumerate() {
            if kept {
                assert_eq!(after.cells[i], before.cells[i]);
            }
        }
        before = after;
    }
}

#[test]
fn what_a_masked_cell_stores_is_never_read() {
    let s = generate(LessonKind::MoveOneItem, Canvas::square(11), 4).unwrap();
    let mut rng = RandomStream::seed_from_u64(2);
    let (partial, observed) = s.blank(None, &mut rng);
    let mut other = partial.clone();
    for (cell, &given) in observed.iter().enumerate() {
        if !given {
            other.cells[cell] = Cell::belt(Direction::West);
        }
    }
    assert_ne!(partial.cells, other.cells);
    let mut a = start(&partial, &observed);
    let mut b = start(&other, &observed);
    for step in 0..4 {
        assert_eq!(a.grid(), b.grid());
        assert_eq!(a.tokens(), b.tokens());
        for session in [&mut a, &mut b] {
            let cells = session.masked_cells();
            let tokens = session.tokens();
            let scores: Vec<i64> = cells.iter().map(|&c| (c as i64 * 31) % 7).collect();
            let picks: Vec<usize> = cells.iter().map(|&c| tokens[c] as usize + step).collect();
            let scheduled = session.masked0 * (3 - step) / 4;
            session.commit(step, 4, scheduled, &scores, &picks);
        }
    }
    assert_eq!(a.grid(), b.grid());
    assert_eq!(a.reveal_step, b.reveal_step);
}

#[test]
fn cells_carry_the_round_they_were_committed_in() {
    let mut observed = vec![false; 12];
    observed[5] = true;
    let mut session = start(&Grid::new(4, 3), &observed);
    for step in 0..4 {
        let n = session.masked_cells().len();
        session.commit(step, 4, 12 - 3 * (step + 1), &vec![0; n], &vec![1; n]);
        for (cell, &round) in session.reveal_step.iter().enumerate() {
            if observed[cell] || session.masked[cell] {
                assert_eq!(round, 0);
            } else {
                assert!((1..=step + 1).contains(&round));
            }
        }
    }
    assert_eq!(session.reveal_step, vec![1, 1, 2, 2, 2, 0, 3, 3, 3, 4, 4, 4]);
}
