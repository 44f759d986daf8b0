use diffusion_factorio::factory_gen::{
    generate, Canvas, LessonKind, DEFAULT_CANVAS_MAX, DEFAULT_CANVAS_MIN,
};
use diffusion_factorio::random::RandomStream;
use diffusion_factorio::sim::item_reaches_sink;
use diffusion_factorio::train::{
    build_evaluation_set, build_validation_set, canvas_label, canvas_summary, curriculum_kinds,
    draw_canvas, draw_sample, feasible_kinds, gather, is_validation_step, lesson_group, reassemble,
    shape_groups, train_batch, Feed,
};
use diffusion_factorio::world::{Entity, Grid};

fn default_canvases() -> Vec<Canvas> {
    Canvas::pool(DEFAULT_CANVAS_MIN, DEFAULT_CANVAS_MAX)
}

#[test]
fn validation_corpus_is_frozen_for_a_run() {
    let canvases = default_canvases();
    let corpus = build_validation_set(&canvases, 42, 12);
    assert!(corpus.is_some());
    assert_eq!(build_validation_set(&canvases, 42, 12), corpus);
    assert_ne!(build_validation_set(&canvases, 43, 12), corpus);
}

#[test]
fn a_larger_corpus_starts_with_the_smaller() {
    let canvases = default_canvases();
    let small = build_validation_set(&canvases, 7, 5).unwrap();
    let large = build_validation_set(&canvases, 7, 11).unwrap();
    assert_eq!(small.originals[..], large.originals[..5]);
    assert_eq!(small.kinds[..], large.kinds[..5]);
}

#[test]
fn a_corpus_poses_every_lesson_both_ways() {
    let canvases = default_canvases();
    let corpus = build_validation_set(&canvases, 1, 18).unwrap();
    assert_eq!(corpus.kinds[..9], LessonKind::all()[..]);
    assert_eq!(corpus.kinds[9..], LessonKind::all()[..]);
    for i in 0..18 {
        let whole = &corpus.originals[i];
        assert!(item_reaches_sink(whole));
        let masked = |flags: &Vec<bool>| flags.iter().filter(|o| !**o).count();
        assert!(masked(&corpus.scratch_observed[i]) >= masked(&corpus.observed[i]));
        for c in 0..whole.len() {
            if corpus.observed[i][c] {
                assert_eq!(corpus.partials[i].cells[c], whole.cells[c]);
            } else {
                assert!(corpus.partials[i].cells[c].is_empty());
            }
            if corpus.scratch_observed[i][c] {
                assert_eq!(corpus.scratch_partials[i].cells[c], whole.cells[c]);
            } else {
                assert!(corpus.scratch_partials[i].cells[c].is_empty());
            }
        }
    }
}

#[test]
fn an_evaluation_starts_after_its_seed() {
    let canvas = Canvas::square(11);
    let set = build_evaluation_set(canvas, 5, 9).unwrap();
    assert_eq!(set.kinds, LessonKind::all());
    let first = (6..).find_map(|seed| generate(LessonKind::MoveOneItem, canvas, seed));
    assert_eq!(set.originals[0], first.unwrap().solution);
}

#[test]
fn the_default_curriculum_teaches_every_family_on_the_inference_canvas() {
    let canvases = default_canvases();
    assert!(
        canvases.contains(&Canvas::new(13, 9)),
        "the default pool never draws the inference canvas"
    );
    assert_eq!(
        feasible_kinds(Canvas::new(13, 9)).len(),
        LessonKind::all().len(),
        "13x9 is missing lessons the model is expected to know there"
    );
    assert_eq!(curriculum_kinds(&canvases).len(), LessonKind::all().len());
}

#[test]
fn every_canvas_in_the_default_pool_can_hold_a_lesson() {
    for canvas in default_canvases() {
        assert!(
            !feasible_kinds(canvas).is_empty(),
            "no lesson fits {canvas:?}, which the curriculum still draws"
        );
    }
}

#[test]
fn a_batch_is_drawn_at_one_shape() {
    let mut rng = RandomStream::seed_from_u64(7);
    let mut seed_ctr = 0;
    let canvas = Canvas::new(13, 9);
    let (grids, _) = train_batch(canvas, 8, &mut rng, &mut seed_ctr).unwrap();
    assert_eq!(grids.len(), 8);
    assert!(grids
        .iter()
        .all(|g| (g.width, g.height) == (canvas.width, canvas.height)));
}

#[test]
fn a_batch_shows_what_its_lessons_protect() {
    let canvas = Canvas::square(11);
    let (mut rng, mut seed) = (RandomStream::seed_from_u64(3), 10);
    let (grids, observed) = train_batch(canvas, 4, &mut rng, &mut seed).unwrap();
    let (mut again, mut from) = (RandomStream::seed_from_u64(3), 10);
    for i in 0..4 {
        let s = draw_sample(canvas, &mut again, &mut from).unwrap();
        assert_eq!(s.solution, grids[i]);
        for c in 0..s.solution.len() {
            assert_eq!(observed[i][c], s.protected.contains(&c));
        }
    }
    assert_eq!((rng, seed), (again, from));
}

#[test]
fn seeds_that_run_out_give_no_lesson() {
    let mut rng = RandomStream::seed_from_u64(0);
    let mut seed = u64::MAX;
    assert!(draw_sample(Canvas::square(11), &mut rng, &mut seed).is_none());
    assert!(train_batch(Canvas::square(11), 1, &mut rng, &mut seed).is_none());
}

#[test]
fn a_narrow_canvas_teaches_only_what_fits() {
    assert_eq!(
        feasible_kinds(Canvas::new(7, 1)),
        vec![LessonKind::UndergroundCross]
    );
    assert!(feasible_kinds(Canvas::new(2, 2)).is_empty());
    assert!(curriculum_kinds(&Vec::new()).is_empty());
    let union = curriculum_kinds(&vec![Canvas::new(7, 1), Canvas::new(3, 3)]);
    assert_eq!(
        union,
        vec![
            LessonKind::MoveOneItem,
            LessonKind::MoveOneItemChaos,
            LessonKind::UndergroundCross
        ]
    );
}

#[test]
fn a_canvas_is_drawn_from_the_pool() {
    let canvases = default_canvases();
    let mut rng = RandomStream::seed_from_u64(11);
    let drawn: Vec<Canvas> = (0..20).map(|_| draw_canvas(&canvases, &mut rng)).collect();
    assert!(drawn.iter().all(|c| canvases.contains(c)));
    assert!(drawn.iter().any(|c| *c != drawn[0]));
}

#[test]
fn a_pool_is_summed_up_by_its_extremes() {
    assert_eq!(canvas_summary(&Vec::new()), "none");
    assert_eq!(canvas_summary(&vec![Canvas::new(13, 9)]), "13x9");
    assert_eq!(canvas_summary(&default_canvases()), "9x9 .. 15x15");
    assert_eq!(
        canvas_summary(&vec![Canvas::new(3, 20), Canvas::new(8, 4)]),
        "3x4 .. 8x20"
    );
    assert_eq!(canvas_label(Canvas::new(100, 7)), "100x7");
}

#[test]
fn a_corpus_splits_by_shape_and_by_family() {
    let grids = vec![
        Grid::new(5, 3),
        Grid::new(3, 5),
        Grid::new(5, 2),
        Grid::new(3, 5),
    ];
    let groups = shape_groups(&grids);
    let shapes: Vec<(usize, usize)> = groups.iter().map(|g| (g.width, g.height)).collect();
    assert_eq!(shapes, vec![(3, 5), (5, 2), (5, 3)]);
    let members: Vec<Vec<usize>> = groups.into_iter().map(|g| g.members).collect();
    assert_eq!(members, vec![vec![1, 3], vec![2], vec![0]]);

    let kinds = vec![
        LessonKind::CircuitLine,
        LessonKind::SharedLine,
        LessonKind::CircuitLine,
    ];
    assert_eq!(lesson_group(&kinds, LessonKind::CircuitLine), vec![0, 2]);
    assert!(lesson_group(&kinds, LessonKind::MoveOneItem).is_empty());
}

#[test]
fn validation_comes_every_so_many_steps() {
    assert!(!is_validation_step(0, 0));
    assert!(is_validation_step(99, 100));
    assert!(!is_validation_step(100, 100));
}

#[test]
fn results_return_to_the_places_they_came_from() {
    let canvases = default_canvases();
    let corpus = build_validation_set(&canvases, 3, 12).unwrap();
    let groups = shape_groups(&corpus.originals);
    let results: Vec<Vec<Grid>> =
        groups.iter().map(|g| gather(&corpus.originals, &g.members)).collect();
    for (group, grids) in groups.iter().zip(&results) {
        for grid in grids {
            assert_eq!((grid.width, grid.height), (group.width, group.height));
        }
    }
    assert_eq!(reassemble(&groups, &results, &corpus.partials), corpus.originals);
    let swapped = gather(&corpus.originals, &vec![4, 0]);
    assert_eq!(swapped[0], corpus.originals[4]);
    assert_eq!(swapped[1], corpus.originals[0]);
}

#[test]
fn a_feed_gives_one_shape_a_batch_and_goes_on_where_it_stopped() {
    let canvases = default_canvases();
    let mut feed = Feed::start(5);
    let mut again = Feed::start(5);
    assert_eq!(feed, again);
    for _ in 0..3 {
        let batch = feed.next_batch(&canvases, 6, false).unwrap();
        let same = again.next_batch(&canvases, 6, false).unwrap();
        assert_eq!(batch.grids, same.grids);
        assert_eq!(batch.grids.len(), 6);
        for (grid, observed) in batch.grids.iter().zip(&batch.observed) {
            assert_eq!((grid.width, grid.height), (batch.canvas.width, batch.canvas.height));
            for (c, seen) in grid.cells.iter().zip(observed) {
                assert_eq!(*seen, matches!(c.entity, Entity::Source | Entity::Sink));
            }
        }
    }
    assert_eq!(feed, again);
}
