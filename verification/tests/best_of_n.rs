use diffusion_factorio::best_of_n::{
    beats, best_of_n, distinct, draw_count, draw_seed, parts, select,
};
use diffusion_factorio::world::{Cell, Direction, Entity, Grid};

fn with_belts(n: usize) -> Grid {
    let mut g = Grid::new(4, 1);
    for x in 0..n {
        g.set(x, 0, Cell::belt(Direction::East));
    }
    g
}

#[test]
fn a_machine_is_one_part_and_an_obstacle_is_none() {
    let mut g = Grid::new(5, 5);
    g.set(
        0,
        0,
        Cell {
            entity: Entity::Assembler,
            direction: Direction::East,
            ..Default::default()
        },
    );
    g.set_obstacle(4, 4, true);
    assert_eq!(parts(&g), 1);
}

#[test]
fn the_first_draw_beats_nothing_at_all() {
    assert!(beats(0, 100, None, true));
    assert!(!beats(0, 1, Some((0, 100)), true));
    assert!(beats(5, 1, Some((5, 2)), true));
    assert!(!beats(5, 1, Some((5, 2)), false));
    assert!(!beats(4, 1, Some((5, 2)), true));
    assert!(beats(6, 9, Some((5, 2)), true));
}

#[test]
fn where_nothing_is_delivered_the_first_draw_stands() {
    assert_eq!(select(&vec![0, 0, 0], &vec![7, 3, 0], true), 0);
}

#[test]
fn the_first_of_equal_draws_wins() {
    assert_eq!(select(&vec![2, 9, 9, 9], &vec![1, 4, 4, 5], true), 1);
    assert_eq!(select(&vec![2, 9, 9, 9], &vec![1, 4, 3, 3], true), 2);
    assert_eq!(select(&vec![2, 9, 9, 9], &vec![1, 4, 3, 3], false), 1);
}

#[test]
fn equal_layouts_count_once() {
    let grids = vec![with_belts(1), with_belts(2), with_belts(1), with_belts(3)];
    assert_eq!(distinct(&grids), 3);
    assert_eq!(distinct(&Vec::new()), 0);
}

#[test]
fn the_ranking_reports_what_the_draws_came_to() {
    let grids = vec![with_belts(3), with_belts(1), with_belts(4), with_belts(1)];
    let pick = best_of_n(&grids, vec![8, 8, 8, 2], true);
    assert_eq!(pick.winner, 1);
    assert_eq!(pick.parts, vec![3, 1, 4, 1]);
    assert_eq!(pick.distinct, 3);
    assert_eq!(pick.best_score(), 8);
    assert_eq!(pick.first_score(), 8);
    assert_eq!(pick.best_parts(), 1);
    assert_eq!(pick.parts_saved(), 3);

    let roomy = best_of_n(&grids, vec![8, 8, 8, 2], false);
    assert_eq!((roomy.winner, roomy.best_parts()), (0, 3));
    assert_eq!(roomy.parts_saved(), 1);
}

#[test]
fn the_ranking_never_does_worse_than_the_first_draw() {
    let grids = vec![with_belts(1), with_belts(2), with_belts(3)];
    for scores in [vec![3, 1, 2], vec![1, 3, 2], vec![0, 0, 0], vec![1, 2, 3]] {
        let pick = best_of_n(&grids, scores, true);
        assert!(pick.best_score() >= pick.first_score());
    }
}

#[test]
fn every_draw_has_its_own_seed() {
    assert_eq!(draw_seed(5, 0), 5);
    assert_eq!(draw_seed(5, 3), 8);
    assert_eq!(draw_seed(u64::MAX, 1), 0);
    assert_eq!(draw_count(0), 1);
    assert_eq!(draw_count(6), 6);
}
