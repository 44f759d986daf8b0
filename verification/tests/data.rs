use diffusion_factorio::data::{from_grids, grid_from_ids, is_uniform};
use diffusion_factorio::factory_gen::{generate, Canvas, LessonKind};
use diffusion_factorio::world::{Cell, Direction, Entity, Grid, Item};

#[test]
fn roundtrip_grid_through_tensor() {
    let s = generate(LessonKind::MoveOneItem, Canvas::square(11), 3).unwrap();
    let batch = from_grids(&vec![s.solution.clone()], None);
    let obstacle: Vec<bool> = (0..s.solution.len())
        .map(|i| s.solution.obstacle[i])
        .collect();
    let decoded = grid_from_ids(&batch.tokens, 11, 11, &obstacle);
    assert_eq!(decoded, s.solution);
}

#[test]
fn every_family_survives_the_round_trip() {
    for kind in LessonKind::all() {
        let s = generate(kind, Canvas::new(13, 9), 1).unwrap();
        let batch = from_grids(&vec![s.solution.clone()], None);
        assert_eq!((batch.n, batch.height, batch.width), (1, 9, 13));
        let decoded = grid_from_ids(&batch.tokens, 9, 13, &batch.obstacle);
        assert_eq!(decoded, s.solution);
    }
}

#[test]
fn a_batch_lays_out_one_channel_after_the_other() {
    let mut a = Grid::new(2, 1);
    a.set(
        1,
        0,
        Cell {
            entity: Entity::Assembler,
            direction: Direction::South,
            item: Item::GreenCircuit,
            ..Default::default()
        },
    );
    let mut b = Grid::new(2, 1);
    b.set(0, 0, Cell::belt(Direction::West));
    b.set_obstacle(1, 0, true);
    let masks = vec![vec![true, false], vec![false, true]];
    let batch = from_grids(&vec![a, b], Some(&masks));
    assert_eq!(
        batch.tokens,
        vec![0, 7, 0, 3, 0, 5, 0, 0, 3, 0, 4, 0, 0, 0, 0, 0]
    );
    assert_eq!(batch.obstacle, vec![false, false, false, true]);
    assert_eq!(batch.observed, vec![true, false, false, true]);
}

#[test]
fn without_masks_no_cell_is_given() {
    let batch = from_grids(&vec![Grid::new(2, 2), Grid::new(2, 2)], None);
    assert_eq!(batch.observed, vec![false; 8]);
}

#[test]
fn a_ragged_batch_is_no_batch() {
    assert!(is_uniform(&vec![Grid::new(2, 2), Grid::new(2, 2)]));
    assert!(!is_uniform(&vec![Grid::new(2, 3), Grid::new(3, 2)]));
    assert!(!is_uniform(&Vec::new()));
}

#[test]
fn an_id_that_is_no_category_reads_as_the_first() {
    let g = grid_from_ids(&vec![8, -3, 99, -1], 1, 1, &vec![true]);
    assert_eq!(g.get(0, 0), Cell::default());
    assert!(g.is_obstacle(0, 0));
}
