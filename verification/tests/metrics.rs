use diffusion_factorio::metrics::reconstruction_report;
use diffusion_factorio::world::{Cell, Direction, Entity, Grid, Item};

fn line(middle: Cell) -> Grid {
    let mut g = Grid::new(3, 1);
    g.set(
        0,
        0,
        Cell {
            entity: Entity::Source,
            item: Item::IronPlate,
            ..Default::default()
        },
    );
    g.set(1, 0, middle);
    g.set(
        2,
        0,
        Cell {
            entity: Entity::Sink,
            item: Item::IronPlate,
            ..Default::default()
        },
    );
    g
}

#[test]
fn only_masked_cells_are_scored() {
    let whole = line(Cell::belt(Direction::East));
    let turned = line(Cell::belt(Direction::West));
    let observed = vec![vec![true, false, true], vec![true, false, true]];
    let r = reconstruction_report(
        &vec![whole.clone(), whole.clone()],
        &vec![whole.clone(), turned],
        &observed,
        &vec![15, 15],
        &vec![15, 0],
    );
    assert_eq!(r.n_factories, 2);
    assert_eq!(r.masked_cells, 2);
    assert_eq!(r.channel_correct, [2, 1, 2, 2]);
    assert_eq!(r.exact, 1);
    assert_eq!(r.consistent, 2);
    assert_eq!(r.functional, 1);
    assert_eq!(r.original_functional, 2);
    assert_eq!(r.gradeable, 2);
    assert_eq!(r.beat_original, 0);
}

#[test]
fn a_belt_facing_nowhere_is_not_consistent() {
    let whole = line(Cell::belt(Direction::East));
    let broken = line(Cell {
        entity: Entity::TransportBelt,
        ..Default::default()
    });
    let r = reconstruction_report(
        &vec![whole],
        &vec![broken],
        &vec![vec![false; 3]],
        &vec![0],
        &vec![4],
    );
    assert_eq!(r.masked_cells, 3);
    assert_eq!(r.channel_correct, [3, 2, 3, 3]);
    assert_eq!((r.exact, r.consistent, r.functional), (0, 0, 0));
    assert_eq!((r.gradeable, r.beat_original), (0, 0));
}

#[test]
fn a_better_factory_than_the_original_is_counted() {
    let whole = line(Cell::belt(Direction::East));
    let r = reconstruction_report(
        &vec![whole.clone()],
        &vec![whole],
        &vec![vec![true; 3]],
        &vec![4],
        &vec![5],
    );
    assert_eq!((r.masked_cells, r.exact), (0, 1));
    assert_eq!((r.gradeable, r.beat_original), (1, 1));
}
