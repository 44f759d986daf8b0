use diffusion_factorio::textual::{glyph, render};
use diffusion_factorio::world::{Cell, Direction, Entity, Grid, Misc};

#[test]
fn renders_belt_line() {
    let mut g = Grid::new(4, 1);
    g.set(
        0,
        0,
        Cell {
            entity: Entity::Source,
            ..Default::default()
        },
    );
    g.set(1, 0, Cell::belt(Direction::East));
    g.set(2, 0, Cell::belt(Direction::East));
    g.set(
        3,
        0,
        Cell {
            entity: Entity::Sink,
            ..Default::default()
        },
    );
    assert_eq!(render(&g), "S>>K\n");
}

#[test]
fn a_machine_draws_the_tiles_it_covers() {
    let mut g = Grid::new(5, 3);
    g.set(
        0,
        1,
        Cell {
            entity: Entity::Source,
            ..Default::default()
        },
    );
    g.set(
        1,
        0,
        Cell {
            entity: Entity::Assembler,
            direction: Direction::East,
            ..Default::default()
        },
    );
    g.set(
        4,
        1,
        Cell {
            entity: Entity::Sink,
            ..Default::default()
        },
    );
    assert_eq!(render(&g), ".Aaa.\nSaaaK\n.aaa.\n");
}

#[test]
fn an_entity_overlapping_a_machine_stays_visible() {
    let mut g = Grid::new(3, 3);
    g.set(
        0,
        0,
        Cell {
            entity: Entity::Assembler,
            direction: Direction::East,
            ..Default::default()
        },
    );
    g.set(1, 1, Cell::belt(Direction::East));
    assert!(!g.is_consistent(), "a belt inside a machine is not legal");
    assert_eq!(render(&g), "Aaa\na>a\naaa\n");
}

#[test]
fn a_belt_facing_nowhere_does_not_draw_as_floor() {
    let mut g = Grid::new(3, 1);
    g.set(
        1,
        0,
        Cell {
            entity: Entity::TransportBelt,
            direction: Direction::Nowhere,
            ..Default::default()
        },
    );
    assert!(!g.is_consistent(), "a belt facing nowhere is not legal");
    assert_eq!(render(&g), ".?.\n");
    assert_ne!(glyph(&g, 1, 0), glyph(&g, 0, 0));
}

#[test]
fn an_underground_that_is_neither_end_draws_as_broken_too() {
    let mut g = Grid::new(1, 1);
    g.set(
        0,
        0,
        Cell {
            entity: Entity::UndergroundBelt,
            direction: Direction::East,
            misc: Misc::Untagged,
            ..Default::default()
        },
    );
    assert!(!g.is_consistent());
    assert_eq!(render(&g), "?\n");
}

#[test]
fn an_entity_built_on_an_obstacle_does_not_hide_it() {
    let mut g = Grid::new(3, 1);
    g.set_obstacle(1, 0, true);
    assert_eq!(render(&g), ".#.\n");

    g.set(1, 0, Cell::belt(Direction::East));
    assert!(!g.is_consistent(), "a belt on an obstacle is not legal");
    assert_eq!(render(&g), ".!.\n");
}

#[test]
fn an_obstacle_under_a_machines_body_stays_visible() {
    let mut g = Grid::new(3, 3);
    g.set(
        0,
        0,
        Cell {
            entity: Entity::Assembler,
            direction: Direction::East,
            ..Default::default()
        },
    );
    g.set_obstacle(2, 2, true);
    assert!(!g.is_consistent(), "a machine may not cover an obstacle");
    assert_eq!(render(&g), "Aaa\naaa\naa!\n");
}
