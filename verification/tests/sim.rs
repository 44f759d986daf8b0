use diffusion_factorio::sim::item_reaches_sink;
use diffusion_factorio::world::{Cell, Direction, Entity, Grid, Item, Misc};

#[test]
fn straight_belt_connects() {
    let mut g = Grid::new(5, 1);
    g.set(
        0,
        0,
        Cell {
            entity: Entity::Source,
            ..Default::default()
        },
    );
    g.set(1, 0, Cell::belt(Direction::East));
    g.set(2, 0, Cell::belt(Direction::East));
    g.set(3, 0, Cell::belt(Direction::East));
    g.set(
        4,
        0,
        Cell {
            entity: Entity::Sink,
            ..Default::default()
        },
    );
    assert!(item_reaches_sink(&g));
}

#[test]
fn broken_belt_does_not_connect() {
    let mut g = Grid::new(5, 1);
    g.set(
        0,
        0,
        Cell {
            entity: Entity::Source,
            ..Default::default()
        },
    );
    g.set(1, 0, Cell::belt(Direction::East));
    g.set(3, 0, Cell::belt(Direction::East));
    g.set(
        4,
        0,
        Cell {
            entity: Entity::Sink,
            ..Default::default()
        },
    );
    assert!(!item_reaches_sink(&g));
}

#[test]
fn wrong_direction_does_not_connect() {
    let mut g = Grid::new(5, 1);
    g.set(
        0,
        0,
        Cell {
            entity: Entity::Source,
            ..Default::default()
        },
    );
    g.set(1, 0, Cell::belt(Direction::West)); // points back at source
    g.set(2, 0, Cell::belt(Direction::East));
    g.set(3, 0, Cell::belt(Direction::East));
    g.set(
        4,
        0,
        Cell {
            entity: Entity::Sink,
            ..Default::default()
        },
    );
    assert!(!item_reaches_sink(&g));
}

#[test]
fn raw_input_belted_to_a_crafted_sink_is_not_functional() {
    let mut g = Grid::new(5, 1);
    g.set(
        0,
        0,
        Cell {
            entity: Entity::Source,
            item: Item::IronPlate,
            ..Default::default()
        },
    );
    g.set(1, 0, Cell::belt(Direction::East));
    g.set(2, 0, Cell::belt(Direction::East));
    g.set(3, 0, Cell::belt(Direction::East));
    g.set(
        4,
        0,
        Cell {
            entity: Entity::Sink,
            item: Item::IronGear,
            ..Default::default()
        },
    );
    assert!(!item_reaches_sink(&g));
}

fn crafting_line(source_item: Item) -> Grid {
    let mut g = Grid::new(7, 3);
    g.set(
        0,
        1,
        Cell {
            entity: Entity::Source,
            item: source_item,
            ..Default::default()
        },
    );
    for x in [1, 5] {
        g.set(
            x,
            1,
            Cell {
                entity: Entity::Inserter,
                direction: Direction::East,
                ..Default::default()
            },
        );
    }
    g.set(
        2,
        0,
        Cell {
            entity: Entity::Assembler,
            direction: Direction::East,
            item: Item::IronGear,
            ..Default::default()
        },
    );
    g.set(
        6,
        1,
        Cell {
            entity: Entity::Sink,
            item: Item::IronGear,
            ..Default::default()
        },
    );
    g
}

#[test]
fn assembler_crafting_the_sink_item_is_functional() {
    let g = crafting_line(Item::IronPlate);
    assert!(
        g.is_consistent(),
        "the line must be buildable to begin with"
    );
    assert!(item_reaches_sink(&g));
}

#[test]
fn assembler_fed_wrong_ingredient_is_not_functional() {
    assert!(!item_reaches_sink(&crafting_line(Item::CopperPlate)));
}

#[test]
fn a_machine_is_loaded_through_a_body_tile() {
    let mut g = Grid::new(7, 5);
    g.set(
        3,
        0,
        Cell {
            entity: Entity::Source,
            item: Item::IronPlate,
            ..Default::default()
        },
    );
    g.set(
        3,
        1,
        Cell {
            entity: Entity::Inserter,
            direction: Direction::South,
            ..Default::default()
        },
    );
    g.set(
        2,
        2,
        Cell {
            entity: Entity::Assembler,
            direction: Direction::East,
            item: Item::IronGear,
            ..Default::default()
        },
    );
    g.set(
        5,
        3,
        Cell {
            entity: Entity::Inserter,
            direction: Direction::East,
            ..Default::default()
        },
    );
    g.set(
        6,
        3,
        Cell {
            entity: Entity::Sink,
            item: Item::IronGear,
            ..Default::default()
        },
    );

    assert_eq!(g.anchor_at(3, 2), Some((2, 2)), "the loaded tile is a body");
    assert!(g.get(3, 2).is_empty(), "and it stores nothing");
    assert!(item_reaches_sink(&g));
}

#[test]
fn mismatched_raw_items_do_not_connect() {
    let mut g = Grid::new(4, 1);
    g.set(
        0,
        0,
        Cell {
            entity: Entity::Source,
            item: Item::IronPlate,
            ..Default::default()
        },
    );
    g.set(1, 0, Cell::belt(Direction::East));
    g.set(2, 0, Cell::belt(Direction::East));
    g.set(
        3,
        0,
        Cell {
            entity: Entity::Sink,
            item: Item::CopperPlate,
            ..Default::default()
        },
    );
    assert!(!item_reaches_sink(&g));
}

#[test]
fn underground_tunnels_across_gap() {
    let mut g = Grid::new(6, 1);
    g.set(
        0,
        0,
        Cell {
            entity: Entity::Source,
            ..Default::default()
        },
    );
    g.set(1, 0, Cell::belt(Direction::East));
    g.set(
        2,
        0,
        Cell {
            entity: Entity::UndergroundBelt,
            direction: Direction::East,
            misc: Misc::UndergroundDown,
            ..Default::default()
        },
    );
    g.set(
        4,
        0,
        Cell {
            entity: Entity::UndergroundBelt,
            direction: Direction::East,
            misc: Misc::UndergroundUp,
            ..Default::default()
        },
    );
    g.set(
        5,
        0,
        Cell {
            entity: Entity::Sink,
            ..Default::default()
        },
    );
    assert!(item_reaches_sink(&g));
}
