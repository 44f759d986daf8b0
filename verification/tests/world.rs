use diffusion_factorio::world::{
    Cell, Channel, Direction, Entity, Grid, Ingredient, Item, Misc, N_CHANNELS, VOCAB,
};

fn machine(recipe: Item) -> Cell {
    Cell { entity: Entity::Assembler, item: recipe, direction: Direction::East, ..Cell::default() }
}

#[test]
fn turning_round_twice_changes_nothing() {
    for id in 0..Direction::COUNT {
        let d = Direction::from_id(id).unwrap();
        let (dx, dy) = d.delta();
        assert_eq!(d.opposite().opposite(), d);
        assert_eq!(d.opposite().delta(), (-dx, -dy));
    }
    assert_eq!(Direction::North.delta(), (0, -1));
    assert_eq!(Direction::East.opposite(), Direction::West);
}

#[test]
fn ids_and_categories_correspond() {
    assert_eq!(VOCAB, [Entity::COUNT, Direction::COUNT, Item::COUNT, Misc::COUNT]);
    assert_eq!(VOCAB.len(), N_CHANNELS);
    for id in 0..Entity::COUNT {
        assert_eq!(Entity::from_id(id).unwrap().id(), id);
    }
    for id in 0..Item::COUNT {
        assert_eq!(Item::from_id(id).unwrap().id(), id);
    }
    for id in 0..Misc::COUNT {
        assert_eq!(Misc::from_id(id).unwrap().id(), id);
    }
    assert_eq!(Entity::from_id(8), None);
    assert_eq!(Direction::from_id(5), None);
    assert_eq!(Item::from_id(6), None);
    assert_eq!(Misc::from_id(3), None);
}

#[test]
fn a_cell_is_read_from_its_ids() {
    let c = Cell::from_ids([4, 2, 0, 1]).unwrap();
    assert_eq!(
        c,
        Cell {
            entity: Entity::UndergroundBelt,
            direction: Direction::East,
            item: Item::Nothing,
            misc: Misc::UndergroundDown,
        }
    );
    assert_eq!(c.channel_id(Channel::Entity), 4);
    assert_eq!(c.channel_id(Channel::Direction), 2);
    assert_eq!(c.channel_id(Channel::Item), 0);
    assert_eq!(c.channel_id(Channel::Misc), 1);
    assert_eq!(Channel::Misc.index(), 3);
    assert_eq!(Cell::from_ids([8, 0, 0, 0]), None);
    assert_eq!(Cell::from_ids([0, 0, 6, 0]), None);
}

#[test]
fn the_channels_of_a_cell_agree() {
    assert!(Cell::default().is_consistent());
    assert!(Cell::belt(Direction::West).is_consistent());
    assert!(!Cell::belt(Direction::Nowhere).is_consistent());
    let tagged = Cell { misc: Misc::UndergroundUp, ..Cell::belt(Direction::West) };
    assert!(!tagged.is_consistent());
    let loaded = Cell { item: Item::IronPlate, ..Cell::belt(Direction::West) };
    assert!(!loaded.is_consistent());
    let port = Cell { entity: Entity::Sink, item: Item::IronGear, ..Cell::default() };
    assert!(port.is_consistent());
}

#[test]
fn recipes_are_those_of_the_game() {
    assert_eq!(
        Item::IronGear.ingredients(),
        vec![Ingredient { item: Item::IronPlate, qty: 2 }]
    );
    assert_eq!(Item::CopperCable.recipe().unwrap().output_qty, 2);
    assert_eq!(Item::GreenCircuit.recipe().unwrap().output_qty, 1);
    assert_eq!(Item::GreenCircuit.recipe().unwrap().crafting_millis, 500);
    assert_eq!(Item::GreenCircuit.ingredient(), Some(Item::IronPlate));
    assert_eq!(
        Item::GreenCircuit.ingredients()[1],
        Ingredient { item: Item::CopperCable, qty: 3 }
    );
    assert_eq!(Item::IronPlate.recipe(), None);
    assert_eq!(Item::Nothing.ingredient(), None);
    assert_eq!(Item::craftable().len(), 3);
    assert_eq!(Item::single_input_craftable(), [Item::IronGear, Item::CopperCable]);
}

#[test]
fn every_tile_of_a_machine_is_traced_to_its_anchor() {
    let mut g = Grid::new(5, 5);
    g.set(1, 1, machine(Item::IronGear));
    for y in 0..5 {
        for x in 0..5 {
            let covered = (1..4).contains(&x) && (1..4).contains(&y);
            assert_eq!(g.anchor_at(x, y), if covered { Some((1, 1)) } else { None });
        }
    }
    assert_eq!(g.footprint_at(1, 1).len(), 9);
    assert_eq!(g.footprint_at(1, 1)[5], (3, 2));
    assert_eq!(g.footprint_at(0, 0), vec![(0, 0)]);
}

#[test]
fn the_perimeter_of_a_machine_goes_round_without_the_corners() {
    let mut g = Grid::new(5, 5);
    g.set(1, 1, machine(Item::IronGear));
    assert_eq!(
        g.perimeter(1, 1),
        vec![
            (1, 0), (2, 0), (3, 0),
            (4, 1), (4, 2), (4, 3),
            (1, 4), (2, 4), (3, 4),
            (0, 1), (0, 2), (0, 3),
        ]
    );
    assert_eq!(g.perimeter(0, 0), vec![(1, 0), (0, 1)]);
}

#[test]
fn entities_may_not_overlap_hang_over_or_stand_on_obstacles() {
    let mut g = Grid::new(5, 5);
    g.set(1, 1, machine(Item::IronGear));
    assert!(g.footprints_are_legal() && g.is_consistent());

    let mut overlap = g.clone();
    overlap.set(2, 2, Cell::belt(Direction::East));
    assert!(!overlap.footprints_are_legal());
    assert_eq!(overlap.anchor_at(2, 2), Some((2, 2)));

    let mut over_the_edge = Grid::new(5, 5);
    over_the_edge.set(3, 3, machine(Item::IronGear));
    assert!(!over_the_edge.footprints_are_legal());

    let mut on_rock = g.clone();
    on_rock.set_obstacle(3, 3, true);
    assert!(!on_rock.footprints_are_legal() && on_rock.is_obstacle(3, 3));

    let mut muddled = g.clone();
    muddled.set(0, 0, Cell::belt(Direction::Nowhere));
    assert!(muddled.footprints_are_legal() && !muddled.is_consistent());
}

#[test]
fn a_splitter_is_two_tiles_across_its_flow() {
    assert_eq!(Entity::Splitter.footprint(Direction::East), (1, 2));
    assert_eq!(Entity::Splitter.footprint(Direction::North), (2, 1));
    assert_eq!(Entity::Assembler.footprint(Direction::South), (3, 3));
    assert_eq!(Entity::Inserter.footprint(Direction::South), (1, 1));
}

#[test]
fn tiles_are_stored_row_by_row() {
    let g = Grid::new(7, 3);
    assert_eq!(g.idx(6, 2), 20);
    assert_eq!(g.idx(0, 1), 7);
    assert_eq!(g.len(), 21);
    assert!(!g.is_empty());
    assert!(g.in_bounds(6, 2) && !g.in_bounds(7, 2) && !g.in_bounds(0, -1));
}
