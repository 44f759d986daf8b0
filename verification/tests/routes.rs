use diffusion_factorio::factory_gen::chaos::{face_pairs, free_faces};
use diffusion_factorio::factory_gen::placing::{machine, sink, source};
use diffusion_factorio::factory_gen::route::{
    bfs_path, belt_run, dir_between, dir_toward_footprint, manhattan, neighbours, step,
};
use diffusion_factorio::factory_gen::{canonical_assembler_anchor, Canvas};
use diffusion_factorio::world::{Direction, Entity, Grid, Item};

#[test]
fn a_route_is_the_shortest_and_turns_north_first() {
    let g = Grid::new(4, 4);
    let path = bfs_path(&g, (0, 2), (2, 0), &vec![]).unwrap();
    assert_eq!(path, vec![(0, 2), (0, 1), (0, 0), (1, 0), (2, 0)]);
    assert_eq!(bfs_path(&g, (1, 1), (1, 1), &vec![]), Some(vec![(1, 1)]));
}

#[test]
fn a_route_goes_round_what_is_in_the_way() {
    let mut g = Grid::new(5, 3);
    g.set_obstacle(2, 0, true);
    g.set_obstacle(2, 1, true);
    let path = bfs_path(&g, (0, 1), (4, 1), &vec![]).unwrap();
    assert_eq!(path.len(), 7);
    assert!(path.contains(&(2, 2)));
    assert_eq!(bfs_path(&g, (0, 1), (4, 1), &vec![(2, 2)]), None);
    let mut walled = g.clone();
    walled.set_obstacle(2, 2, true);
    assert_eq!(bfs_path(&walled, (0, 1), (4, 1), &vec![]), None);
}

#[test]
fn a_route_keeps_off_the_tiles_of_a_machine() {
    let mut g = Grid::new(7, 5);
    g.set(2, 1, machine(Item::IronGear));
    let path = bfs_path(&g, (0, 2), (6, 2), &vec![]).unwrap();
    for (x, y) in &path {
        assert!(!((2..5).contains(x) && (1..4).contains(y)));
    }
    assert_eq!(path.len(), 11);
}

#[test]
fn a_run_of_belts_faces_along_its_route() {
    let mut g = Grid::new(4, 3);
    let (belts, out) = belt_run(&mut g, (0, 1), (3, 1), &vec![]).unwrap();
    assert_eq!(out, Direction::East);
    assert_eq!(belts, vec![g.idx(1, 1), g.idx(2, 1)]);
    assert_eq!(g.get(1, 1).direction, Direction::East);
    assert_eq!(g.get(2, 1).entity, Entity::TransportBelt);
    assert_eq!(g.get(0, 1).entity, Entity::Empty);
    let before = g.clone();
    assert_eq!(belt_run(&mut g, (0, 0), (0, 0), &vec![]), None);
    assert_eq!(g, before);
}

#[test]
fn steps_stay_on_the_board() {
    let canvas = Canvas::new(3, 2);
    assert_eq!(step((0, 0), Direction::North, canvas), None);
    assert_eq!(step((2, 1), Direction::East, canvas), None);
    assert_eq!(step((1, 1), Direction::West, canvas), Some((0, 1)));
    assert_eq!(step((1, 0), Direction::South, canvas), Some((1, 1)));
    assert_eq!(neighbours((0, 0), canvas), vec![(0, 1), (1, 0)]);
    assert_eq!(manhattan((5, 1), (2, 7)), 9);
}

#[test]
fn a_direction_joins_adjacent_tiles_only() {
    assert_eq!(dir_between((3, 3), (3, 2)), Direction::North);
    assert_eq!(dir_between((3, 3), (4, 3)), Direction::East);
    assert_eq!(dir_between((3, 3), (3, 4)), Direction::South);
    assert_eq!(dir_between((3, 3), (2, 3)), Direction::West);
    assert_eq!(dir_between((3, 3), (4, 4)), Direction::Nowhere);
}

#[test]
fn an_inserter_reaches_a_machine_from_its_sides_only() {
    let mut g = Grid::new(5, 5);
    g.set(1, 1, machine(Item::CopperCable));
    assert_eq!(dir_toward_footprint(&g, (0, 2), (1, 1)), Some(Direction::East));
    assert_eq!(dir_toward_footprint(&g, (2, 4), (1, 1)), Some(Direction::North));
    assert_eq!(dir_toward_footprint(&g, (0, 0), (1, 1)), None);
    assert_eq!(free_faces(&g, (1, 1)).len(), 12);
    g.set_obstacle(0, 2, true);
    assert_eq!(free_faces(&g, (1, 1)).len(), 11);
}

#[test]
fn pairs_of_faces_are_tried_from_the_nearest_on() {
    let mut g = Grid::new(9, 9);
    g.set(3, 3, machine(Item::CopperCable));
    let faces = free_faces(&g, (3, 3));
    let pairs = face_pairs(&g, &faces, (0, 4), (8, 4), (3, 3));
    assert_eq!(pairs.len(), 12 * 11);
    for w in pairs.windows(2) {
        assert!(w[0].cost <= w[1].cost);
    }
    let first = &pairs[0];
    assert_eq!((first.load, first.unload), ((2, 4), (6, 4)));
    assert_eq!((first.pickup, first.drop), ((1, 4), (7, 4)));
    assert_eq!((first.into, first.away), (Direction::East, Direction::East));
    assert_eq!(first.cost, 2);
}

#[test]
fn the_machine_goes_where_the_task_alone_says() {
    let mut task = Grid::new(11, 11);
    task.set(0, 5, source(Item::IronPlate));
    task.set(10, 5, sink(Item::IronGear));
    let site = canonical_assembler_anchor(&task, (0, 5), (10, 5)).unwrap();
    assert_eq!(canonical_assembler_anchor(&task, (0, 5), (10, 5)), Some(site));
    for dy in 0..3 {
        for dx in 0..3 {
            assert_eq!(task.anchor_at(site.0 + dx, site.1 + dy), None);
        }
    }
    let mut blocked = Grid::new(5, 5);
    for i in 0..5 {
        blocked.set_obstacle(2, i, true);
    }
    assert_eq!(canonical_assembler_anchor(&blocked, (0, 0), (4, 4)), None);
}
