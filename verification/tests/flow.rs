use diffusion_factorio::factory_gen::placing::{inserter, machine, sink, source, splitter};
use diffusion_factorio::sim::{
    emits, flow_targets, item_reaches_sink, positions, resolve, sink_accepts, tapping_inserters,
};
use diffusion_factorio::throughput::{
    accepts_from, build_graph, firing_order, flow_plan, reachable_from,
};
use diffusion_factorio::world::{Cell, Direction, Entity, Grid, Item};

fn line() -> Grid {
    let mut g = Grid::new(7, 3);
    g.set(0, 1, source(Item::IronPlate));
    g.set(1, 1, inserter(Direction::East));
    g.set(2, 0, machine(Item::IronGear));
    g.set(5, 1, inserter(Direction::East));
    g.set(6, 1, sink(Item::IronGear));
    g
}

#[test]
fn without_a_source_or_a_sink_nothing_flows() {
    let g = line();
    assert!(item_reaches_sink(&g) && flow_plan(&g).is_some());
    let mut dry = g.clone();
    dry.set(0, 1, Cell::default());
    assert!(!item_reaches_sink(&dry) && flow_plan(&dry).is_none());
    let mut endless = g.clone();
    endless.set(6, 1, Cell::default());
    assert!(!item_reaches_sink(&endless) && flow_plan(&endless).is_none());
}

#[test]
fn an_entity_never_targets_itself() {
    let g = line();
    for y in 0..3 {
        for x in 0..7 {
            let targets = flow_targets(&g, x, y);
            assert!(!targets.contains(&(x, y)));
            for (tx, ty) in targets {
                assert_eq!(g.anchor_at(tx, ty), Some((tx, ty)));
            }
        }
    }
    assert_eq!(flow_targets(&g, 1, 1), vec![(2, 0)]);
    assert_eq!(flow_targets(&g, 2, 0), vec![(5, 1), (1, 1)]);
}

#[test]
fn two_tiles_of_one_machine_are_one_target() {
    let g = line();
    assert_eq!(resolve(&g, (1, 1), vec![(2, 0), (3, 1), (4, 2), (1, 1), (6, 0)]), vec![(2, 0)]);
    assert_eq!(positions(&g, Entity::Inserter), vec![(1, 1), (5, 1)]);
}

#[test]
fn a_belt_is_emptied_by_the_inserters_that_reach_into_it() {
    let mut g = Grid::new(3, 3);
    g.set(1, 1, Cell::belt(Direction::East));
    g.set(1, 0, inserter(Direction::North));
    g.set(1, 2, inserter(Direction::North));
    assert_eq!(tapping_inserters(&g, 1, 1), vec![(1, 0)]);
}

#[test]
fn a_splitter_offers_two_tiles() {
    let mut g = Grid::new(3, 2);
    g.set(1, 0, splitter(Direction::East));
    g.set(2, 0, Cell::belt(Direction::East));
    g.set(2, 1, Cell::belt(Direction::East));
    assert_eq!(flow_targets(&g, 1, 0), vec![(2, 0), (2, 1)]);
}

#[test]
fn a_machine_hands_on_its_product_once_every_ingredient_has_come() {
    let mut g = Grid::new(3, 3);
    g.set(0, 0, machine(Item::GreenCircuit));
    let mut arriving = [false; 6];
    arriving[Item::IronPlate.id()] = true;
    assert!(emits(&g, &arriving, 0, 0).is_empty());
    arriving[Item::CopperCable.id()] = true;
    assert_eq!(emits(&g, &arriving, 0, 0), vec![Item::GreenCircuit]);
    assert!(sink_accepts(Item::Nothing, Item::IronGear));
    assert!(sink_accepts(Item::IronGear, Item::IronGear));
    assert!(!sink_accepts(Item::IronGear, Item::IronPlate));
}

#[test]
fn the_graph_lists_every_edge_from_both_ends() {
    let g = line();
    let (successors, predecessors) = build_graph(&g);
    assert_eq!(successors[7], vec![8]);
    assert_eq!(successors[8], vec![2]);
    assert_eq!(predecessors[2], vec![8]);
    assert_eq!(predecessors[13], vec![12]);
    assert!(predecessors[7].is_empty());
    for (p, list) in successors.iter().enumerate() {
        for &q in list {
            assert!(predecessors[q].contains(&p));
        }
    }
    assert!(accepts_from(&g, (2, 0), (1, 1)));
    assert!(!accepts_from(&g, (0, 1), (1, 1)));
}

#[test]
fn belts_do_not_feed_each_other() {
    let mut g = Grid::new(2, 1);
    g.set(0, 0, Cell::belt(Direction::East));
    g.set(1, 0, Cell::belt(Direction::West));
    let (successors, predecessors) = build_graph(&g);
    assert!(successors.iter().all(|s| s.is_empty()));
    assert!(predecessors.iter().all(|p| p.is_empty()));
}

#[test]
fn a_loop_never_gets_its_turn() {
    let successors = vec![vec![1], vec![2], vec![1, 3], vec![], vec![3]];
    let predecessors = vec![vec![], vec![0, 2], vec![1], vec![2, 4], vec![]];
    let reachable = reachable_from(&successors, &vec![0]);
    assert_eq!(reachable, vec![true, true, true, true, false]);
    assert_eq!(firing_order(&successors, &predecessors, &reachable, &vec![0]), vec![0]);
    let straight = vec![vec![1], vec![2], vec![], vec![]];
    let back = vec![vec![], vec![0], vec![1], vec![]];
    let seen = reachable_from(&straight, &vec![0]);
    assert_eq!(firing_order(&straight, &back, &seen, &vec![0]), vec![0, 1, 2]);
}

#[test]
fn the_plan_of_a_line_fires_from_source_to_sink() {
    let plan = flow_plan(&line()).unwrap();
    assert_eq!(plan.sources, vec![7]);
    assert_eq!(plan.sinks, vec![13]);
    assert_eq!(plan.order, vec![7, 8, 2, 12, 13]);
}
