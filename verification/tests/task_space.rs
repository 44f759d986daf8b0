use diffusion_factorio::factory_gen::choices::build_assembler_bank;
use diffusion_factorio::factory_gen::{generate, Canvas, LessonKind};
use diffusion_factorio::task_space::{
    answer_key, answer_shape_key, conditioning_key, factory_key, translation_invariant_key, CellAt,
    PartAt,
};
use diffusion_factorio::world::{Cell, Direction, Grid, Item};

#[test]
fn a_factory_is_told_apart_by_its_cells_and_its_terrain() {
    let mut g = Grid::new(3, 2);
    g.set(1, 1, Cell::belt(Direction::East));
    g.set_obstacle(2, 0, true);
    let key = factory_key(&g);
    assert_eq!(key.cells, vec![CellAt { slot: 4, entity: 3, direction: 2, item: 0, misc: 0 }]);
    assert_eq!(key.obstacles, vec![2]);
    let mut turned = g.clone();
    turned.set(1, 1, Cell::belt(Direction::West));
    assert_ne!(factory_key(&turned), key);
    let mut cleared = g.clone();
    cleared.set_obstacle(2, 0, false);
    assert_ne!(factory_key(&cleared), key);
    assert_eq!(factory_key(&g.clone()), key);
}

#[test]
fn a_task_and_its_answer_split_the_factory() {
    let s = generate(LessonKind::AssemblerLine, Canvas::square(11), 3).unwrap();
    let (_, observed) = s.blank_to_scaffold();
    let task = conditioning_key(&s.solution, &observed);
    let answer = answer_key(&s.solution, &observed);
    assert_eq!(task.cells.len(), observed.iter().filter(|o| **o).count());
    assert_eq!(task.cells.len() + answer.len(), s.solution.len());
    assert_eq!(task.obstacles, factory_key(&s.solution).obstacles);
    let mut slots: Vec<usize> =
        task.cells.iter().map(|c| c.slot).chain(answer.iter().map(|c| c.slot)).collect();
    slots.sort();
    assert_eq!(slots, (0..s.solution.len()).collect::<Vec<_>>());
}

#[test]
fn moving_a_layout_keeps_its_shape() {
    let canvas = Canvas::square(12);
    let here = build_assembler_bank(canvas, 0, 0, Item::IronGear, 2).unwrap().solution;
    let there = build_assembler_bank(canvas, 4, 2, Item::IronGear, 2).unwrap().solution;
    let more = build_assembler_bank(canvas, 4, 2, Item::IronGear, 3).unwrap().solution;
    assert_ne!(factory_key(&here), factory_key(&there));
    assert_eq!(translation_invariant_key(&here), translation_invariant_key(&there));
    assert_ne!(translation_invariant_key(&there), translation_invariant_key(&more));
}

#[test]
fn a_shape_is_measured_from_its_top_left_corner() {
    let mut g = Grid::new(6, 6);
    g.set(3, 2, Cell::belt(Direction::South));
    g.set(2, 4, Cell::belt(Direction::West));
    assert_eq!(
        translation_invariant_key(&g),
        vec![
            PartAt { dx: 1, dy: 0, entity: 3, direction: 3, item: 0, misc: 0, blocked: false },
            PartAt { dx: 0, dy: 2, entity: 3, direction: 4, item: 0, misc: 0, blocked: false },
        ]
    );
    assert!(translation_invariant_key(&Grid::new(4, 4)).is_empty());
    let mut observed = vec![false; 36];
    observed[g.idx(3, 2)] = true;
    let shape = answer_shape_key(&g, &observed);
    assert_eq!(shape.len(), 1);
    assert_eq!((shape[0].dx, shape[0].dy, shape[0].direction), (0, 0, 4));
}

#[test]
fn of_an_empty_blocked_tile_only_the_obstacle_counts() {
    let mut plain = Grid::new(1, 1);
    plain.set_obstacle(0, 0, true);
    let mut marked = plain.clone();
    marked.cells[0].item = Item::IronPlate;
    marked.cells[0].direction = Direction::South;
    let key = translation_invariant_key(&marked);
    assert_eq!(
        key,
        vec![PartAt { dx: 0, dy: 0, entity: 0, direction: 0, item: 0, misc: 0, blocked: true }]
    );
    assert_eq!(translation_invariant_key(&plain), key);
    assert_ne!(conditioning_key(&plain, &vec![true]), conditioning_key(&marked, &vec![true]));
}
