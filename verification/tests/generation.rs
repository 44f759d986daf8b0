use diffusion_factorio::factory_gen::choices::{
    build_assembler_bank, build_circuit_line, build_shared_line,
};
use diffusion_factorio::factory_gen::routed::{build_move_one_item, scatter};
use diffusion_factorio::factory_gen::templates::{
    build_assembler_line, build_direct_recipe, build_underground_cross,
};
use diffusion_factorio::factory_gen::{generate, Canvas, LessonKind};
use diffusion_factorio::random::RandomStream;
use diffusion_factorio::sim::item_reaches_sink;
use diffusion_factorio::textual::render;
use diffusion_factorio::world::{Direction, Entity, Grid, Item};

#[test]
fn nothing_is_generated_where_nothing_fits() {
    for kind in LessonKind::all() {
        let least = kind.min_canvas();
        assert!(kind.fits(least));
        if least.width > 1 {
            let narrow = Canvas::new(least.width - 1, least.height);
            assert!(!kind.fits(narrow));
            for seed in 0..3 {
                assert!(generate(kind, narrow, seed).is_none());
            }
        }
    }
}

#[test]
fn a_lesson_is_of_the_family_and_the_shape_that_was_asked_for() {
    for kind in LessonKind::all() {
        for (w, h) in [(11, 11), (15, 9), (9, 14)] {
            let canvas = Canvas::new(w, h);
            if let Some(s) = generate(kind, canvas, 5) {
                assert_eq!(s.kind, kind);
                assert_eq!((s.solution.width, s.solution.height), (w, h));
                assert!(s.solution.is_consistent());
                assert!(item_reaches_sink(&s.solution));
            } else {
                assert!(!kind.fits(canvas));
            }
        }
    }
}

#[test]
fn a_seed_fixes_the_lesson() {
    let canvas = Canvas::square(12);
    for kind in LessonKind::all() {
        let a = generate(kind, canvas, 99).unwrap();
        let b = generate(kind, canvas, 99).unwrap();
        assert_eq!(a.solution, b.solution);
        assert_eq!(a.protected, b.protected);
        assert_eq!(a.removable, b.removable);
    }
}

#[test]
fn every_family_is_listed_once_under_its_own_name() {
    let all = LessonKind::all();
    assert_eq!(all.len(), 9);
    for (i, a) in all.iter().enumerate() {
        for b in &all[i + 1..] {
            assert_ne!(a, b);
            assert_ne!(a.name(), b.name());
        }
    }
    let choosing: Vec<&str> =
        all.iter().filter(|k| k.is_ambiguous()).map(|k| k.name()).collect();
    assert_eq!(choosing, vec!["ASSEMBLER_BANK", "CIRCUIT_LINE", "SHARED_LINE"]);
}

#[test]
fn a_pool_holds_every_shape_between_its_bounds() {
    let pool = Canvas::pool(3, 5);
    assert_eq!(pool.len(), 9);
    assert_eq!(pool[1], Canvas::new(4, 3));
    assert!(pool.contains(&Canvas::new(5, 5)));
    assert!(Canvas::pool(6, 5).is_empty());
    assert_eq!(Canvas::new(4, 3).area(), 12);
}

#[test]
fn an_ambiguous_task_shows_its_ports_and_nothing_of_its_answer() {
    let canvas = Canvas::square(11);
    let banks: Vec<_> =
        (1..=3).map(|n| build_assembler_bank(canvas, 1, 1, Item::IronGear, n).unwrap()).collect();
    let circuits: Vec<_> = (1..=3).map(|n| build_circuit_line(canvas, 0, 2, n).unwrap()).collect();
    let shared: Vec<_> = (1..=2)
        .map(|n| build_shared_line(canvas, 0, 2, Item::CopperCable, n).unwrap())
        .collect();
    for family in [banks, circuits, shared] {
        for s in &family {
            let (task, observed) = s.blank_to_scaffold();
            assert_eq!(task, family[0].blank_to_scaffold().0);
            for (c, seen) in task.cells.iter().zip(&observed) {
                assert_eq!(*seen, matches!(c.entity, Entity::Source | Entity::Sink));
            }
            let mut rng = RandomStream::seed_from_u64(1);
            assert_eq!(s.blank(None, &mut rng).0, task);
        }
        for i in 1..family.len() {
            assert_ne!(family[i].solution, family[i - 1].solution);
        }
    }
}

#[test]
fn layouts_are_drawn_as_described() {
    let line = build_assembler_line(Canvas::new(7, 3), 0, 0, Item::IronGear).unwrap();
    assert_eq!(line.protected, vec![7, 2, 13]);
    assert_eq!(line.removable, vec![8, 12]);
    let cross = build_underground_cross(Canvas::new(7, 1), 0, 0, Item::IronPlate).unwrap();
    assert!(cross.solution.is_obstacle(3, 0));
    assert_eq!(cross.removable, vec![1, 2, 4, 5]);
    assert_eq!(render(&cross.solution).lines().count(), 1);
    let direct = build_direct_recipe(
        Canvas::new(7, 5),
        0,
        0,
        Item::GreenCircuit,
        &vec![Item::CopperCable, Item::IronPlate],
    )
    .unwrap();
    assert_eq!(direct.solution.get(3, 0).item, Item::IronPlate);
    assert_eq!(direct.solution.get(3, 1).direction, Direction::South);
    let starved =
        build_direct_recipe(Canvas::new(7, 5), 0, 0, Item::GreenCircuit, &vec![Item::CopperCable]);
    assert!(starved.is_none());
}

#[test]
fn a_route_with_nothing_between_its_ends_is_no_lesson() {
    let board = Grid::new(5, 5);
    let kind = LessonKind::MoveOneItem;
    assert!(build_move_one_item(board.clone(), (0, 0), (1, 0), Item::IronPlate, kind).is_none());
    let s = build_move_one_item(board, (0, 0), (3, 0), Item::IronPlate, kind).unwrap();
    assert_eq!(s.removable, vec![1, 2]);
    assert_eq!(s.protected, vec![0, 3]);
}

#[test]
fn blanking_some_cells_leaves_the_others() {
    let s = generate(LessonKind::AssemblerBank, Canvas::square(11), 4).unwrap();
    let mut rng = RandomStream::seed_from_u64(9);
    let (partial, observed) = s.blank(Some(5), &mut rng);
    assert_eq!(observed.iter().filter(|o| !**o).count(), 5);
    for i in 0..partial.len() {
        if observed[i] {
            assert_eq!(partial.cells[i], s.solution.cells[i]);
        } else {
            assert!(partial.cells[i].is_empty() && s.removable.contains(&i));
        }
    }
    let (all, _) = s.blank(Some(100_000), &mut rng);
    let (scaffold, shown) = s.blank_to_scaffold();
    for i in 0..all.len() {
        if shown[i] {
            assert_eq!(all.cells[i], scaffold.cells[i]);
        }
    }
}

#[test]
fn obstacles_are_scattered_over_a_bare_board() {
    let canvas = Canvas::new(10, 8);
    let mut rng = RandomStream::seed_from_u64(11);
    let board = scatter(canvas, &mut rng);
    assert_eq!((board.width, board.height), (10, 8));
    assert!(board.cells.iter().all(|c| c.is_empty()));
    assert!(board.obstacle.iter().any(|o| *o));
    let mut again = RandomStream::seed_from_u64(11);
    assert_eq!(scatter(canvas, &mut again), board);
}

#[test]
fn every_source_and_sink_is_protected() {
    for kind in LessonKind::all() {
        for seed in 0..10u64 {
            let Some(s) = generate(kind, Canvas::square(13), seed) else {
                continue;
            };
            for (i, cell) in s.solution.cells.iter().enumerate() {
                if matches!(cell.entity, Entity::Source | Entity::Sink) {
                    assert!(s.protected.contains(&i), "{} {seed} {i}", kind.name());
                }
            }
            assert!(s.removable.iter().all(|i| !s.protected.contains(i)));
        }
    }
}

#[test]
fn a_chaos_lesson_holds_one_machine() {
    for seed in 0..20u64 {
        let s = generate(LessonKind::AssemblerChaos, Canvas::square(11), seed).unwrap();
        let count = |e: Entity| s.solution.cells.iter().filter(|c| c.entity == e).count();
        assert_eq!(count(Entity::Assembler), 1);
        assert_eq!(count(Entity::Source), 1);
        assert_eq!(count(Entity::Sink), 1);
    }
}
