use diffusion_factorio::factory_gen::{generate, Canvas, LessonKind};
use diffusion_factorio::viewer::{describe, grid_to_svg};
use diffusion_factorio::world::{Cell, Direction, Entity, Grid, Item};

fn assembler_grid() -> Grid {
    let mut g = Grid::new(5, 5);
    g.set(
        1,
        1,
        Cell {
            entity: Entity::Assembler,
            direction: Direction::East,
            item: Item::IronGear,
            ..Default::default()
        },
    );
    g
}

#[test]
fn a_machine_is_drawn_across_every_tile_it_covers() {
    let svg = grid_to_svg(&assembler_grid());
    assert!(
        svg.contains("x=\"23\" y=\"23\" width=\"64\" height=\"64\""),
        "the assembler must span 3 tiles, not 1:\n{svg}"
    );
}

#[test]
fn a_machines_body_tiles_are_not_drawn_as_separate_entities() {
    let svg = grid_to_svg(&assembler_grid());
    assert_eq!(
        svg.matches("<g>").count(),
        1,
        "one machine must produce exactly one drawn object:\n{svg}"
    );
}

#[test]
fn a_body_tile_reports_the_machine_that_covers_it() {
    let g = assembler_grid();
    assert!(g.get(2, 2).is_empty(), "(2,2) is a body tile");
    assert_eq!(
        describe(&g, 2, 2),
        "(2, 2) covered by the Assembler at (1, 1)"
    );
}

#[test]
fn a_rotated_splitter_is_drawn_tall_rather_than_wide() {
    let mut g = Grid::new(4, 4);
    g.set(
        1,
        1,
        Cell {
            entity: Entity::Splitter,
            direction: Direction::East,
            ..Default::default()
        },
    );
    let svg = grid_to_svg(&g);
    assert!(
        svg.contains("width=\"20\" height=\"42\""),
        "an east-facing splitter must be 1x2:\n{svg}"
    );
}

#[test]
fn every_generated_factory_renders_to_balanced_svg() {
    let mut drawn = 0;
    for kind in LessonKind::all() {
        for seed in 0..8 {
            let Some(sample) = generate(kind, Canvas::square(11), seed) else {
                continue;
            };
            drawn += 1;
            let svg = grid_to_svg(&sample.solution);
            assert!(svg.starts_with("<svg"), "{}: no svg root", kind.name());
            assert!(svg.ends_with("</svg>"), "{}: unclosed svg", kind.name());
            assert_eq!(
                svg.matches("<g>").count(),
                svg.matches("</g>").count(),
                "{} seed {seed}: unbalanced groups",
                kind.name()
            );
        }
    }
    assert!(drawn > 0, "no factories were rendered at all");
}
