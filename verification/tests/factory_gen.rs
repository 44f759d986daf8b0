use diffusion_factorio::factory_gen::{
    generate, Canvas, LessonKind, Sample, DEFAULT_CANVAS_MAX, DEFAULT_CANVAS_MIN,
};
use diffusion_factorio::random::RandomStream;
use diffusion_factorio::sim::item_reaches_sink;
use diffusion_factorio::world::{Cell, Entity, Item};
use std::collections::{HashMap, HashSet};

fn conditioning(sample: &Sample, observed: &[bool]) -> String {
    let mut key = String::new();
    for (i, &obs) in observed.iter().enumerate() {
        if obs {
            let c = sample.solution.cells[i];
            key.push_str(&format!(
                "{i}:{}:{}:{}:{};",
                c.entity as u8, c.direction as u8, c.item as u8, c.misc as u8
            ));
        }
    }
    for (i, &blocked) in sample.solution.obstacle.iter().enumerate() {
        if blocked {
            key.push_str(&format!("#{i};"));
        }
    }
    key
}

fn answer(sample: &Sample, observed: &[bool]) -> String {
    let mut key = String::new();
    for (i, &obs) in observed.iter().enumerate() {
        if !obs {
            let c = sample.solution.cells[i];
            key.push_str(&format!(
                "{i}:{}:{}:{}:{};",
                c.entity as u8, c.direction as u8, c.item as u8, c.misc as u8
            ));
        }
    }
    key
}

#[test]
fn the_assembler_bank_gives_one_task_several_valid_answers() {
    for (blanking, observe) in [
        (
            "scaffold",
            &(|s: &Sample| s.blank_to_scaffold().1) as &dyn Fn(&Sample) -> Vec<bool>,
        ),
        ("inpaint", &|s: &Sample| {
            s.blank(None, &mut RandomStream::seed_from_u64(0)).1
        }),
    ] {
        let mut answers: HashMap<String, HashSet<String>> = HashMap::new();
        for seed in 0..2_000u64 {
            let Some(sample) = generate(LessonKind::AssemblerBank, Canvas::square(11), seed)
            else {
                continue;
            };
            let observed = observe(&sample);
            answers
                .entry(conditioning(&sample, &observed))
                .or_default()
                .insert(answer(&sample, &observed));
        }

        let ambiguous = answers.values().filter(|a| a.len() > 1).count();
        assert!(
            ambiguous > 0,
            "{blanking}: every task still has exactly one answer -- the family is pointless"
        );
        assert!(
            ambiguous * 4 > answers.len() * 3,
            "{blanking}: only {ambiguous} of {} tasks admit more than one answer",
            answers.len()
        );
    }
    assert!(LessonKind::AssemblerBank.is_ambiguous());
    assert!(LessonKind::all()
        .iter()
        .filter(|k| k.is_ambiguous())
        .all(|k| matches!(
            k,
            LessonKind::AssemblerBank | LessonKind::CircuitLine | LessonKind::SharedLine
        )));
}

#[test]
fn all_lessons_generate_functional_factories() {
    for kind in LessonKind::all() {
        let mut ok = 0;
        for seed in 0..40u64 {
            if let Some(s) = generate(kind, Canvas::square(11), seed) {
                assert!(s.solution.is_consistent(), "{}: inconsistent", kind.name());
                assert!(
                    item_reaches_sink(&s.solution),
                    "{}: not functional",
                    kind.name()
                );
                assert!(
                    !s.removable.is_empty(),
                    "{}: nothing removable",
                    kind.name()
                );
                ok += 1;
            }
        }
        assert!(ok > 0, "lesson {} never generated", kind.name());
    }
}

#[test]
fn direct_recipe_covers_every_recipe_and_one_machine_circuits() {
    let mut recipes = HashSet::new();
    let mut circuit_cases = 0;
    for seed in 0..200u64 {
        let sample = generate(LessonKind::DirectRecipe, Canvas::new(13, 9), seed)
            .expect("direct recipe must fit the inference canvas");
        let assemblers: Vec<Cell> = sample
            .solution
            .cells
            .iter()
            .copied()
            .filter(|c| c.entity == Entity::Assembler)
            .collect();
        assert_eq!(assemblers.len(), 1);
        recipes.insert(assemblers[0].item as u8);
        assert!(item_reaches_sink(&sample.solution));

        if assemblers[0].item == Item::GreenCircuit {
            circuit_cases += 1;
            let sources: HashSet<u8> = sample
                .solution
                .cells
                .iter()
                .filter(|c| c.entity == Entity::Source)
                .map(|c| c.item as u8)
                .collect();
            assert_eq!(
                sources,
                HashSet::from([Item::IronPlate as u8, Item::CopperCable as u8])
            );
            assert!(sample.protected.iter().all(|&i| matches!(
                sample.solution.cells[i].entity,
                Entity::Source | Entity::Sink
            )));
        }
    }
    assert!(circuit_cases > 0);
    assert_eq!(
        recipes,
        Item::craftable().into_iter().map(|i| i as u8).collect()
    );
}

#[test]
fn every_inserter_pushes_into_something_real() {
    for kind in LessonKind::all() {
        for seed in 0..60u64 {
            let Some(s) = generate(kind, Canvas::square(11), seed) else {
                continue;
            };
            let g = &s.solution;
            for y in 0..g.height {
                for x in 0..g.width {
                    if g.get(x, y).entity != Entity::Inserter {
                        continue;
                    }
                    let (dx, dy) = g.get(x, y).direction.delta();
                    let (tx, ty) = (x as i32 + dx, y as i32 + dy);
                    assert!(
                        tx >= 0
                            && ty >= 0
                            && (tx as usize) < g.width
                            && (ty as usize) < g.height,
                        "{}: inserter at ({x},{y}) faces off the board",
                        kind.name()
                    );
                    assert!(
                        g.anchor_at(tx as usize, ty as usize).is_some(),
                        "{}: inserter at ({x},{y}) pushes into an empty tile (seed {seed})",
                        kind.name()
                    );
                }
            }
        }
    }
}

#[test]
fn the_chaos_family_teaches_varied_answers_and_the_templated_one_teaches_two() {
    fn answer_shape(s: &Sample) -> String {
        let g = &s.solution;
        let cells: Vec<(usize, usize, Cell)> = s
            .solution
            .cells
            .iter()
            .enumerate()
            .filter(|(_, c)| {
                !c.is_empty() && !matches!(c.entity, Entity::Source | Entity::Sink)
            })
            .map(|(i, &c)| (i % g.width, i / g.width, c))
            .collect();
        let min_x = cells.iter().map(|&(x, _, _)| x).min().unwrap();
        let min_y = cells.iter().map(|&(_, y, _)| y).min().unwrap();
        let mut keys: Vec<String> = cells
            .iter()
            .map(|&(x, y, c)| {
                format!(
                    "{},{}:{}:{}:{}:{}",
                    x - min_x,
                    y - min_y,
                    c.entity as u8,
                    c.direction as u8,
                    c.item as u8,
                    c.misc as u8
                )
            })
            .collect();
        keys.sort();
        keys.join(";")
    }

    let shapes = |kind| -> usize {
        (0..200u64)
            .filter_map(|seed| generate(kind, Canvas::square(11), seed))
            .map(|s| answer_shape(&s))
            .collect::<HashSet<_>>()
            .len()
    };

    assert_eq!(
        shapes(LessonKind::AssemblerLine),
        2,
        "the templated line is supposed to teach exactly two recipe answers -- if this \
         moved, the premise of ASSEMBLER_CHAOS changed"
    );
    let chaos = shapes(LessonKind::AssemblerChaos);
    assert!(
        chaos > 150,
        "ASSEMBLER_CHAOS gave only {chaos} distinct answers in 200 seeds; it is \
         stamping a template again"
    );
}

#[test]
fn blanking_masks_removable_cells() {
    let s = generate(LessonKind::MoveOneItem, Canvas::square(11), 7).expect("gen");
    let mut rng = RandomStream::seed_from_u64(1);
    let (partial, observed) = s.blank(None, &mut rng);
    for &i in &s.removable {
        assert!(partial.cells[i].is_empty());
        assert!(!observed[i]);
    }
    for &i in &s.protected {
        assert!(observed[i]);
        assert_eq!(partial.cells[i], s.solution.cells[i]);
    }
}

#[test]
fn blanking_to_scaffold_leaves_only_the_source_and_sink() {
    for kind in LessonKind::all() {
        let Some(s) = generate(kind, Canvas::square(11), 7) else {
            continue;
        };
        let (partial, observed) = s.blank_to_scaffold();
        for (i, cell) in s.solution.cells.iter().enumerate() {
            if matches!(cell.entity, Entity::Source | Entity::Sink) {
                assert!(observed[i], "{}: anchor was blanked", kind.name());
                assert_eq!(partial.cells[i], *cell);
            } else {
                assert!(!observed[i], "{}: cell {i} stayed visible", kind.name());
                assert!(partial.cells[i].is_empty());
            }
        }
        assert_eq!(partial.obstacle, s.solution.obstacle);
    }
}

#[test]
fn blanking_to_scaffold_asks_for_far_more_than_inpainting() {
    let s = generate(LessonKind::AssemblerLine, Canvas::square(11), 7).expect("gen");
    let mut rng = RandomStream::seed_from_u64(1);
    let (_, inpaint) = s.blank(None, &mut rng);
    let (_, scratch) = s.blank_to_scaffold();

    let masked = |observed: &[bool]| observed.iter().filter(|&&o| !o).count();
    assert!(
        masked(&scratch) > 10 * masked(&inpaint),
        "from scratch masked {} cells, inpainting masked {}",
        masked(&scratch),
        masked(&inpaint)
    );
    assert!(s
        .solution
        .cells
        .iter()
        .zip(&scratch)
        .any(|(cell, &obs)| cell.entity == Entity::Assembler && !obs));
}

#[test]
fn a_circuit_machine_starved_of_either_input_crafts_nothing() {
    let sample = generate(LessonKind::CircuitLine, Canvas::square(11), 0).expect("gen");
    assert!(item_reaches_sink(&sample.solution));

    for starve in [Item::IronPlate, Item::CopperPlate] {
        let mut grid = sample.solution.clone();
        let source = grid
            .cells
            .iter()
            .position(|c| c.entity == Entity::Source && c.item == starve)
            .expect("both sources exist");
        grid.cells[source] = Cell::default();
        assert!(
            !item_reaches_sink(&grid),
            "cut the {starve:?} feed and it still delivered circuits"
        );
    }
}

#[test]
fn some_lesson_teaches_every_entity_the_vocabulary_has() {
    let mut seen: HashSet<u8> = HashSet::new();
    for kind in LessonKind::all() {
        for seed in 0..50u64 {
            let Some(sample) = generate(kind, Canvas::square(13), seed) else {
                continue;
            };
            seen.extend(sample.solution.cells.iter().map(|c| c.entity as u8));
        }
    }
    let untaught: Vec<Entity> = (0..Entity::COUNT)
        .filter_map(Entity::from_id)
        .filter(|e| !seen.contains(&(*e as u8)))
        .collect();
    assert!(
        untaught.is_empty(),
        "no lesson ever places {untaught:?} -- the model cannot learn a word it never sees"
    );
}

const INFERENCE: Canvas = Canvas {
    width: 13,
    height: 9,
};

#[test]
fn padding_squares_would_drop_the_two_lessons_that_compose() {
    for kind in [LessonKind::CircuitLine, LessonKind::SharedLine] {
        let need = kind.min_canvas();
        assert!(
            kind.fits(INFERENCE),
            "{} needs {need:?} and does not fit {INFERENCE:?} natively",
            kind.name()
        );
        let largest_padded_square = Canvas::square(INFERENCE.width.min(INFERENCE.height));
        assert!(
            !kind.fits(largest_padded_square),
            "{} fits {largest_padded_square:?}, so padding would not have cost it \
             -- this test no longer measures anything",
            kind.name()
        );
    }
}

#[test]
fn every_lesson_actually_generates_on_the_inference_canvas() {
    for kind in LessonKind::all() {
        let built = (0..50u64)
            .filter(|&seed| generate(kind, INFERENCE, seed).is_some())
            .count();
        assert!(
            built > 0,
            "{} never generated on {INFERENCE:?} in 50 seeds",
            kind.name()
        );
    }
}

#[test]
fn the_default_pool_is_mostly_not_square() {
    let pool = Canvas::pool(DEFAULT_CANVAS_MIN, DEFAULT_CANVAS_MAX);
    let squares = pool.iter().filter(|c| c.width == c.height).count();
    assert!(
        pool.len() > 2 * squares,
        "{squares} of {} canvases are square -- the pool barely varies shape",
        pool.len()
    );
    assert!(
        pool.contains(&INFERENCE),
        "the pool does not contain {INFERENCE:?}, the shape of the inference canvas"
    );
}
