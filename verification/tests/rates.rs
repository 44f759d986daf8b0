//! The rates a factory delivers, worked out on the plan that the library makes of it.

use diffusion_factorio::best_of_n::{parts, select};
use diffusion_factorio::factory_gen::{
    canonical_assembler_anchor, generate, Canvas, LessonKind, Sample, BANK_LINES, CABLE_FEEDS,
    DEFAULT_CANVAS_MAX, DEFAULT_CANVAS_MIN,
};
use diffusion_factorio::sim::{item_reaches_sink, sink_accepts};
use diffusion_factorio::textual::render;
use diffusion_factorio::throughput::flow_plan;
use diffusion_factorio::world::{Cell, Direction, Entity, Grid, Item, Misc};
use std::collections::{HashMap, HashSet};

const BELT_RATE: f64 = 15.0;
const INSERTER_RATE: f64 = 0.86;
const ITEMS: usize = Item::COUNT;

type Flow = [f64; ITEMS];

struct SinkDelivery {
    at: (usize, usize),
    achieved: f64,
}

struct ThroughputReport {
    deliveries: Vec<SinkDelivery>,
    score: f64,
}

fn power_mean(values: &[f64], p: f64) -> f64 {
    if values.is_empty() {
        return 0.0;
    }
    let sum: f64 = values.iter().map(|v| v.powf(p)).sum();
    (sum / values.len() as f64).powf(1.0 / p)
}

fn factory_score(deliveries: &[SinkDelivery]) -> f64 {
    let achieved: Vec<f64> = deliveries.iter().map(|d| d.achieved).collect();
    let score = power_mean(&achieved, 0.5);
    if score.is_finite() {
        score
    } else {
        0.0
    }
}

fn clamp_total(flow: &Flow, cap: f64) -> Flow {
    let total: f64 = flow.iter().sum();
    if total <= cap {
        return *flow;
    }
    let unlimited = flow.iter().filter(|r| r.is_infinite()).count();
    let mut out = [0.0; ITEMS];
    for (o, r) in out.iter_mut().zip(flow.iter()) {
        if unlimited > 0 {
            if r.is_infinite() {
                *o = cap / unlimited as f64;
            }
        } else {
            *o = r * cap / total;
        }
    }
    out
}

fn transform(cell: Cell, input: &Flow) -> Flow {
    match cell.entity {
        Entity::Assembler => {
            let mut out = [0.0; ITEMS];
            if let Some(recipe) = cell.item.recipe() {
                let mut crafts = 500.0 / recipe.crafting_millis as f64;
                for i in &recipe.ingredients {
                    crafts = crafts.min(input[i.item as usize] / i.qty as f64);
                }
                out[cell.item as usize] = crafts * recipe.output_qty as f64;
            }
            out
        }
        Entity::TransportBelt | Entity::UndergroundBelt | Entity::Splitter => {
            clamp_total(input, BELT_RATE)
        }
        Entity::Inserter => clamp_total(input, INSERTER_RATE),
        Entity::Sink => *input,
        Entity::Source | Entity::Empty => [0.0; ITEMS],
    }
}

fn throughput(grid: &Grid) -> ThroughputReport {
    let Some(plan) = flow_plan(grid) else {
        return ThroughputReport {
            deliveries: Vec::new(),
            score: 0.0,
        };
    };
    let mut outputs = vec![[0.0; ITEMS]; grid.len()];
    for &u in &plan.order {
        if grid.cells[u].entity == Entity::Source {
            outputs[u][grid.cells[u].item as usize] = f64::INFINITY;
            continue;
        }
        let mut input = [0.0; ITEMS];
        for &p in &plan.predecessors[u] {
            for (acc, rate) in input.iter_mut().zip(outputs[p].iter()) {
                *acc += rate;
            }
        }
        outputs[u] = transform(grid.cells[u], &input);
        let k = plan.successors[u].len();
        if k > 1 {
            for rate in outputs[u].iter_mut() {
                *rate /= k as f64;
            }
        }
    }
    let deliveries: Vec<SinkDelivery> = plan
        .sinks
        .iter()
        .map(|&s| SinkDelivery {
            at: (s % grid.width, s / grid.width),
            achieved: (0..ITEMS)
                .filter(|&i| sink_accepts(grid.cells[s].item, Item::from_id(i).unwrap()))
                .map(|i| outputs[s][i])
                .sum(),
        })
        .collect();
    let score = factory_score(&deliveries);
    ThroughputReport { deliveries, score }
}

fn score(grid: &Grid) -> f64 {
    throughput(grid).score
}

fn conditioning(sample: &Sample, observed: &[bool]) -> String {
    let mut key = String::new();
    for (i, &obs) in observed.iter().enumerate() {
        if obs {
            let c = sample.solution.cells[i];
            key.push_str(&format!(
                "{i}:{}:{}:{}:{};",
                c.entity as u8, c.direction as u8, c.item as u8, c.misc as u8
            ));
        }
    }
    for (i, &blocked) in sample.solution.obstacle.iter().enumerate() {
        if blocked {
            key.push_str(&format!("#{i};"));
        }
    }
    key
}

fn cable_feeds(sample: &Sample) -> usize {
    sample
        .solution
        .cells
        .iter()
        .enumerate()
        .filter(|(i, c)| {
            c.entity == Entity::Inserter && {
                let (x, y) = (i % sample.solution.width, i / sample.solution.width);
                let (dx, dy) = c.direction.delta();
                let from = sample
                    .solution
                    .anchor_at((x as i32 - dx) as usize, (y as i32 - dy) as usize);
                let to = sample
                    .solution
                    .anchor_at((x as i32 + dx) as usize, (y as i32 + dy) as usize);
                let machine = |a: Option<(usize, usize)>| {
                    a.is_some_and(|(ax, ay)| {
                        sample.solution.get(ax, ay).entity == Entity::Assembler
                    })
                };
                machine(from) && machine(to)
            }
        })
        .count()
}

fn approx(a: f64, b: f64) -> bool {
    (a - b).abs() < 1e-9
}

fn anchor(entity: Entity, item: Item) -> Cell {
    Cell {
        entity,
        item,
        ..Default::default()
    }
}

fn inserter(direction: Direction) -> Cell {
    Cell {
        entity: Entity::Inserter,
        direction,
        ..Default::default()
    }
}

fn assembler(recipe: Item) -> Cell {
    Cell {
        entity: Entity::Assembler,
        direction: Direction::East,
        item: recipe,
        ..Default::default()
    }
}

#[test]
fn power_mean_matches_the_arithmetic_mean_at_p_one() {
    assert!(approx(power_mean(&[1.0, 3.0], 1.0), 2.0));
    assert!(approx(power_mean(&[4.0, 4.0], 0.5), 4.0));
    assert_eq!(power_mean(&[], 0.5), 0.0);
}

#[test]
fn a_belt_run_delivers_a_full_belt() {
    let mut g = Grid::new(5, 1);
    g.set(0, 0, anchor(Entity::Source, Item::IronPlate));
    g.set(1, 0, Cell::belt(Direction::East));
    g.set(2, 0, Cell::belt(Direction::East));
    g.set(3, 0, Cell::belt(Direction::East));
    g.set(4, 0, anchor(Entity::Sink, Item::IronPlate));
    assert!(approx(score(&g), BELT_RATE));
}

#[test]
fn a_gap_in_the_belt_delivers_nothing() {
    let mut g = Grid::new(5, 1);
    g.set(0, 0, anchor(Entity::Source, Item::IronPlate));
    g.set(1, 0, Cell::belt(Direction::East));
    g.set(3, 0, Cell::belt(Direction::East));
    g.set(4, 0, anchor(Entity::Sink, Item::IronPlate));
    assert_eq!(score(&g), 0.0);
}

fn assembler_line(recipe: Item, ingredient: Item) -> Grid {
    let mut g = Grid::new(7, 3);
    g.set(0, 1, anchor(Entity::Source, ingredient));
    g.set(1, 1, inserter(Direction::East));
    g.set(2, 0, assembler(recipe));
    g.set(5, 1, inserter(Direction::East));
    g.set(6, 1, anchor(Entity::Sink, recipe));
    g
}

#[test]
fn the_recipe_decides_the_rate_of_an_identical_layout() {
    let gears = assembler_line(Item::IronGear, Item::IronPlate);
    let cable = assembler_line(Item::CopperCable, Item::CopperPlate);
    assert!(item_reaches_sink(&gears) && item_reaches_sink(&cable));

    assert!(approx(score(&gears), 0.43), "gears: {}", score(&gears));
    assert!(
        approx(score(&cable), INSERTER_RATE),
        "cable: {}",
        score(&cable)
    );
}

#[test]
fn flooding_an_assembler_does_not_beat_its_crafting_speed() {
    let mut g = Grid::new(6, 3);
    g.set(0, 1, anchor(Entity::Source, Item::IronPlate));
    g.set(1, 0, assembler(Item::IronGear));
    g.set(4, 1, inserter(Direction::East));
    g.set(5, 1, anchor(Entity::Sink, Item::IronGear));

    let recipe = Item::IronGear.recipe().expect("gears are craftable");
    assert!(approx(500.0 / recipe.crafting_millis as f64, 1.0));
    assert!(approx(score(&g), INSERTER_RATE), "{}", score(&g));
}

#[test]
fn bypassing_the_assembler_scores_zero() {
    let mut g = Grid::new(5, 1);
    g.set(0, 0, anchor(Entity::Source, Item::IronPlate));
    g.set(1, 0, Cell::belt(Direction::East));
    g.set(2, 0, Cell::belt(Direction::East));
    g.set(3, 0, Cell::belt(Direction::East));
    g.set(4, 0, anchor(Entity::Sink, Item::IronGear));
    assert_eq!(score(&g), 0.0);
    assert!(!item_reaches_sink(&g));
}

#[test]
fn a_belt_alongside_an_assembler_does_not_feed_it() {
    let mut g = Grid::new(4, 1);
    g.set(0, 0, anchor(Entity::Source, Item::IronPlate));
    g.set(1, 0, Cell::belt(Direction::East));
    g.set(2, 0, assembler(Item::IronGear));
    g.set(3, 0, anchor(Entity::Sink, Item::IronGear));
    assert_eq!(score(&g), 0.0);
}

#[test]
fn an_inserter_does_not_grab_from_its_side() {
    let mut g = Grid::new(3, 2);
    g.set(0, 0, anchor(Entity::Source, Item::IronPlate));
    g.set(1, 0, Cell::belt(Direction::East));
    g.set(1, 1, inserter(Direction::North));
    g.set(2, 1, anchor(Entity::Sink, Item::IronPlate));
    assert_eq!(score(&g), 0.0);
}

#[test]
fn an_ignored_sink_drags_the_score_down() {
    let mut g = Grid::new(3, 2);
    g.set(0, 0, anchor(Entity::Source, Item::IronPlate));
    g.set(1, 0, Cell::belt(Direction::East));
    g.set(2, 0, anchor(Entity::Sink, Item::IronPlate));
    g.set(2, 1, anchor(Entity::Sink, Item::IronPlate));

    let report = throughput(&g);
    assert_eq!(report.deliveries.len(), 2);
    assert!(approx(report.score, 3.75), "{}", report.score);
    assert!(report.score < BELT_RATE);
    assert!(item_reaches_sink(&g));
}

#[test]
fn feeding_both_sinks_beats_feeding_one() {
    let mut one = Grid::new(3, 2);
    one.set(0, 0, anchor(Entity::Source, Item::IronPlate));
    one.set(1, 0, Cell::belt(Direction::East));
    one.set(2, 0, anchor(Entity::Sink, Item::IronPlate));
    one.set(2, 1, anchor(Entity::Sink, Item::IronPlate));

    let mut both = one.clone();
    both.set(0, 1, Cell::belt(Direction::East));
    both.set(1, 1, Cell::belt(Direction::East));

    assert!(approx(score(&one), 3.75), "{}", score(&one));
    assert!(approx(score(&both), BELT_RATE), "{}", score(&both));
    assert!(score(&both) > score(&one));
}

#[test]
fn a_source_touching_a_sink_scores_zero() {
    let mut g = Grid::new(2, 1);
    g.set(0, 0, anchor(Entity::Source, Item::IronPlate));
    g.set(1, 0, anchor(Entity::Sink, Item::IronPlate));
    assert_eq!(score(&g), 0.0);
}

#[test]
fn a_source_touching_one_sink_of_two_scores_zero() {
    let mut g = Grid::new(5, 1);
    g.set(0, 0, anchor(Entity::Sink, Item::IronPlate));
    g.set(1, 0, anchor(Entity::Source, Item::IronPlate));
    g.set(2, 0, Cell::belt(Direction::East));
    g.set(3, 0, anchor(Entity::Sink, Item::IronPlate));
    assert_eq!(score(&g), 0.0);
    assert!(item_reaches_sink(&g));
}

#[test]
fn a_belt_into_a_machine_works_but_has_no_place_in_the_plan() {
    let mut g = assembler_line(Item::IronGear, Item::IronPlate);
    g.set(1, 1, Cell::belt(Direction::East));
    let plan = flow_plan(&g).unwrap();
    assert!(plan.successors[g.idx(1, 1)].is_empty());
    assert!(item_reaches_sink(&g));
    assert_eq!(score(&g), 0.0);
}

#[test]
fn an_underground_belt_carries_a_full_belt_across_a_gap() {
    let mut g = Grid::new(6, 1);
    g.set(0, 0, anchor(Entity::Source, Item::IronPlate));
    g.set(1, 0, Cell::belt(Direction::East));
    g.set(
        2,
        0,
        Cell {
            entity: Entity::UndergroundBelt,
            direction: Direction::East,
            misc: Misc::UndergroundDown,
            ..Default::default()
        },
    );
    g.set(
        4,
        0,
        Cell {
            entity: Entity::UndergroundBelt,
            direction: Direction::East,
            misc: Misc::UndergroundUp,
            ..Default::default()
        },
    );
    g.set(5, 0, anchor(Entity::Sink, Item::IronPlate));
    assert!(approx(score(&g), BELT_RATE));
}

#[test]
fn a_belt_loop_starves_only_what_it_feeds() {
    let mut g = Grid::new(4, 3);
    g.set(0, 0, anchor(Entity::Source, Item::IronPlate));
    g.set(1, 0, Cell::belt(Direction::East));
    g.set(2, 0, anchor(Entity::Sink, Item::IronPlate));
    g.set(0, 1, Cell::belt(Direction::East));
    g.set(1, 1, Cell::belt(Direction::South));
    g.set(1, 2, Cell::belt(Direction::West));
    g.set(0, 2, Cell::belt(Direction::North));
    g.set(3, 1, anchor(Entity::Sink, Item::IronPlate));

    let report = throughput(&g);
    assert_eq!(report.deliveries.len(), 2);
    let fed = report.deliveries.iter().find(|d| d.at == (2, 0)).unwrap();
    let starved = report.deliveries.iter().find(|d| d.at == (3, 1)).unwrap();
    assert!(approx(fed.achieved, BELT_RATE));
    assert_eq!(starved.achieved, 0.0);
    assert!(
        report.score > 0.0,
        "the loop must not zero the whole factory"
    );
}

#[test]
fn every_generated_solution_scores_above_zero() {
    for kind in LessonKind::all() {
        for seed in 0..200u64 {
            let Some(sample) = generate(kind, Canvas::square(11), seed) else {
                continue;
            };
            assert!(
                item_reaches_sink(&sample.solution),
                "{kind:?} seed {seed}: generated solution is not functional"
            );
            let s = score(&sample.solution);
            assert!(
                s > 0.0,
                "{kind:?} seed {seed}: functional but scores {s}\n{}",
                render(&sample.solution)
            );
            assert!(s.is_finite(), "{kind:?} seed {seed}: score is {s}");
        }
    }
}

#[test]
fn the_bank_answers_are_not_equally_good() {
    let mut by_rate: HashMap<String, Vec<f64>> = HashMap::new();
    for seed in 0..2_000u64 {
        let Some(sample) = generate(LessonKind::AssemblerBank, Canvas::square(11), seed) else {
            continue;
        };
        let (_, observed) = sample.blank_to_scaffold();
        by_rate
            .entry(conditioning(&sample, &observed))
            .or_default()
            .push(score(&sample.solution));
    }

    let spread = by_rate
        .values()
        .filter(|rates| {
            let (lo, hi) = (
                rates.iter().copied().fold(f64::INFINITY, f64::min),
                rates.iter().copied().fold(0.0, f64::max),
            );
            hi > lo * 1.9
        })
        .count();
    assert!(
        spread * 2 > by_rate.len(),
        "only {spread} of {} tasks have answers that differ in rate",
        by_rate.len()
    );
}

#[test]
fn each_extra_line_in_the_bank_adds_its_own_output() {
    let mut by_recipe: HashMap<(u8, usize), f64> = HashMap::new();
    for seed in 0..2_000u64 {
        let Some(sample) = generate(LessonKind::AssemblerBank, Canvas::square(11), seed) else {
            continue;
        };
        let lines = sample
            .solution
            .cells
            .iter()
            .filter(|c| c.entity == Entity::Assembler)
            .count();
        let recipe = sample
            .solution
            .cells
            .iter()
            .find(|c| c.entity == Entity::Sink)
            .expect("bank always has a sink")
            .item as u8;
        let rate = score(&sample.solution);
        let previous = by_recipe.insert((recipe, lines), rate);
        if let Some(previous) = previous {
            assert!(
                (previous - rate).abs() < 1e-9,
                "{lines} lines of recipe {recipe} delivered {previous} and {rate}"
            );
        }
    }

    for recipe in Item::single_input_craftable() {
        let one = by_recipe[&(recipe as u8, 1)];
        assert!(one > 0.0, "a one-line bank delivers nothing");
        for lines in 2..=BANK_LINES {
            let rate = by_recipe[&(recipe as u8, lines)];
            assert!(
                (rate - one * lines as f64).abs() < 1e-9,
                "{lines} lines delivered {rate}, not {} ({lines}x the one-line {one})",
                one * lines as f64
            );
        }
    }
}

#[test]
fn assembler_chaos_machine_is_determined_by_the_visible_task() {
    for canvas in Canvas::pool(DEFAULT_CANVAS_MIN, DEFAULT_CANVAS_MAX) {
        for seed in 0..4u64 {
            let sample = generate(LessonKind::AssemblerChaos, canvas, seed)
                .expect("chaos task should generate");
            let (task, _) = sample.blank_to_scaffold();
            let source = sample
                .solution
                .cells
                .iter()
                .position(|c| c.entity == Entity::Source)
                .map(|i| (i % sample.solution.width, i / sample.solution.width))
                .unwrap();
            let sink = sample
                .solution
                .cells
                .iter()
                .position(|c| c.entity == Entity::Sink)
                .map(|i| (i % sample.solution.width, i / sample.solution.width))
                .unwrap();
            let actual = sample
                .solution
                .cells
                .iter()
                .position(|c| c.entity == Entity::Assembler)
                .map(|i| (i % sample.solution.width, i / sample.solution.width))
                .unwrap();

            assert_eq!(
                actual,
                canonical_assembler_anchor(&task, source, sink).unwrap(),
                "{canvas:?} seed {seed} teaches a hidden random machine location"
            );
            assert!(
                score(&sample.solution) > 0.0,
                "{canvas:?} seed {seed} routes but delivers nothing"
            );
        }
    }
}

#[test]
fn every_circuit_line_actually_delivers_circuits() {
    let mut built = 0;
    for seed in 0..200u64 {
        let Some(sample) = generate(LessonKind::CircuitLine, Canvas::square(11), seed) else {
            continue;
        };
        built += 1;
        assert!(
            sample.solution.is_consistent(),
            "seed {seed} is unbuildable"
        );
        assert!(
            sample.solution.footprints_are_legal(),
            "seed {seed} overlaps its own machines"
        );
        assert!(
            item_reaches_sink(&sample.solution),
            "seed {seed} does not deliver"
        );
        assert!(
            score(&sample.solution) > 0.0,
            "seed {seed} routes but delivers nothing"
        );
    }
    assert_eq!(built, 200, "the generator failed on some seeds");
}

#[test]
fn the_second_cable_feed_doubles_the_circuit_line_and_the_third_does_not() {
    let mut by_feeds: HashMap<usize, f64> = HashMap::new();
    for seed in 0..200u64 {
        let Some(sample) = generate(LessonKind::CircuitLine, Canvas::square(11), seed) else {
            continue;
        };
        let rate = score(&sample.solution);
        let feeds = cable_feeds(&sample);
        if let Some(previous) = by_feeds.insert(feeds, rate) {
            assert!(
                (previous - rate).abs() < 1e-9,
                "{feeds} feeds delivered {previous} and {rate}"
            );
        }
        assert!(item_reaches_sink(&sample.solution));
    }
    assert_eq!(
        by_feeds.len(),
        CABLE_FEEDS,
        "not every feed count was drawn"
    );

    let (one, two, three) = (by_feeds[&1], by_feeds[&2], by_feeds[&3]);
    assert!(
        (two - one * 2.0).abs() < 1e-9,
        "a second feed took {one} to {two}, not to {}",
        one * 2.0
    );
    assert!(
        (three - two).abs() < 1e-9,
        "a third feed took {two} to {three}; the copper inserter should have capped it"
    );
}

#[test]
fn every_shared_line_actually_delivers() {
    let mut built = 0;
    for seed in 0..200u64 {
        let Some(sample) = generate(LessonKind::SharedLine, Canvas::square(11), seed) else {
            continue;
        };
        built += 1;
        assert!(
            sample.solution.is_consistent(),
            "seed {seed} is unbuildable"
        );
        assert!(
            sample.solution.footprints_are_legal(),
            "seed {seed} overlaps its own machines"
        );
        assert!(
            item_reaches_sink(&sample.solution),
            "seed {seed} does not deliver"
        );
        assert!(
            score(&sample.solution) > 0.0,
            "seed {seed} routes but delivers nothing"
        );
        assert_eq!(
            sample
                .solution
                .cells
                .iter()
                .filter(|c| c.entity == Entity::Source)
                .count(),
            1,
            "seed {seed} has more than the one source that is the whole point"
        );
    }
    assert_eq!(built, 200, "the generator failed on some seeds");
}

#[test]
fn one_source_split_two_ways_delivers_twice_what_one_branch_does() {
    let mut by_recipe: HashMap<(u8, usize), f64> = HashMap::new();
    for seed in 0..2_000u64 {
        let Some(sample) = generate(LessonKind::SharedLine, Canvas::square(11), seed) else {
            continue;
        };
        let branches = sample
            .solution
            .cells
            .iter()
            .filter(|c| c.entity == Entity::Assembler)
            .count();
        let recipe = sample
            .solution
            .cells
            .iter()
            .find(|c| c.entity == Entity::Sink)
            .expect("always has a sink")
            .item as u8;
        let rate = score(&sample.solution);
        if let Some(previous) = by_recipe.insert((recipe, branches), rate) {
            assert!(
                (previous - rate).abs() < 1e-9,
                "{branches} branches of recipe {recipe} delivered {previous} and {rate}"
            );
        }
        let splitters = sample
            .solution
            .cells
            .iter()
            .filter(|c| c.entity == Entity::Splitter)
            .count();
        assert_eq!(
            splitters,
            usize::from(branches > 1),
            "seed {seed} built {branches} branches off {splitters} splitters"
        );
    }

    let recipes: HashSet<u8> = by_recipe.keys().map(|&(r, _)| r).collect();
    assert_eq!(
        recipes.len(),
        Item::single_input_craftable().len(),
        "not every recipe was drawn"
    );
    for recipe in recipes {
        let (Some(&one), Some(&two)) =
            (by_recipe.get(&(recipe, 1)), by_recipe.get(&(recipe, 2)))
        else {
            panic!("recipe {recipe} was never drawn at both branch counts");
        };
        assert!(
            (two - one * 2.0).abs() < 1e-9,
            "recipe {recipe}: splitting the line took {one}/s to {two}/s, not to {}/s",
            one * 2.0
        );
    }
}

fn detour(long: bool) -> Grid {
    let mut g = Grid::new(5, 3);
    g.set(0, 0, anchor(Entity::Source, Item::IronPlate));
    g.set(4, 0, anchor(Entity::Sink, Item::IronPlate));
    if long {
        g.set(1, 0, Cell::belt(Direction::South));
        for x in 1..4 {
            g.set(x, 2, Cell::belt(Direction::East));
        }
        g.set(1, 1, Cell::belt(Direction::South));
        g.set(4, 2, Cell::belt(Direction::North));
        g.set(4, 1, Cell::belt(Direction::North));
    } else {
        for x in 1..4 {
            g.set(x, 0, Cell::belt(Direction::East));
        }
    }
    g
}

fn pick_index(scores: &[f64], counts: &[usize], prefer_compact: bool) -> usize {
    let keys: Vec<u64> = scores.iter().map(|s| s.to_bits()).collect();
    select(&keys, &counts.to_vec(), prefer_compact)
}

#[test]
fn the_long_way_round_and_the_short_way_deliver_the_same() {
    assert_eq!(score(&detour(false)), score(&detour(true)));
    assert!(score(&detour(false)) > 0.0);
    assert!(parts(&detour(true)) > parts(&detour(false)));
}

#[test]
fn an_empty_factory_never_wins_on_being_compact() {
    let empty = Grid::new(5, 3);
    assert_eq!(parts(&empty), 0);
    assert_eq!(score(&empty), 0.0);
    assert!(parts(&empty) < parts(&detour(false)));
    assert!(score(&empty) < score(&detour(false)));

    let scores = [0.0, score(&detour(false))];
    let counts = [parts(&empty), parts(&detour(false))];
    assert_eq!(pick_index(&scores, &counts, true), 1);
}

#[test]
fn a_tie_on_throughput_goes_to_the_factory_with_fewer_parts() {
    let scores = [score(&detour(true)), score(&detour(false))];
    let counts = [parts(&detour(true)), parts(&detour(false))];

    assert_eq!(pick_index(&scores, &counts, true), 1);
    assert_eq!(pick_index(&scores, &counts, false), 0);
}

#[test]
fn compactness_never_outranks_throughput() {
    let scores = [15.0, 0.86];
    let counts = [12, 3];
    assert_eq!(pick_index(&scores, &counts, true), 0);
}
