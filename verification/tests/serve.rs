use diffusion_factorio::serve::http::{
    body_limit, parse_header, parse_request_line, response_head, route, Header, Route, MAX_BODY,
};
use diffusion_factorio::serve::{
    default_candidates, default_steps, frame_at, frames, no_direction, no_item, no_misc, Pin,
    SpecError, TaskSpec, MAX_CANDIDATES, MAX_SIDE, MAX_STEPS,
};
use diffusion_factorio::viewer::grid_to_svg;
use diffusion_factorio::world::{Cell, Direction, Entity, Grid, Item, Misc};

fn pin(x: usize, y: usize, entity: Entity, item: Item) -> Pin {
    Pin {
        x,
        y,
        entity,
        direction: Direction::Nowhere,
        item,
        misc: Misc::Untagged,
    }
}

fn plates_to_gears() -> TaskSpec {
    TaskSpec {
        width: 11,
        height: 7,
        pins: vec![
            pin(0, 3, Entity::Source, Item::IronPlate),
            pin(10, 3, Entity::Sink, Item::IronGear),
        ],
        obstacles: vec![],
        candidates: 4,
        steps: 8,
        seed: 0,
    }
}

#[test]
fn a_spec_masks_everything_it_did_not_pin() {
    let (grid, observed) = plates_to_gears().to_task().expect("valid");
    assert_eq!(observed.iter().filter(|o| **o).count(), 2);
    assert!(observed[grid.idx(0, 3)]);
    assert!(observed[grid.idx(10, 3)]);
    assert_eq!(grid.get(0, 3).entity, Entity::Source);
    assert_eq!(grid.get(10, 3).item, Item::IronGear);
}

#[test]
fn an_obstacle_is_terrain_rather_than_a_given_cell() {
    let mut spec = plates_to_gears();
    spec.obstacles = vec![[5, 3]];
    let (grid, observed) = spec.to_task().expect("valid");
    assert!(grid.is_obstacle(5, 3));
    assert!(!observed[grid.idx(5, 3)]);
}

#[test]
fn a_task_without_ports_is_refused_rather_than_guessed_at() {
    let mut spec = plates_to_gears();
    spec.pins.retain(|p| p.entity != Entity::Sink);
    assert_eq!(spec.to_task(), Err(SpecError::NoSink));

    let mut spec = plates_to_gears();
    spec.pins.clear();
    assert_eq!(spec.to_task(), Err(SpecError::NoSource));
}

#[test]
fn a_grid_too_big_to_denoise_promptly_is_refused() {
    let mut spec = plates_to_gears();
    spec.width = MAX_SIDE + 1;
    assert_eq!(spec.to_task(), Err(SpecError::Size { side: MAX_SIDE + 1 }));
    spec.width = 2;
    assert_eq!(spec.to_task(), Err(SpecError::Size { side: 2 }));
}

#[test]
fn pinning_the_same_cell_twice_is_refused() {
    let mut spec = plates_to_gears();
    spec.pins.push(pin(0, 3, Entity::Sink, Item::IronGear));
    assert_eq!(spec.to_task(), Err(SpecError::Overlap { x: 0, y: 3 }));
}

#[test]
fn pinned_footprints_that_collide_are_refused() {
    let mut spec = plates_to_gears();
    spec.pins.push(Pin {
        x: 3,
        y: 2,
        entity: Entity::Assembler,
        direction: Direction::East,
        item: Item::IronGear,
        misc: Misc::Untagged,
    });
    spec.pins.push(Pin {
        x: 4,
        y: 2,
        entity: Entity::Assembler,
        direction: Direction::East,
        item: Item::IronGear,
        misc: Misc::Untagged,
    });
    assert_eq!(spec.to_task(), Err(SpecError::Unbuildable));
}

#[test]
fn a_pin_lands_where_it_was_painted_on_a_non_square_grid() {
    let spec = TaskSpec {
        width: 13,
        height: 7,
        pins: vec![pin(11, 1, Entity::Sink, Item::IronGear)],
        ..plates_to_gears()
    };
    let (grid, _) = TaskSpec {
        pins: {
            let mut p = spec.pins.clone();
            p.push(pin(0, 5, Entity::Source, Item::IronPlate));
            p
        },
        ..spec
    }
    .to_task()
    .expect("valid");
    assert_eq!(grid.get(11, 1).entity, Entity::Sink);
    assert_eq!(grid.get(0, 5).entity, Entity::Source);
}

#[test]
fn a_frame_holds_exactly_the_cells_committed_by_that_round() {
    let mut grid = Grid::new(5, 1);
    grid.set(
        0,
        0,
        Cell {
            entity: Entity::Source,
            item: Item::IronPlate,
            ..Default::default()
        },
    );
    grid.set(1, 0, Cell::belt(Direction::East));
    grid.set(2, 0, Cell::belt(Direction::East));
    grid.set_obstacle(3, 0, true);
    grid.set(
        4,
        0,
        Cell {
            entity: Entity::Sink,
            item: Item::IronPlate,
            ..Default::default()
        },
    );
    let reveal = vec![0, 1, 2, 0, 0];

    let f0 = frame_at(&grid, &reveal, 0);
    assert_eq!(f0.get(0, 0).entity, Entity::Source);
    assert_eq!(f0.get(4, 0).entity, Entity::Sink);
    assert!(
        f0.get(1, 0).is_empty(),
        "belt was not committed until round 1"
    );
    assert!(
        f0.is_obstacle(3, 0),
        "terrain is there from the first frame"
    );

    let f1 = frame_at(&grid, &reveal, 1);
    assert_eq!(f1.get(1, 0).entity, Entity::TransportBelt);
    assert!(f1.get(2, 0).is_empty());

    assert_eq!(frame_at(&grid, &reveal, 2).cells, grid.cells);
}

#[test]
fn there_is_one_frame_per_round_plus_the_conditioning() {
    let mut grid = Grid::new(3, 1);
    grid.set(0, 0, Cell::belt(Direction::East));
    let svgs = frames(&grid, &[0, 3, 1]);
    assert_eq!(svgs.len(), 4, "rounds 0..=3");
    assert!(svgs[0].starts_with("<svg"));
}

#[test]
fn a_pin_needs_only_a_position_and_an_entity() {
    let bare = |x: usize, y: usize, entity: Entity, item: Item| Pin {
        x,
        y,
        entity,
        direction: no_direction(),
        item,
        misc: no_misc(),
    };
    let spec = TaskSpec {
        width: 11,
        height: 7,
        pins: vec![
            bare(0, 3, Entity::Source, Item::IronPlate),
            bare(10, 3, Entity::Sink, Item::IronGear),
        ],
        obstacles: vec![],
        candidates: default_candidates(),
        steps: default_steps(),
        seed: 0,
    };
    assert_eq!(spec.candidates, 8);
    assert_eq!(spec.steps, 12);
    assert_eq!(spec.pins[0].direction, Direction::Nowhere);
    assert_eq!(spec.pins[0].misc, Misc::Untagged);
    assert_eq!(no_item(), Item::Nothing);
    spec.to_task().expect("valid");
}

#[test]
fn a_pin_or_an_obstacle_off_the_grid_is_refused() {
    let mut spec = plates_to_gears();
    spec.obstacles = vec![[2, 2], [11, 0]];
    assert_eq!(
        spec.to_task(),
        Err(SpecError::OutOfBounds { x: 11, y: 0 })
    );

    let mut spec = plates_to_gears();
    spec.pins.push(pin(3, 7, Entity::Sink, Item::IronGear));
    assert_eq!(spec.to_task(), Err(SpecError::OutOfBounds { x: 3, y: 7 }));
}

#[test]
fn the_first_reason_to_refuse_a_task_is_the_one_given() {
    let mut spec = plates_to_gears();
    spec.height = 40;
    spec.width = 3;
    spec.pins.clear();
    assert_eq!(spec.to_task(), Err(SpecError::Size { side: 3 }));
    spec.width = 11;
    assert_eq!(spec.to_task(), Err(SpecError::Size { side: 40 }));
}

#[test]
fn every_refusal_has_its_words() {
    assert_eq!(
        SpecError::Size { side: 33 }.message(),
        "grid sides must be 5..=32 tiles, got 33"
    );
    assert_eq!(
        SpecError::OutOfBounds { x: 11, y: 0 }.message(),
        "(11, 0) is outside the grid"
    );
    assert_eq!(
        SpecError::Overlap { x: 0, y: 3 }.message(),
        "(0, 3) is pinned twice"
    );
    assert_eq!(
        SpecError::NoSource.message(),
        "pin at least one Source: the model needs an input"
    );
    assert_eq!(
        SpecError::NoSink.message(),
        "pin at least one Sink: the model needs somewhere to deliver"
    );
    assert_eq!(
        SpecError::Unbuildable.message(),
        "the pinned cells overlap each other's footprints, so no legal factory contains them"
    );
}

#[test]
fn a_task_cannot_ask_for_more_than_the_limits() {
    let mut spec = plates_to_gears();
    spec.candidates = 0;
    spec.steps = 0;
    assert_eq!((spec.draws(), spec.rounds()), (1, 1));
    spec.candidates = 1000;
    spec.steps = 1000;
    assert_eq!((spec.draws(), spec.rounds()), (MAX_CANDIDATES, MAX_STEPS));
    spec.candidates = 5;
    spec.steps = 7;
    assert_eq!((spec.draws(), spec.rounds()), (5, 7));
}

#[test]
fn the_last_frame_shows_the_finished_factory() {
    let mut grid = Grid::new(3, 1);
    grid.set(0, 0, Cell::belt(Direction::East));
    grid.set(1, 0, Cell::belt(Direction::East));
    let svgs = frames(&grid, &[0, 2, 1]);
    assert_eq!(svgs.len(), 3);
    assert_eq!(svgs[2], grid_to_svg(&grid));
    assert_ne!(svgs[1], svgs[2]);
}

#[test]
fn a_request_line_is_its_first_two_words() {
    assert_eq!(
        parse_request_line("POST /api/design HTTP/1.1\r\n"),
        Some(("POST".to_string(), "/api/design".to_string()))
    );
    assert_eq!(
        parse_request_line("  GET\t/  "),
        Some(("GET".to_string(), "/".to_string()))
    );
    assert_eq!(parse_request_line("GET\r\n"), None);
    assert_eq!(parse_request_line(" \u{2003}\r\n"), None);
}

#[test]
fn the_length_of_a_body_is_read_in_any_case() {
    assert_eq!(parse_header("Content-Length: 42\r\n"), Header::Length(42));
    assert_eq!(parse_header("CONTENT-LENGTH:+7"), Header::Length(7));
    assert_eq!(parse_header("content-length: 4x"), Header::Length(0));
    assert_eq!(parse_header("content-length:"), Header::Length(0));
    assert_eq!(
        parse_header("content-length: 99999999999999999999999999"),
        Header::Length(0)
    );
    assert_eq!(parse_header("Content-Type: text/html\r\n"), Header::Other);
    assert_eq!(parse_header("Content-Length"), Header::Other);
    assert_eq!(parse_header("\r\n"), Header::End);
    assert_eq!(body_limit(10), 10);
    assert_eq!(body_limit(MAX_BODY + 5), MAX_BODY);
}

#[test]
fn a_request_goes_where_its_method_and_path_say() {
    assert_eq!(route("GET", "/", 0), Route::Page);
    assert_eq!(route("POST", "/api/design", 10), Route::Design);
    assert_eq!(route("POST", "/api/design", MAX_BODY), Route::TooLarge);
    assert_eq!(route("GET", "/api/design", 10), Route::NotFound);
    assert_eq!(route("POST", "/", 10), Route::NotFound);
}

#[test]
fn the_head_of_a_response_names_its_length() {
    assert_eq!(
        response_head("200 OK", "application/json", 120),
        "HTTP/1.1 200 OK\r\nContent-Type: application/json\r\nContent-Length: 120\r\n\
         Cache-Control: no-store\r\nConnection: close\r\n\r\n"
    );
}

#[test]
fn words_end_at_every_kind_of_white_space() {
    let mut separators = Vec::new();
    for code in 0..=0x10FFFF {
        if let Some(c) = char::from_u32(code) {
            if parse_request_line(&format!("a{c}b")).is_some() {
                separators.push(code);
            }
        }
    }
    let mut expected: Vec<u32> = (0x9..=0xd).collect();
    expected.extend([0x20, 0x85, 0xa0, 0x1680]);
    expected.extend(0x2000..=0x200a);
    expected.extend([0x2028, 0x2029, 0x202f, 0x205f, 0x3000]);
    assert_eq!(separators, expected);
}
