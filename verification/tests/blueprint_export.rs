use base64::Engine;
use diffusion_factorio::blueprint::{
    blueprint_string, encode_payload, grid_to_blueprint, BlueprintEntity, BlueprintEnvelope, Filter,
    InconsistentCell, FACTORIO_2_VERSION,
};
use diffusion_factorio::factory_gen::{generate, Canvas, LessonKind};
use diffusion_factorio::textual::render;
use diffusion_factorio::world::{Cell, Direction, Entity, Grid, Item, Misc};
use flate2::read::ZlibDecoder;
use serde_json::Value;
use std::io::Read;

fn object(fields: Vec<(&str, Value)>) -> Value {
    let mut map = serde_json::Map::new();
    for (name, value) in fields {
        map.insert(name.to_string(), value);
    }
    Value::Object(map)
}

fn centre(e: &BlueprintEntity) -> (f64, f64) {
    (e.position.x as f64 / 2.0, e.position.y as f64 / 2.0)
}

fn filter_json(f: &Filter) -> Value {
    object(vec![
        ("index", Value::from(f.index)),
        ("name", Value::from(f.name.as_str())),
    ])
}

fn entity_json(e: &BlueprintEntity) -> Value {
    let (x, y) = centre(e);
    let mut fields = vec![
        ("entity_number", Value::from(e.entity_number)),
        ("name", Value::from(e.name.as_str())),
        (
            "position",
            object(vec![("x", Value::from(x)), ("y", Value::from(y))]),
        ),
    ];
    if let Some(filters) = &e.control_behavior {
        fields.push(("filters", filters.iter().map(filter_json).collect()));
    }
    object(fields)
}

fn blueprint_json(envelope: &BlueprintEnvelope) -> String {
    let b = &envelope.blueprint;
    let icons: Vec<Value> = b
        .icons
        .iter()
        .map(|i| {
            let signal = object(vec![
                ("name", Value::from(i.signal.name.as_str())),
                ("type", Value::from(i.signal.kind.as_str())),
            ]);
            object(vec![("signal", signal), ("index", Value::from(i.index))])
        })
        .collect();
    let blueprint = object(vec![
        ("item", Value::from(b.item.as_str())),
        ("label", Value::from(b.label.as_str())),
        ("icons", Value::from(icons)),
        ("entities", b.entities.iter().map(entity_json).collect()),
        ("version", Value::from(b.version)),
    ]);
    serde_json::to_string(&object(vec![("blueprint", blueprint)])).unwrap()
}

fn decoded(exchange: &str) -> String {
    let compressed = base64::engine::general_purpose::STANDARD
        .decode(&exchange[1..])
        .unwrap();
    let mut decoder = ZlibDecoder::new(compressed.as_slice());
    let mut text = String::new();
    decoder.read_to_string(&mut text).unwrap();
    text
}

fn example_grid() -> Grid {
    let mut grid = Grid::new(5, 1);
    grid.set(
        0,
        0,
        Cell {
            entity: Entity::Source,
            item: Item::IronPlate,
            ..Default::default()
        },
    );
    grid.set(1, 0, Cell::belt(Direction::East));
    grid.set(
        2,
        0,
        Cell {
            entity: Entity::UndergroundBelt,
            direction: Direction::East,
            misc: Misc::UndergroundDown,
            ..Default::default()
        },
    );
    grid.set(
        4,
        0,
        Cell {
            entity: Entity::Sink,
            item: Item::IronPlate,
            ..Default::default()
        },
    );
    grid
}

#[test]
fn grid_maps_to_factorio_entities_and_directions() {
    let blueprint = grid_to_blueprint(&example_grid(), "model reconstruction").unwrap();
    let entities = &blueprint.blueprint.entities;

    assert_eq!(entities.len(), 4);
    assert_eq!(entities[0].name, "constant-combinator");
    assert_eq!(entities[1].name, "transport-belt");
    assert_eq!(entities[1].direction, Some(4));
    assert_eq!(entities[2].name, "underground-belt");
    assert_eq!(entities[2].belt_type.as_deref(), Some("input"));
    assert_eq!(entities[3].name, "constant-combinator");
    assert_eq!(entities[0].entity_number, 1);
    assert_eq!(entities[3].entity_number, 4);
}

#[test]
fn blueprint_string_is_factorio_zlib_json_format() {
    let blueprint = grid_to_blueprint(&example_grid(), "round trip").unwrap();
    let json = blueprint_json(&blueprint);
    let encoded = blueprint_string(&json).unwrap();

    assert!(encoded.starts_with('0'));
    let decoded = decoded(&encoded);

    assert_eq!(decoded, json);
    let value: Value = serde_json::from_str(&decoded).unwrap();
    assert_eq!(value["blueprint"]["item"], "blueprint");
    assert_eq!(value["blueprint"]["label"], "round trip");
}

#[test]
fn export_carries_every_schema_required_property() {
    let blueprint = grid_to_blueprint(&example_grid(), "schema").unwrap();
    let value: Value =
        serde_json::from_str(&blueprint_json(&blueprint)).unwrap();
    let bp = &value["blueprint"];

    for required in ["version", "item", "icons"] {
        assert!(
            bp.get(required).is_some(),
            "blueprint must have required property '{required}'"
        );
    }
    assert!(
        !bp["icons"].as_array().unwrap().is_empty(),
        "an empty icons array is as invalid as a missing one"
    );
}

#[test]
fn icons_describe_the_factory_and_are_indexed_from_one() {
    let blueprint = grid_to_blueprint(&example_grid(), "icons").unwrap();
    let icons = &blueprint.blueprint.icons;

    assert_eq!(icons.len(), 1);
    assert_eq!(icons[0].signal.name, "iron-plate");
    assert_eq!(icons[0].signal.kind, "item");
    assert_eq!(icons[0].index, 1);
}

#[test]
fn icons_lead_with_the_product_then_the_input() {
    let mut grid = Grid::new(3, 1);
    grid.set(
        0,
        0,
        Cell {
            entity: Entity::Source,
            item: Item::CopperPlate,
            ..Default::default()
        },
    );
    grid.set(1, 0, Cell::belt(Direction::East));
    grid.set(
        2,
        0,
        Cell {
            entity: Entity::Sink,
            item: Item::CopperCable,
            ..Default::default()
        },
    );

    let blueprint = grid_to_blueprint(&grid, "product first").unwrap();
    let names: Vec<&str> = blueprint
        .blueprint
        .icons
        .iter()
        .map(|i| i.signal.name.as_str())
        .collect();
    assert_eq!(names, vec!["copper-cable", "copper-plate"]);
    assert_eq!(blueprint.blueprint.icons[1].index, 2);
}

#[test]
fn untyped_factory_still_gets_a_valid_icon() {
    let mut grid = Grid::new(2, 1);
    grid.set(0, 0, Cell::belt(Direction::East));
    grid.set(1, 0, Cell::belt(Direction::East));

    let blueprint = grid_to_blueprint(&grid, "no items").unwrap();
    assert_eq!(blueprint.blueprint.icons.len(), 1);
    assert_eq!(blueprint.blueprint.icons[0].signal.name, "transport-belt");
}

#[test]
fn icons_are_capped_at_four() {
    let mut grid = Grid::new(6, 2);
    for (x, item) in [
        Item::IronPlate,
        Item::CopperPlate,
        Item::IronGear,
        Item::CopperCable,
        Item::GreenCircuit,
    ]
    .into_iter()
    .enumerate()
    {
        grid.set(
            x,
            0,
            Cell {
                entity: Entity::Sink,
                item,
                ..Default::default()
            },
        );
    }

    let icons = grid_to_blueprint(&grid, "many items")
        .unwrap()
        .blueprint
        .icons;
    assert_eq!(icons.len(), 4);
    assert_eq!(
        icons.iter().map(|i| i.index).collect::<Vec<_>>(),
        vec![1, 2, 3, 4]
    );
}

fn prototype_size(name: &str, direction: Option<u8>) -> (f64, f64) {
    let (w, h) = match name {
        "assembling-machine-1" => (3.0, 3.0),
        "splitter" => (2.0, 1.0),
        "transport-belt" | "underground-belt" | "inserter" | "constant-combinator" => (1.0, 1.0),
        other => panic!("unknown prototype {other}: give it a size before exporting it"),
    };
    match direction {
        Some(4) | Some(12) => (h, w),
        _ => (w, h),
    }
}

fn collisions(grid: &Grid) -> Vec<(String, String)> {
    let bp = grid_to_blueprint(grid, "overlap check").unwrap();
    let boxes: Vec<_> = bp
        .blueprint
        .entities
        .iter()
        .map(|e| {
            let (w, h) = prototype_size(&e.name, e.direction);
            let (x, y) = centre(e);
            (
                e.name.clone(),
                x - w / 2.0,
                y - h / 2.0,
                x + w / 2.0,
                y + h / 2.0,
            )
        })
        .collect();

    let mut found = Vec::new();
    for (i, a) in boxes.iter().enumerate() {
        for b in &boxes[i + 1..] {
            if a.1 < b.3 && b.1 < a.3 && a.2 < b.4 && b.2 < a.4 {
                found.push((a.0.clone(), b.0.clone()));
            }
        }
    }
    found
}

#[test]
fn the_old_one_cell_assembler_layout_would_be_rejected_by_factorio() {
    let mut grid = Grid::new(5, 1);
    grid.set(
        0,
        0,
        Cell {
            entity: Entity::Source,
            item: Item::IronPlate,
            ..Default::default()
        },
    );
    for x in [1, 3] {
        grid.set(
            x,
            0,
            Cell {
                entity: Entity::Inserter,
                direction: Direction::East,
                ..Default::default()
            },
        );
    }
    grid.set(
        2,
        0,
        Cell {
            entity: Entity::Assembler,
            direction: Direction::East,
            item: Item::IronGear,
            ..Default::default()
        },
    );
    grid.set(
        4,
        0,
        Cell {
            entity: Entity::Sink,
            item: Item::IronGear,
            ..Default::default()
        },
    );

    assert!(
        !grid.is_consistent(),
        "the world model must now reject what it used to generate"
    );
    assert!(
        !collisions(&grid).is_empty(),
        "and the export must be seen to collide, or the sweep below proves nothing"
    );
}

#[test]
fn no_generated_factory_exports_overlapping_entities() {
    for kind in LessonKind::all() {
        let mut built = 0;
        for seed in 0..64 {
            let Some(sample) = generate(kind, Canvas::square(11), seed) else {
                continue;
            };
            built += 1;
            let found = collisions(&sample.solution);
            assert!(
                found.is_empty(),
                "{} seed {seed}: {found:?} overlap, so Factorio would reject \
                 this blueprint:\n{}",
                kind.name(),
                render(&sample.solution),
            );
        }
        assert!(built > 0, "{} generated no factories at all", kind.name());
    }
}

#[test]
fn an_entity_is_centred_on_the_tiles_it_covers() {
    let mut grid = Grid::new(4, 4);
    grid.set(
        0,
        0,
        Cell {
            entity: Entity::Assembler,
            direction: Direction::East,
            item: Item::IronGear,
            ..Default::default()
        },
    );
    let bp = grid_to_blueprint(&grid, "centring").unwrap();
    let machine = &bp.blueprint.entities[0];
    assert_eq!(machine.name, "assembling-machine-1");
    assert_eq!(centre(machine), (1.5, 1.5));
}

#[test]
fn a_splitter_turns_its_footprint_when_it_turns() {
    for (direction, middle) in [
        (Direction::North, (1.0, 0.5)),
        (Direction::East, (0.5, 1.0)),
    ] {
        let mut grid = Grid::new(4, 4);
        grid.set(
            0,
            0,
            Cell {
                entity: Entity::Splitter,
                direction,
                ..Default::default()
            },
        );
        let bp = grid_to_blueprint(&grid, "splitter centring").unwrap();
        let splitter = &bp.blueprint.entities[0];
        assert_eq!(splitter.name, "splitter");
        assert_eq!(
            centre(splitter),
            middle,
            "a splitter facing {direction:?} is centred wrong"
        );
    }
}

#[test]
fn an_inserter_points_at_the_tile_it_drops_into() {
    let mut grid = Grid::new(3, 1);
    grid.set(
        0,
        0,
        Cell {
            entity: Entity::Source,
            item: Item::IronPlate,
            ..Default::default()
        },
    );
    grid.set(
        1,
        0,
        Cell {
            entity: Entity::Inserter,
            direction: Direction::East,
            ..Default::default()
        },
    );
    grid.set(
        2,
        0,
        Cell {
            entity: Entity::Sink,
            item: Item::IronPlate,
            ..Default::default()
        },
    );

    assert!(
        diffusion_factorio::sim::item_reaches_sink(&grid),
        "our own model must agree the inserter feeds the sink to its east"
    );

    let bp = grid_to_blueprint(&grid, "inserter facing").unwrap();
    let inserter = bp
        .blueprint
        .entities
        .iter()
        .find(|e| e.name == "inserter")
        .expect("the inserter must be exported");
    assert_eq!(
        inserter.direction,
        Some(4),
        "an east-dropping inserter must export as direction 4 (east), unflipped"
    );
}

#[test]
fn a_marker_carries_its_role_and_its_item() {
    let blueprint = grid_to_blueprint(&example_grid(), "markers").unwrap();
    let source = &blueprint.blueprint.entities[0];
    assert_eq!(source.direction, Some(4));
    let tags = source.tags.as_ref().unwrap();
    assert_eq!(tags.role, "source");
    assert_eq!(tags.item.as_deref(), Some("iron-plate"));
    let filters = source.control_behavior.as_ref().unwrap();
    assert_eq!(filters.len(), 2);
    assert_eq!((filters[0].index, filters[0].name.as_str()), (1, "iron-plate"));
    assert_eq!(filters[0].kind, None);
    assert_eq!((filters[1].index, filters[1].name.as_str()), (2, "signal-output"));
    assert_eq!(filters[1].kind.as_deref(), Some("virtual"));

    let sink = &blueprint.blueprint.entities[3];
    assert_eq!(sink.tags.as_ref().unwrap().role, "sink");
    let filters = sink.control_behavior.as_ref().unwrap();
    assert_eq!(filters[1].name, "signal-input");
    assert_eq!((filters[1].quality.as_str(), filters[1].comparator.as_str()), ("normal", "="));
    assert_eq!(filters[1].count, 1);

    assert_eq!(blueprint.blueprint.version, FACTORIO_2_VERSION);
    assert_eq!(blueprint.blueprint.entities[1].tags, None);
    assert_eq!(blueprint.blueprint.entities[1].control_behavior, None);
}

#[test]
fn the_first_inconsistent_cell_is_the_one_refused() {
    let mut grid = Grid::new(3, 2);
    grid.set(0, 0, Cell::belt(Direction::East));
    let bad = Cell {
        entity: Entity::TransportBelt,
        ..Default::default()
    };
    grid.set(2, 0, bad);
    grid.set(0, 1, bad);
    let error = grid_to_blueprint(&grid, "refused").unwrap_err();
    assert_eq!(error, InconsistentCell { x: 2, y: 0, cell: bad });
    assert_eq!(
        error.message(),
        "cannot export inconsistent cell at (2, 0): Cell { entity: TransportBelt, direction: \
         None, item: None, misc: None }"
    );
}

#[test]
fn a_machine_is_exported_with_its_recipe() {
    let mut grid = Grid::new(4, 4);
    grid.set(
        0,
        0,
        Cell {
            entity: Entity::Assembler,
            direction: Direction::West,
            item: Item::GreenCircuit,
            ..Default::default()
        },
    );
    let blueprint = grid_to_blueprint(&grid, "machine").unwrap();
    let machine = &blueprint.blueprint.entities[0];
    assert_eq!(machine.recipe.as_deref(), Some("electronic-circuit"));
    assert_eq!(machine.direction, Some(12));
}

#[test]
fn an_exchange_string_is_a_zero_and_base64() {
    assert_eq!(encode_payload(&vec![104, 105]), "0aGk=");
    assert_eq!(decoded(&blueprint_string("{}").unwrap()), "{}");
    assert_ne!(blueprint_string("{}").unwrap(), "{}");
}

#[test]
fn every_text_has_an_exchange_string_of_whole_groups() {
    for n in [0, 1, 2, 3, 1_000, 200_000] {
        let text: String = (0..n)
            .map(|i: u32| char::from(33 + (i.wrapping_mul(2_654_435_761) >> 16) as u8 % 90))
            .collect();
        let exchange = blueprint_string(&text).unwrap();
        assert_eq!(exchange.len() % 4, 1);
        assert_eq!(decoded(&exchange), text);
    }
    for (len, want) in [(0, 1), (1, 5), (2, 5), (3, 5), (4, 9)] {
        assert_eq!(encode_payload(&vec![0; len]).len(), want);
    }
}
