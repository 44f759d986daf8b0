//! A factory drawn as SVG: one rectangle for every entity, across its whole footprint.

use vstd::prelude::*;
use crate::text;
use crate::world::grid;
use crate::world::grid::GridView;
use crate::world::{Cell, Direction, Entity, Grid, Item, Misc};

verus! {

/// Side of one tile, in SVG units.
pub const TILE: usize = 22;

/// Whether every coordinate of the drawing of a grid fits a machine word.
pub open spec fn drawable(g: GridView) -> bool {
    (g.width + 1) * TILE <= usize::MAX && (g.height + 1) * TILE <= usize::MAX
}

/// The fill colour of an entity.
pub open spec fn fill_text(entity: Entity) -> Seq<char> {
    match entity {
        Entity::Empty => "#1b1f24"@,
        Entity::Source => "#2f7d4f"@,
        Entity::Sink => "#a4373a"@,
        Entity::TransportBelt => "#b8912f"@,
        Entity::UndergroundBelt => "#7d5f1f"@,
        Entity::Splitter => "#c2a04a"@,
        Entity::Inserter => "#3f6ea8"@,
        Entity::Assembler => "#2f7f86"@,
    }
}

/// The short tag of an item; nothing is tagged with nothing.
pub open spec fn tag_text(item: Item) -> Seq<char> {
    match item {
        Item::Nothing => ""@,
        Item::IronPlate => "Fe"@,
        Item::CopperPlate => "Cu"@,
        Item::IronGear => "gear"@,
        Item::CopperCable => "wire"@,
        Item::GreenCircuit => "chip"@,
    }
}

/// The arrow of a facing.
pub open spec fn arrow_text(direction: Direction) -> Option<Seq<char>> {
    match direction {
        Direction::North => Some("▲"@),
        Direction::East => Some("▶"@),
        Direction::South => Some("▼"@),
        Direction::West => Some("◀"@),
        Direction::Nowhere => None,
    }
}

/// The name of an entity.
pub open spec fn entity_text(entity: Entity) -> Seq<char> {
    match entity {
        Entity::Empty => "Empty"@,
        Entity::Source => "Source"@,
        Entity::Sink => "Sink"@,
        Entity::TransportBelt => "TransportBelt"@,
        Entity::UndergroundBelt => "UndergroundBelt"@,
        Entity::Splitter => "Splitter"@,
        Entity::Inserter => "Inserter"@,
        Entity::Assembler => "Assembler"@,
    }
}

/// The name of a facing.
pub open spec fn direction_text(direction: Direction) -> Seq<char> {
    match direction {
        Direction::North => "North"@,
        Direction::East => "East"@,
        Direction::South => "South"@,
        Direction::West => "West"@,
        Direction::Nowhere => "None"@,
    }
}

/// The name of an item.
pub open spec fn item_text(item: Item) -> Seq<char> {
    match item {
        Item::Nothing => "None"@,
        Item::IronPlate => "IronPlate"@,
        Item::CopperPlate => "CopperPlate"@,
        Item::IronGear => "IronGear"@,
        Item::CopperCable => "CopperCable"@,
        Item::GreenCircuit => "GreenCircuit"@,
    }
}

/// Which end of a tunnel a cell is.
pub open spec fn end_text(misc: Misc) -> Seq<char> {
    match misc {
        Misc::UndergroundDown => ", entrance"@,
        Misc::UndergroundUp => ", exit"@,
        Misc::Untagged => ""@,
    }
}

/// The words that follow the name of an entity: the way it faces, what it carries and
/// which end of a tunnel it is.
pub open spec fn trait_text(cell: Cell) -> Seq<char> {
    let facing = match arrow_text(cell.direction) {
        Some(a) => " facing "@ + direction_text(cell.direction) + " "@ + a,
        None => ""@,
    };
    let carrying = if cell.item is Nothing {
        ""@
    } else {
        ", "@ + item_text(cell.item)
    };
    facing + carrying + end_text(cell.misc)
}

/// What a tile is, in words.
pub open spec fn description(g: GridView, x: int, y: int) -> Seq<char> {
    let here = "("@ + text::decimal(x as nat) + ", "@ + text::decimal(y as nat);
    let cell = g.at(x, y);
    if g.blocked(x, y) {
        here + ") obstacle"@
    } else if !(cell.entity is Empty) {
        here + ") "@ + entity_text(cell.entity) + trait_text(cell)
    } else {
        match g.anchor_of(x, y) {
            Some(a) => here + ") covered by the "@ + entity_text(g.at(a.0, a.1).entity) + " at ("@
                + text::decimal(a.0 as nat) + ", "@ + text::decimal(a.1 as nat) + ")"@,
            None => here + ") empty"@,
        }
    }
}

/// The mark in the middle of an entity: which end of a tunnel it is, or the arrow of
/// the way it faces.
pub open spec fn mark_text(cell: Cell) -> Option<Seq<char>> {
    if cell.entity is UndergroundBelt {
        match cell.misc {
            Misc::UndergroundDown => Some("⤓"@),
            Misc::UndergroundUp => Some("⤒"@),
            Misc::Untagged => Some("?"@),
        }
    } else {
        arrow_text(cell.direction)
    }
}

/// A label centred on a point.
pub open spec fn label_svg(
    x: nat,
    y: nat,
    colour: Seq<char>,
    size: Seq<char>,
    words: Seq<char>,
) -> Seq<char> {
    "<text x=\""@ + text::decimal(x) + "\" y=\""@ + text::decimal(y) + "\" fill=\""@ + colour
        + "\" font-size=\""@ + size
        + "\" text-anchor=\"middle\" dominant-baseline=\"central\">"@ + words + "</text>"@
}

/// The rectangle of an entity, inset by its outline.
pub open spec fn box_svg(x: nat, y: nat, w: nat, h: nat, colour: Seq<char>) -> Seq<char> {
    "<rect x=\""@ + text::decimal(x + 1) + "\" y=\""@ + text::decimal(y + 1) + "\" width=\""@
        + text::decimal((w - 2) as nat) + "\" height=\""@ + text::decimal((h - 2) as nat)
        + "\" rx=\"3\" fill=\""@ + colour + "\" stroke=\"#0d1013\" stroke-width=\"1.5\"/>"@
}

/// One entity, drawn at its anchor across its whole footprint. The tag of what it
/// carries stands below the mark where the entity is more than a tile tall.
pub open spec fn drawn_entity(g: GridView, x: int, y: int) -> Seq<char> {
    let cell = g.at(x, y);
    let (w, h) = cell.entity.extent(cell.direction);
    let cx = (x * TILE + w * TILE / 2) as nat;
    let cy = (y * TILE + h * TILE / 2) as nat;
    let mark = match mark_text(cell) {
        Some(m) => label_svg(cx, cy, "#f2f5f7"@, "11"@, m),
        None => ""@,
    };
    let tag_y = if h > 1 {
        cy + TILE as nat / 2
    } else {
        cy
    };
    let tag = if cell.item is Nothing {
        ""@
    } else {
        label_svg(cx, tag_y, "#e8edf2"@, "8"@, tag_text(cell.item))
    };
    "<g><title>"@ + description(g, x, y) + "</title>"@ + box_svg(
        (x * TILE) as nat,
        (y * TILE) as nat,
        (w * TILE) as nat,
        (h * TILE) as nat,
        fill_text(cell.entity),
    ) + mark + tag + "</g>"@
}

/// What is drawn for an entity anchored at a tile; nothing where none is.
pub open spec fn drawn_tile(g: GridView, x: int, y: int) -> Seq<char> {
    if g.at(x, y).entity is Empty {
        seq![]
    } else {
        drawn_entity(g, x, y)
    }
}

/// What is drawn for a blocked tile.
pub open spec fn drawn_obstacle(g: GridView, x: int, y: int) -> Seq<char> {
    if g.blocked(x, y) {
        "<rect x=\""@ + text::decimal((x * TILE) as nat) + "\" y=\""@ + text::decimal(
            (y * TILE) as nat,
        ) + "\" width=\"22\" height=\"22\" fill=\"#3a3f45\"/><title>"@ + description(g, x, y)
            + "</title>"@
    } else {
        seq![]
    }
}

/// One line of the lattice.
pub open spec fn line_svg(x1: nat, y1: nat, x2: nat, y2: nat) -> Seq<char> {
    "<line x1=\""@ + text::decimal(x1) + "\" y1=\""@ + text::decimal(y1) + "\" x2=\""@
        + text::decimal(x2) + "\" y2=\""@ + text::decimal(y2)
        + "\" stroke=\"#2b3138\" stroke-width=\"1\"/>"@
}

/// The first `k` upright lines of the lattice, each `h` long.
pub open spec fn upright_lines(h: nat, k: nat) -> Seq<char>
    decreases k,
{
    if k == 0 {
        seq![]
    } else {
        let x = ((k - 1) * TILE) as nat;
        upright_lines(h, (k - 1) as nat) + line_svg(x, 0, x, h)
    }
}

/// The first `k` level lines of the lattice, each `w` long.
pub open spec fn level_lines(w: nat, k: nat) -> Seq<char>
    decreases k,
{
    if k == 0 {
        seq![]
    } else {
        let y = ((k - 1) * TILE) as nat;
        level_lines(w, (k - 1) as nat) + line_svg(0, y, w, y)
    }
}

/// The opening tag and the ground.
pub open spec fn ground_svg(w: nat, h: nat) -> Seq<char> {
    "<svg xmlns=\"http://www.w3.org/2000/svg\" viewBox=\"0 0 "@ + text::decimal(w) + " "@
        + text::decimal(h) + "\" class=\"factory\" role=\"img\"><rect width=\""@ + text::decimal(w)
        + "\" height=\""@ + text::decimal(h) + "\" fill=\"#1b1f24\"/>"@
}

/// The whole drawing: the ground, the lattice on it, the obstacles, and every entity
/// once, at its anchor, in row order.
pub open spec fn drawing(g: GridView) -> Seq<char> {
    let w = g.width * TILE as nat;
    let h = g.height * TILE as nat;
    ground_svg(w, h) + upright_lines(h, g.width + 1) + level_lines(w, g.height + 1)
        + text::along_rows(|x: int, y: int| drawn_obstacle(g, x, y), g.width, g.height)
        + text::along_rows(|x: int, y: int| drawn_tile(g, x, y), g.width, g.height) + "</svg>"@
}

/// The fill colour of an entity.
pub fn fill(entity: Entity) -> (r: &'static str)
    ensures
        r@ == fill_text(entity),
{
    match entity {
        Entity::Empty => "#1b1f24",
        Entity::Source => "#2f7d4f",
        Entity::Sink => "#a4373a",
        Entity::TransportBelt => "#b8912f",
        Entity::UndergroundBelt => "#7d5f1f",
        Entity::Splitter => "#c2a04a",
        Entity::Inserter => "#3f6ea8",
        Entity::Assembler => "#2f7f86",
    }
}

/// Short tag drawn on an entity that carries an item, so a source, a sink and a
/// machine's recipe are told apart without a legend.
pub fn item_tag(item: Item) -> (r: &'static str)
    ensures
        r@ == tag_text(item),
{
    match item {
        Item::Nothing => "",
        Item::IronPlate => "Fe",
        Item::CopperPlate => "Cu",
        Item::IronGear => "gear",
        Item::CopperCable => "wire",
        Item::GreenCircuit => "chip",
    }
}

/// The arrow glyph for a facing, or `None` for a cell that faces nowhere.
pub fn arrow(direction: Direction) -> (r: Option<&'static str>)
    ensures
        r is Some <==> arrow_text(direction) is Some,
        r is Some ==> r->0@ == arrow_text(direction)->0,
{
    match direction {
        Direction::North => Some("▲"),
        Direction::East => Some("▶"),
        Direction::South => Some("▼"),
        Direction::West => Some("◀"),
        Direction::Nowhere => None,
    }
}

/// The name of an entity.
pub fn entity_word(entity: Entity) -> (r: &'static str)
    ensures
        r@ == entity_text(entity),
{
    match entity {
        Entity::Empty => "Empty",
        Entity::Source => "Source",
        Entity::Sink => "Sink",
        Entity::TransportBelt => "TransportBelt",
        Entity::UndergroundBelt => "UndergroundBelt",
        Entity::Splitter => "Splitter",
        Entity::Inserter => "Inserter",
        Entity::Assembler => "Assembler",
    }
}

/// The name of a facing.
pub fn direction_word(direction: Direction) -> (r: &'static str)
    ensures
        r@ == direction_text(direction),
{
    match direction {
        Direction::North => "North",
        Direction::East => "East",
        Direction::South => "South",
        Direction::West => "West",
        Direction::Nowhere => "None",
    }
}

/// The name of an item.
pub fn item_word(item: Item) -> (r: &'static str)
    ensures
        r@ == item_text(item),
{
    match item {
        Item::Nothing => "None",
        Item::IronPlate => "IronPlate",
        Item::CopperPlate => "CopperPlate",
        Item::IronGear => "IronGear",
        Item::CopperCable => "CopperCable",
        Item::GreenCircuit => "GreenCircuit",
    }
}

fn traits(cell: Cell) -> (r: String)
    ensures
        r@ == trait_text(cell),
{
    let mut s = match arrow(cell.direction) {
        Some(a) => {
            let mut facing = text::begin(" facing ");
            text::push(&mut facing, direction_word(cell.direction));
            text::push(&mut facing, " ");
            text::push(&mut facing, a);
            facing
        },
        None => text::begin(""),
    };
    if cell.item == Item::Nothing {
        text::push(&mut s, "");
    } else {
        let mut carrying = text::begin(", ");
        text::push(&mut carrying, item_word(cell.item));
        text::push(&mut s, carrying.as_str());
    }
    text::push(
        &mut s,
        match cell.misc {
            Misc::UndergroundDown => ", entrance",
            Misc::UndergroundUp => ", exit",
            Misc::Untagged => "",
        },
    );
    s
}

/// What a tile is, in words.
pub fn describe(grid: &Grid, x: usize, y: usize) -> (r: String)
    requires
        grid.wf(),
        grid@.inside(x as int, y as int),
    ensures
        r@ == description(grid@, x as int, y as int),
{
    proof {
        grid::lemma_slot(grid@, x as int, y as int);
    }
    let mut s = text::begin("(");
    text::push_number(&mut s, x);
    text::push(&mut s, ", ");
    text::push_number(&mut s, y);
    if grid.is_obstacle(x, y) {
        text::push(&mut s, ") obstacle");
        return s;
    }
    let cell = grid.get(x, y);
    if cell.is_empty() {
        match grid.anchor_at(x, y) {
            Some(a) => {
                proof {
                    grid::lemma_slot(grid@, a.0 as int, a.1 as int);
                }
                text::push(&mut s, ") covered by the ");
                text::push(&mut s, entity_word(grid.get(a.0, a.1).entity));
                text::push(&mut s, " at (");
                text::push_number(&mut s, a.0);
                text::push(&mut s, ", ");
                text::push_number(&mut s, a.1);
                text::push(&mut s, ")");
            },
            None => {
                text::push(&mut s, ") empty");
            },
        }
        return s;
    }
    text::push(&mut s, ") ");
    text::push(&mut s, entity_word(cell.entity));
    let rest = traits(cell);
    text::push(&mut s, rest.as_str());
    s
}

fn label(x: usize, y: usize, colour: &str, size: &str, words: &str) -> (r: String)
    ensures
        r@ == label_svg(x as nat, y as nat, colour@, size@, words@),
{
    let mut s = text::begin("<text x=\"");
    text::push_number(&mut s, x);
    text::push(&mut s, "\" y=\"");
    text::push_number(&mut s, y);
    text::push(&mut s, "\" fill=\"");
    text::push(&mut s, colour);
    text::push(&mut s, "\" font-size=\"");
    text::push(&mut s, size);
    text::push(&mut s, "\" text-anchor=\"middle\" dominant-baseline=\"central\">");
    text::push(&mut s, words);
    text::push(&mut s, "</text>");
    s
}

fn body_box(x: usize, y: usize, w: usize, h: usize, colour: &str) -> (r: String)
    requires
        x < usize::MAX,
        y < usize::MAX,
        w >= 2,
        h >= 2,
    ensures
        r@ == box_svg(x as nat, y as nat, w as nat, h as nat, colour@),
{
    let mut s = text::begin("<rect x=\"");
    text::push_number(&mut s, x + 1);
    text::push(&mut s, "\" y=\"");
    text::push_number(&mut s, y + 1);
    text::push(&mut s, "\" width=\"");
    text::push_number(&mut s, w - 2);
    text::push(&mut s, "\" height=\"");
    text::push_number(&mut s, h - 2);
    text::push(&mut s, "\" rx=\"3\" fill=\"");
    text::push(&mut s, colour);
    text::push(&mut s, "\" stroke=\"#0d1013\" stroke-width=\"1.5\"/>");
    s
}

/// One entity, drawn at its anchor across its whole footprint.
pub fn entity_svg(grid: &Grid, x: usize, y: usize) -> (r: String)
    requires
        grid.wf(),
        drawable(grid@),
        grid@.inside(x as int, y as int),
    ensures
        r@ == drawn_entity(grid@, x as int, y as int),
{
    proof {
        grid::lemma_slot(grid@, x as int, y as int);
    }
    let cell = grid.get(x, y);
    let (fw, fh) = cell.entity.footprint(cell.direction);
    assert((x + 2) * TILE <= (grid@.width + 1) * TILE) by (nonlinear_arith)
        requires
            x < grid@.width,
    ;
    assert((y + 2) * TILE <= (grid@.height + 1) * TILE) by (nonlinear_arith)
        requires
            y < grid@.height,
    ;
    let px = x * TILE;
    let py = y * TILE;
    let w = fw * TILE;
    let h = fh * TILE;
    let cx = px + w / 2;
    let cy = py + h / 2;
    let mut s = text::begin("<g><title>");
    let words = describe(grid, x, y);
    text::push(&mut s, words.as_str());
    text::push(&mut s, "</title>");
    let outline = body_box(px, py, w, h, fill(cell.entity));
    text::push(&mut s, outline.as_str());
    let mark: Option<&'static str> = match cell.entity {
        Entity::UndergroundBelt => match cell.misc {
            Misc::UndergroundDown => Some("⤓"),
            Misc::UndergroundUp => Some("⤒"),
            Misc::Untagged => Some("?"),
        },
        _ => arrow(cell.direction),
    };
    match mark {
        Some(m) => {
            let piece = label(cx, cy, "#f2f5f7", "11", m);
            text::push(&mut s, piece.as_str());
        },
        None => {
            text::push(&mut s, "");
        },
    }
    if cell.item == Item::Nothing {
        text::push(&mut s, "");
    } else {
        let ty = if fh > 1 {
            cy + TILE / 2
        } else {
            cy
        };
        let piece = label(cx, ty, "#e8edf2", "8", item_tag(cell.item));
        text::push(&mut s, piece.as_str());
    }
    text::push(&mut s, "</g>");
    s
}

fn obstacle_svg(grid: &Grid, x: usize, y: usize) -> (r: String)
    requires
        grid.wf(),
        drawable(grid@),
        grid@.inside(x as int, y as int),
        grid@.blocked(x as int, y as int),
    ensures
        r@ == drawn_obstacle(grid@, x as int, y as int),
{
    assert(x * TILE <= (grid@.width + 1) * TILE) by (nonlinear_arith)
        requires
            x < grid@.width,
    ;
    assert(y * TILE <= (grid@.height + 1) * TILE) by (nonlinear_arith)
        requires
            y < grid@.height,
    ;
    let mut s = text::begin("<rect x=\"");
    text::push_number(&mut s, x * TILE);
    text::push(&mut s, "\" y=\"");
    text::push_number(&mut s, y * TILE);
    text::push(&mut s, "\" width=\"22\" height=\"22\" fill=\"#3a3f45\"/><title>");
    let words = describe(grid, x, y);
    text::push(&mut s, words.as_str());
    text::push(&mut s, "</title>");
    s
}

fn line(x1: usize, y1: usize, x2: usize, y2: usize) -> (r: String)
    ensures
        r@ == line_svg(x1 as nat, y1 as nat, x2 as nat, y2 as nat),
{
    let mut s = text::begin("<line x1=\"");
    text::push_number(&mut s, x1);
    text::push(&mut s, "\" y1=\"");
    text::push_number(&mut s, y1);
    text::push(&mut s, "\" x2=\"");
    text::push_number(&mut s, x2);
    text::push(&mut s, "\" y2=\"");
    text::push_number(&mut s, y2);
    text::push(&mut s, "\" stroke=\"#2b3138\" stroke-width=\"1\"/>");
    s
}

fn ground(w: usize, h: usize) -> (r: String)
    ensures
        r@ == ground_svg(w as nat, h as nat),
{
    let mut s = text::begin("<svg xmlns=\"http://www.w3.org/2000/svg\" viewBox=\"0 0 ");
    text::push_number(&mut s, w);
    text::push(&mut s, " ");
    text::push_number(&mut s, h);
    text::push(&mut s, "\" class=\"factory\" role=\"img\"><rect width=\"");
    text::push_number(&mut s, w);
    text::push(&mut s, "\" height=\"");
    text::push_number(&mut s, h);
    text::push(&mut s, "\" fill=\"#1b1f24\"/>");
    s
}

fn push_upright_lines(s: &mut String, columns: usize, h: usize)
    requires
        (columns + 1) * TILE <= usize::MAX,
    ensures
        final(s)@ == old(s)@ + upright_lines(h as nat, columns as nat + 1),
{
    let ghost before = s@;
    assert(s@ =~= before + upright_lines(h as nat, 0));
    let mut i: usize = 0;
    while i <= columns
        invariant
            (columns + 1) * TILE <= usize::MAX,
            i <= columns + 1,
            s@ == before + upright_lines(h as nat, i as nat),
        decreases columns + 1 - i,
    {
        assert(i * TILE <= (columns + 1) * TILE) by (nonlinear_arith)
            requires
                i <= columns,
        ;
        let x = i * TILE;
        let piece = line(x, 0, x, h);
        text::push(s, piece.as_str());
        assert(s@ =~= before + upright_lines(h as nat, i as nat + 1));
        i = i + 1;
    }
}

fn push_level_lines(s: &mut String, rows: usize, w: usize)
    requires
        (rows + 1) * TILE <= usize::MAX,
    ensures
        final(s)@ == old(s)@ + level_lines(w as nat, rows as nat + 1),
{
    let ghost before = s@;
    assert(s@ =~= before + level_lines(w as nat, 0));
    let mut i: usize = 0;
    while i <= rows
        invariant
            (rows + 1) * TILE <= usize::MAX,
            i <= rows + 1,
            s@ == before + level_lines(w as nat, i as nat),
        decreases rows + 1 - i,
    {
        assert(i * TILE <= (rows + 1) * TILE) by (nonlinear_arith)
            requires
                i <= rows,
        ;
        let y = i * TILE;
        let piece = line(0, y, w, y);
        text::push(s, piece.as_str());
        assert(s@ =~= before + level_lines(w as nat, i as nat + 1));
        i = i + 1;
    }
}

fn push_obstacles(s: &mut String, grid: &Grid)
    requires
        grid.wf(),
        drawable(grid@),
    ensures
        final(s)@ == old(s)@ + text::along_rows(
            |x: int, y: int| drawn_obstacle(grid@, x, y),
            grid@.width,
            grid@.height,
        ),
{
    let ghost g = grid@;
    let ghost f = |x: int, y: int| drawn_obstacle(g, x, y);
    let ghost before = s@;
    assert(s@ =~= before + text::along_rows(f, g.width, 0));
    let mut y: usize = 0;
    while y < grid.height
        invariant
            grid.wf(),
            drawable(grid@),
            g == grid@,
            f == (|x: int, y: int| drawn_obstacle(g, x, y)),
            y <= grid.height,
            s@ == before + text::along_rows(f, g.width, y as nat),
        decreases grid.height - y,
    {
        let ghost above = s@;
        assert(s@ =~= above + text::along_row(f, y as int, 0));
        let mut x: usize = 0;
        while x < grid.width
            invariant
                grid.wf(),
                drawable(grid@),
                g == grid@,
                f == (|x: int, y: int| drawn_obstacle(g, x, y)),
                y < grid.height,
                x <= grid.width,
                s@ == above + text::along_row(f, y as int, x as nat),
            decreases grid.width - x,
        {
            proof {
                grid::lemma_slot(g, x as int, y as int);
            }
            if grid.is_obstacle(x, y) {
                let piece = obstacle_svg(grid, x, y);
                text::push(s, piece.as_str());
            }
            assert(s@ =~= above + text::along_row(f, y as int, x as nat + 1));
            x = x + 1;
        }
        assert(s@ =~= before + text::along_rows(f, g.width, y as nat + 1));
        y = y + 1;
    }
}

fn push_entities(s: &mut String, grid: &Grid)
    requires
        grid.wf(),
        drawable(grid@),
    ensures
        final(s)@ == old(s)@ + text::along_rows(
            |x: int, y: int| drawn_tile(grid@, x, y),
            grid@.width,
            grid@.height,
        ),
{
    let ghost g = grid@;
    let ghost f = |x: int, y: int| drawn_tile(g, x, y);
    let ghost before = s@;
    assert(s@ =~= before + text::along_rows(f, g.width, 0));
    let mut y: usize = 0;
    while y < grid.height
        invariant
            grid.wf(),
            drawable(grid@),
            g == grid@,
            f == (|x: int, y: int| drawn_tile(g, x, y)),
            y <= grid.height,
            s@ == before + text::along_rows(f, g.width, y as nat),
        decreases grid.height - y,
    {
        let ghost above = s@;
        assert(s@ =~= above + text::along_row(f, y as int, 0));
        let mut x: usize = 0;
        while x < grid.width
            invariant
                grid.wf(),
                drawable(grid@),
                g == grid@,
                f == (|x: int, y: int| drawn_tile(g, x, y)),
                y < grid.height,
                x <= grid.width,
                s@ == above + text::along_row(f, y as int, x as nat),
            decreases grid.width - x,
        {
            proof {
                grid::lemma_slot(g, x as int, y as int);
            }
            if !grid.get(x, y).is_empty() {
                let piece = entity_svg(grid, x, y);
                text::push(s, piece.as_str());
            }
            assert(s@ =~= above + text::along_row(f, y as int, x as nat + 1));
            x = x + 1;
        }
        assert(s@ =~= before + text::along_rows(f, g.width, y as nat + 1));
        y = y + 1;
    }
}

/// Render a grid as a standalone `<svg>` element. Entities are drawn once, at their
/// anchor, across every tile they cover, so the other tiles of a machine are not drawn
/// by themselves.
pub fn grid_to_svg(grid: &Grid) -> (r: String)
    requires
        grid.wf(),
        drawable(grid@),
    ensures
        r@ == drawing(grid@),
{
    let ghost g = grid@;
    assert(g.width * TILE <= (g.width + 1) * TILE && g.height * TILE <= (g.height + 1) * TILE)
        by (nonlinear_arith);
    let w = grid.width * TILE;
    let h = grid.height * TILE;
    let mut svg = ground(w, h);
    push_upright_lines(&mut svg, grid.width, h);
    push_level_lines(&mut svg, grid.height, w);
    push_obstacles(&mut svg, grid);
    push_entities(&mut svg, grid);
    text::push(&mut svg, "</svg>");
    svg
}

/// A drawing is one element: it opens with the tag of an SVG image and closes it at its
/// very end.
pub proof fn law_a_drawing_is_one_element(g: GridView)
    ensures
        "<svg"@.is_prefix_of(drawing(g)),
        "</svg>"@.is_suffix_of(drawing(g)),
{
    reveal_strlit("<svg");
    reveal_strlit("<svg xmlns=\"http://www.w3.org/2000/svg\" viewBox=\"0 0 ");
    reveal_strlit("</svg>");
}

/// Every entity is one group, and a tile that is no anchor draws nothing: the tiles of a
/// machine other than its anchor are not drawn by themselves.
pub proof fn law_every_entity_is_one_group(g: GridView, x: int, y: int)
    ensures
        g.at(x, y).entity is Empty ==> drawn_tile(g, x, y).len() == 0,
        !(g.at(x, y).entity is Empty) ==> "<g>"@.is_prefix_of(drawn_tile(g, x, y))
            && "</g>"@.is_suffix_of(drawn_tile(g, x, y)),
{
    reveal_strlit("<g>");
    reveal_strlit("<g><title>");
    reveal_strlit("</g>");
}

/// The names that are shown, each thing's own.
pub proof fn law_what_things_are_called(e: Entity, d: Direction, i: Item)
    ensures
        entity_text(e) == (match e {
            Entity::Empty => "Empty",
            Entity::Source => "Source",
            Entity::Sink => "Sink",
            Entity::TransportBelt => "TransportBelt",
            Entity::UndergroundBelt => "UndergroundBelt",
            Entity::Splitter => "Splitter",
            Entity::Inserter => "Inserter",
            Entity::Assembler => "Assembler",
        })@,
        direction_text(d) == (match d {
            Direction::Nowhere => "None",
            Direction::North => "North",
            Direction::East => "East",
            Direction::South => "South",
            Direction::West => "West",
        })@,
        item_text(i) == (match i {
            Item::Nothing => "None",
            Item::IronPlate => "IronPlate",
            Item::CopperPlate => "CopperPlate",
            Item::IronGear => "IronGear",
            Item::CopperCable => "CopperCable",
            Item::GreenCircuit => "GreenCircuit",
        })@,
{
}

/// An arrow is shown exactly for what faces somewhere, and points up for north, right for
/// east, down for south and left for west.
pub proof fn law_arrows_point_where_things_face(d: Direction)
    ensures
        arrow_text(d) is None <==> (d.dx(), d.dy()) == (0int, 0int),
        d.dy() < 0 ==> arrow_text(d) == Some("▲"@),
        d.dx() > 0 ==> arrow_text(d) == Some("▶"@),
        d.dy() > 0 ==> arrow_text(d) == Some("▼"@),
        d.dx() < 0 ==> arrow_text(d) == Some("◀"@),
{
}

/// The mark of a tunnel tells its ends apart; everything else is marked with its arrow.
pub proof fn law_marks_tell_the_ends_of_a_tunnel_apart(c: Cell)
    ensures
        c.entity is UndergroundBelt && c.misc is UndergroundDown ==> mark_text(c) == Some("⤓"@),
        c.entity is UndergroundBelt && c.misc is UndergroundUp ==> mark_text(c) == Some("⤒"@),
        c.entity is UndergroundBelt && c.misc is Untagged ==> mark_text(c) == Some("?"@),
        c.entity !is UndergroundBelt ==> mark_text(c) == arrow_text(c.direction),
{
}

/// Whether a part stands somewhere in a text.
pub open spec fn shows(text: Seq<char>, part: Seq<char>) -> bool {
    exists|a: Seq<char>, b: Seq<char>| text == #[trigger] (a + part + b)
}

/// An entity is drawn as one box of its colour over all the tiles it stands on, inset by
/// one on each side, with its mark in the middle and the tag of its item there or, in an
/// entity of more than one row, half a tile below.
pub proof fn law_an_entity_is_drawn_over_its_tiles(g: GridView, x: int, y: int)
    requires
        g.inside(x, y),
        g.at(x, y).entity !is Empty,
    ensures
        ({
            let c = g.at(x, y);
            let (w, h) = c.entity.extent(c.direction);
            let (mx, my) = ((22 * x + 11 * w) as nat, (22 * y + 11 * h) as nat);
            let colour = fill_text(c.entity);
            &&& shows(
                drawn_tile(g, x, y),
                box_svg(
                    (22 * x) as nat,
                    (22 * y) as nat,
                    (22 * w) as nat,
                    (22 * h) as nat,
                    colour,
                ),
            )
            &&& mark_text(c) matches Some(m) ==> shows(
                drawn_tile(g, x, y),
                label_svg(mx, my, "#f2f5f7"@, "11"@, m),
            )
            &&& c.item !is Nothing ==> shows(
                drawn_tile(g, x, y),
                label_svg(
                    mx,
                    if h == 1 {
                        my
                    } else {
                        my + 11
                    },
                    "#e8edf2"@,
                    "8"@,
                    tag_text(c.item),
                ),
            )
            &&& shows(drawn_tile(g, x, y), description(g, x, y))
        }),
{
    let c = g.at(x, y);
    let (w, h) = c.entity.extent(c.direction);
    assert((w * TILE) / 2 == 11 * w && (h * TILE) / 2 == 11 * h);
    let (cx, cy) = ((x * TILE + w * TILE / 2) as nat, (y * TILE + h * TILE / 2) as nat);
    let mark = match mark_text(c) {
        Some(m) => label_svg(cx, cy, "#f2f5f7"@, "11"@, m),
        None => ""@,
    };
    let tag_y = if h > 1 {
        cy + TILE as nat / 2
    } else {
        cy
    };
    let tag = if c.item is Nothing {
        ""@
    } else {
        label_svg(cx, tag_y, "#e8edf2"@, "8"@, tag_text(c.item))
    };
    let square = box_svg(
        (x * TILE) as nat,
        (y * TILE) as nat,
        (w * TILE) as nat,
        (h * TILE) as nat,
        fill_text(c.entity),
    );
    let open = "<g><title>"@;
    let words = description(g, x, y);
    let close = "</title>"@;
    let last = "</g>"@;
    let all = drawn_tile(g, x, y);
    assert(all == open + words + close + square + mark + tag + last);
    assert(all =~= (open + words) + (close + square + mark + tag + last));
    assert(all =~= ((open + words + close) + square) + (mark + tag + last));
    assert(all =~= ((open + words + close + square) + mark) + (tag + last));
    assert(all =~= ((open + words + close + square + mark) + tag) + last);
}

/// A wall is drawn as one tile of its own, and nothing is drawn for an open tile.
pub proof fn law_walls_are_drawn_on_their_tiles(g: GridView, x: int, y: int)
    requires
        g.inside(x, y),
    ensures
        !g.blocked(x, y) ==> drawn_obstacle(g, x, y).len() == 0,
        g.blocked(x, y) ==> ("<rect x=\""@ + text::decimal((22 * x) as nat) + "\" y=\""@
            + text::decimal((22 * y) as nat)).is_prefix_of(drawn_obstacle(g, x, y)),
{
}

/// Every entity has a colour of its own, and every item but nothing a tag.
pub proof fn law_what_things_look_like(e: Entity, i: Item)
    ensures
        fill_text(e) == (match e {
            Entity::Empty => "#1b1f24",
            Entity::Source => "#2f7d4f",
            Entity::Sink => "#a4373a",
            Entity::TransportBelt => "#b8912f",
            Entity::UndergroundBelt => "#7d5f1f",
            Entity::Splitter => "#c2a04a",
            Entity::Inserter => "#3f6ea8",
            Entity::Assembler => "#2f7f86",
        })@,
        tag_text(i) == (match i {
            Item::Nothing => "",
            Item::IronPlate => "Fe",
            Item::CopperPlate => "Cu",
            Item::IronGear => "gear",
            Item::CopperCable => "wire",
            Item::GreenCircuit => "chip",
        })@,
{
}

/// A box starts one point in from its corner and ends one point before the other; a label
/// and a line stand where they are asked to.
pub proof fn law_boxes_labels_and_lines_stand_where_they_should(
    x: nat,
    y: nat,
    w: nat,
    h: nat,
    colour: Seq<char>,
    size: Seq<char>,
    words: Seq<char>,
)
    requires
        w >= 2 && h >= 2,
    ensures
        box_svg(x, y, w, h, colour) == "<rect x=\""@ + text::decimal(x + 1) + "\" y=\""@
            + text::decimal(y + 1) + "\" width=\""@ + text::decimal((w - 2) as nat)
            + "\" height=\""@ + text::decimal((h - 2) as nat) + "\" rx=\"3\" fill=\""@ + colour
            + "\" stroke=\"#0d1013\" stroke-width=\"1.5\"/>"@,
        label_svg(x, y, colour, size, words) == "<text x=\""@ + text::decimal(x) + "\" y=\""@
            + text::decimal(y) + "\" fill=\""@ + colour + "\" font-size=\""@ + size
            + "\" text-anchor=\"middle\" dominant-baseline=\"central\">"@ + words + "</text>"@,
        line_svg(x, y, w, h) == "<line x1=\""@ + text::decimal(x) + "\" y1=\""@ + text::decimal(y)
            + "\" x2=\""@ + text::decimal(w) + "\" y2=\""@ + text::decimal(h)
            + "\" stroke=\"#2b3138\" stroke-width=\"1\"/>"@,
{
}

/// The lattice has an upright line at every column and one after the last, and a level line
/// at every row and one after the last, each over the whole board.
pub proof fn law_the_lattice_divides_the_tiles(length: nat, k: nat, i: nat)
    requires
        i < k,
    ensures
        shows(upright_lines(length, k), line_svg(22 * i, 0, 22 * i, length)),
        shows(level_lines(length, k), line_svg(0, 22 * i, length, 22 * i)),
        upright_lines(length, 0).len() == 0 && level_lines(length, 0).len() == 0,
    decreases k,
{
    let (u, v) = (upright_lines(length, (k - 1) as nat), level_lines(length, (k - 1) as nat));
    let (up, level) = (upright_lines(length, k), level_lines(length, k));
    let at = ((k - 1) * TILE) as nat;
    let (a, b) = (line_svg(at, 0, at, length), line_svg(0, at, length, at));
    let none = Seq::<char>::empty();
    if i == k - 1 {
        assert(up =~= u + a + none);
        assert(level =~= v + b + none);
    } else {
        law_the_lattice_divides_the_tiles(length, (k - 1) as nat, i);
        let (c, d) = (line_svg(22 * i, 0, 22 * i, length), line_svg(0, 22 * i, length, 22 * i));
        let (p, q) = choose|p: Seq<char>, q: Seq<char>| u == #[trigger] (p + c + q);
        assert(up =~= p + c + (q + a));
        let (r, s) = choose|r: Seq<char>, s: Seq<char>| v == #[trigger] (r + d + s);
        assert(level =~= r + d + (s + b));
    }
}

/// A drawing is as large as the board, shows the lattice of the board, then every wall, and
/// then every entity.
pub proof fn law_what_a_drawing_shows(g: GridView, x: int, y: int)
    requires
        g.inside(x, y),
    ensures
        ground_svg(22 * g.width, 22 * g.height).is_prefix_of(drawing(g)),
        shows(drawing(g), upright_lines(22 * g.height, g.width + 1)),
        shows(drawing(g), level_lines(22 * g.width, g.height + 1)),
        shows(drawing(g), drawn_obstacle(g, x, y)),
        shows(drawing(g), drawn_tile(g, x, y)),
{
    let (w, h) = (g.width * TILE as nat, g.height * TILE as nat);
    assert(w == 22 * g.width && h == 22 * g.height);
    let ground = ground_svg(w, h);
    let up = upright_lines(h, g.width + 1);
    let level = level_lines(w, g.height + 1);
    let wall = |x: int, y: int| drawn_obstacle(g, x, y);
    let thing = |x: int, y: int| drawn_tile(g, x, y);
    let walls = text::along_rows(wall, g.width, g.height);
    let things = text::along_rows(thing, g.width, g.height);
    lemma_rows_show(wall, g.width, g.height, x, y);
    lemma_rows_show(thing, g.width, g.height, x, y);
    lemma_shows_in_six(ground, up, level, walls, things, "</svg>"@, up);
    lemma_shows_in_six(ground, up, level, walls, things, "</svg>"@, level);
    lemma_shows_in_six(ground, up, level, walls, things, "</svg>"@, wall(x, y));
    lemma_shows_in_six(ground, up, level, walls, things, "</svg>"@, thing(x, y));
}

/// What is written for a tile stands in what is written for all.
pub proof fn lemma_rows_show(
    f: spec_fn(int, int) -> Seq<char>,
    width: nat,
    height: nat,
    x: int,
    y: int,
)
    requires
        0 <= x < width,
        0 <= y < height,
    ensures
        shows(text::along_rows(f, width, height), f(x, y)),
{
    let all = text::along_rows(f, width, height);
    text::law_tiles_are_written_in_row_order(f, width, height, x, y);
    let a = text::along_rows(f, width, y as nat) + text::along_row(f, y, x as nat);
    let b = all.subrange((a + f(x, y)).len() as int, all.len() as int);
    assert(all =~= a + f(x, y) + b);
}

/// What stands in a part of a text stands in the text.
proof fn lemma_shows_in(a: Seq<char>, s: Seq<char>, b: Seq<char>, part: Seq<char>)
    requires
        shows(s, part),
    ensures
        shows(a + s + b, part),
{
    let (p, q) = choose|p: Seq<char>, q: Seq<char>| s == #[trigger] (p + part + q);
    assert(a + s + b =~= (a + p) + part + (q + b));
}

/// A text stands in itself.
proof fn lemma_shows_itself(s: Seq<char>)
    ensures
        shows(s, s),
{
    let none = Seq::<char>::empty();
    assert(s =~= none + s + none);
}

/// What stands in one of six parts stands in all of them together, the first of which comes
/// first.
proof fn lemma_shows_in_six(
    a: Seq<char>,
    b: Seq<char>,
    c: Seq<char>,
    d: Seq<char>,
    e: Seq<char>,
    f: Seq<char>,
    part: Seq<char>,
)
    ensures
        a.is_prefix_of(a + b + c + d + e + f),
        part == b || shows(b, part) ==> shows(a + b + c + d + e + f, part),
        part == c || shows(c, part) ==> shows(a + b + c + d + e + f, part),
        shows(d, part) ==> shows(a + b + c + d + e + f, part),
        shows(e, part) ==> shows(a + b + c + d + e + f, part),
{
    let all = a + b + c + d + e + f;
    lemma_shows_itself(part);
    if shows(b, part) {
        lemma_shows_in(a, b, c + d + e + f, part);
        assert(all =~= a + b + (c + d + e + f));
    }
    if shows(c, part) {
        lemma_shows_in(a + b, c, d + e + f, part);
        assert(all =~= (a + b) + c + (d + e + f));
    }
    if shows(d, part) {
        lemma_shows_in(a + b + c, d, e + f, part);
        assert(all =~= (a + b + c) + d + (e + f));
    }
    if shows(e, part) {
        lemma_shows_in(a + b + c + d, e, f, part);
        assert(all =~= (a + b + c + d) + e + f);
    }
}

/// What a tile is said to be: an obstacle where it is blocked, what is stored there with
/// its facing, its item and its end, what covers it and from where, or empty.
pub proof fn law_what_a_tile_is_said_to_be(g: GridView, x: int, y: int)
    requires
        g.inside(x, y),
    ensures
        ({
            let c = g.at(x, y);
            let here = "("@ + text::decimal(x as nat) + ", "@ + text::decimal(y as nat);
            let said = description(g, x, y);
            &&& g.blocked(x, y) ==> said == here + ") obstacle"@
            &&& !g.blocked(x, y) && c.entity !is Empty ==> (here + ") "@ + entity_text(
                c.entity,
            )).is_prefix_of(said)
            &&& !g.blocked(x, y) && c.entity !is Empty && c.item !is Nothing ==> shows(
                said,
                ", "@ + item_text(c.item),
            )
            &&& !g.blocked(x, y) && c.entity !is Empty && c.direction !is Nowhere ==> shows(
                said,
                " facing "@ + direction_text(c.direction) + " "@ + arrow_text(c.direction)->0,
            )
            &&& !g.blocked(x, y) && c.entity !is Empty && c.misc is UndergroundDown
                ==> ", entrance"@.is_suffix_of(said)
            &&& !g.blocked(x, y) && c.entity !is Empty && c.misc is UndergroundUp
                ==> ", exit"@.is_suffix_of(said)
            &&& !g.blocked(x, y) && c.entity is Empty ==> match g.anchor_of(x, y) {
                None => said == here + ") empty"@,
                Some(a) => said == here + ") covered by the "@ + entity_text(
                    g.at(a.0, a.1).entity,
                ) + " at ("@ + text::decimal(a.0 as nat) + ", "@ + text::decimal(a.1 as nat)
                    + ")"@,
            }
        }),
{
    let c = g.at(x, y);
    if !g.blocked(x, y) && c.entity !is Empty {
        let here = "("@ + text::decimal(x as nat) + ", "@ + text::decimal(y as nat);
        let name = here + ") "@ + entity_text(c.entity);
        lemma_said(name, c);
    }
}

/// What follows the name of an entity.
proof fn lemma_said(name: Seq<char>, c: Cell)
    ensures
        name.is_prefix_of(name + trait_text(c)),
        c.item !is Nothing ==> shows(name + trait_text(c), ", "@ + item_text(c.item)),
        c.direction !is Nowhere ==> shows(
            name + trait_text(c),
            " facing "@ + direction_text(c.direction) + " "@ + arrow_text(c.direction)->0,
        ),
        end_text(c.misc).is_suffix_of(name + trait_text(c)),
{
    let facing = match arrow_text(c.direction) {
        Some(a) => " facing "@ + direction_text(c.direction) + " "@ + a,
        None => ""@,
    };
    let carrying = if c.item is Nothing {
        ""@
    } else {
        ", "@ + item_text(c.item)
    };
    let end = end_text(c.misc);
    lemma_said_in_parts(name, facing, carrying, end);
}

proof fn lemma_said_in_parts(name: Seq<char>, facing: Seq<char>, carrying: Seq<char>, end: Seq<char>)
    ensures
        ({
            let said = name + (facing + carrying + end);
            &&& name.is_prefix_of(said)
            &&& shows(said, facing)
            &&& shows(said, carrying)
            &&& end.is_suffix_of(said)
        }),
{
    let said = name + (facing + carrying + end);
    assert(said =~= name + facing + (carrying + end));
    assert(said =~= (name + facing) + carrying + end);
}

} // verus!
