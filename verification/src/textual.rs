//! A factory as text, one character for every tile.

use vstd::prelude::*;
use crate::text;
use crate::world::grid;
use crate::world::grid::GridView;
use crate::world::{Cell, Direction, Entity, Grid, Misc};

verus! {

/// The arrow of a belt, or a question mark for one that faces nowhere: a belt that
/// carries in no direction is not a belt.
pub open spec fn belt_arrow(d: Direction) -> char {
    match d {
        Direction::North => '^',
        Direction::East => '>',
        Direction::South => 'v',
        Direction::West => '<',
        Direction::Nowhere => '?',
    }
}

/// The glyph of a cell, judged on the cell alone.
pub open spec fn cell_glyph(c: Cell) -> char {
    match c.entity {
        Entity::Empty => '.',
        Entity::Source => 'S',
        Entity::Sink => 'K',
        Entity::TransportBelt => belt_arrow(c.direction),
        Entity::UndergroundBelt => match c.misc {
            Misc::UndergroundDown => 'd',
            Misc::UndergroundUp => 'u',
            Misc::Untagged => '?',
        },
        Entity::Splitter => 'Y',
        Entity::Inserter => 'i',
        Entity::Assembler => 'A',
    }
}

/// The glyph for whatever occupies a tile, or `None` for bare floor. A tile that an
/// entity covers without being its anchor shows the anchor's glyph in lower case.
pub open spec fn occupant_glyph(g: GridView, x: int, y: int) -> Option<char> {
    if g.at(x, y).entity is Empty {
        match g.anchor_of(x, y) {
            Some(a) => Some(text::lowercase(cell_glyph(g.at(a.0, a.1)))),
            None => None,
        }
    } else {
        Some(cell_glyph(g.at(x, y)))
    }
}

/// The glyph of a tile: an exclamation mark where something stands on an obstacle, the
/// occupant's glyph elsewhere, and a hash or a dot for a bare obstacle or floor.
pub open spec fn tile_glyph(g: GridView, x: int, y: int) -> char {
    match occupant_glyph(g, x, y) {
        Some(c) => if g.blocked(x, y) {
            '!'
        } else {
            c
        },
        None => if g.blocked(x, y) {
            '#'
        } else {
            '.'
        },
    }
}

/// The first `k` glyphs of row `y`.
pub open spec fn row_text(g: GridView, y: int, k: nat) -> Seq<char> {
    Seq::new(k, |x: int| tile_glyph(g, x, y))
}

/// The first `k` rows, each ended by a line break.
pub open spec fn rows_text(g: GridView, k: nat) -> Seq<char>
    decreases k,
{
    if k == 0 {
        seq![]
    } else {
        rows_text(g, (k - 1) as nat) + row_text(g, k - 1, g.width).push('\n')
    }
}

/// The glyph of a cell that holds something, judged on the cell alone.
pub fn entity(c: Cell) -> (r: char)
    ensures
        r == cell_glyph(c),
{
    match c.entity {
        Entity::Empty => '.',
        Entity::Source => 'S',
        Entity::Sink => 'K',
        Entity::TransportBelt => match c.direction {
            Direction::North => '^',
            Direction::East => '>',
            Direction::South => 'v',
            Direction::West => '<',
            Direction::Nowhere => '?',
        },
        Entity::UndergroundBelt => match c.misc {
            Misc::UndergroundDown => 'd',
            Misc::UndergroundUp => 'u',
            Misc::Untagged => '?',
        },
        Entity::Splitter => 'Y',
        Entity::Inserter => 'i',
        Entity::Assembler => 'A',
    }
}

/// The glyph of a tile that a machine covers, given the glyph of the machine.
pub fn body(anchor: char) -> (r: char)
    ensures
        r == text::lowercase(anchor),
{
    text::to_lowercase(anchor)
}

/// The glyph for whatever occupies a tile, or `None` if the tile is bare floor.
/// Obstacles are terrain under the tile and are not consulted.
pub fn built(grid: &Grid, x: usize, y: usize) -> (r: Option<char>)
    requires
        grid.wf(),
        grid@.inside(x as int, y as int),
    ensures
        r == occupant_glyph(grid@, x as int, y as int),
{
    proof {
        grid::lemma_slot(grid@, x as int, y as int);
    }
    let cell = grid.get(x, y);
    if cell.is_empty() {
        return match grid.anchor_at(x, y) {
            Some(a) => {
                proof {
                    grid::lemma_slot(grid@, a.0 as int, a.1 as int);
                }
                Some(body(entity(grid.get(a.0, a.1))))
            },
            None => None,
        };
    }
    Some(entity(cell))
}

/// One glyph for a tile. Belts show the way they face, and the tiles of a machine other
/// than its anchor are drawn in lower case. What is wrong stays visible: `!` is an
/// entity on an obstacle and `?` an entity that cannot exist.
pub fn glyph(grid: &Grid, x: usize, y: usize) -> (r: char)
    requires
        grid.wf(),
        grid@.inside(x as int, y as int),
    ensures
        r == tile_glyph(grid@, x as int, y as int),
{
    proof {
        grid::lemma_slot(grid@, x as int, y as int);
    }
    let blocked = grid.is_obstacle(x, y);
    match built(grid, x, y) {
        Some(c) => if blocked {
            '!'
        } else {
            c
        },
        None => if blocked {
            '#'
        } else {
            '.'
        },
    }
}

/// The whole grid, row by row, each row ended by a line break.
pub fn render(grid: &Grid) -> (r: String)
    requires
        grid.wf(),
    ensures
        r@ == rows_text(grid@, grid@.height),
{
    let ghost g = grid@;
    let mut s = String::new();
    let mut y: usize = 0;
    while y < grid.height
        invariant
            grid.wf(),
            g == grid@,
            y <= grid.height,
            s@ == rows_text(g, y as nat),
        decreases grid.height - y,
    {
        let ghost above = s@;
        let mut x: usize = 0;
        while x < grid.width
            invariant
                grid.wf(),
                g == grid@,
                y < grid.height,
                x <= grid.width,
                s@ == above + row_text(g, y as int, x as nat),
            decreases grid.width - x,
        {
            s.push(glyph(grid, x, y));
            assert(s@ =~= above + row_text(g, y as int, x as nat + 1));
            x = x + 1;
        }
        s.push('\n');
        assert(s@ =~= above + row_text(g, y as int, g.width).push('\n'));
        y = y + 1;
    }
    s
}

/// A tile where something stands on an obstacle never looks like a legal one: its glyph
/// is the exclamation mark, and no other tile has that glyph.
pub proof fn law_builds_on_obstacles_stay_visible(g: GridView, x: int, y: int)
    requires
        g.inside(x, y),
    ensures
        tile_glyph(g, x, y) == '!' <==> g.blocked(x, y) && g.anchor_of(x, y) is Some,
{
}

/// Bare floor is drawn as a dot, and nothing else is.
pub proof fn law_only_floor_looks_like_floor(g: GridView, x: int, y: int)
    requires
        g.inside(x, y),
    ensures
        tile_glyph(g, x, y) == '.' <==> !g.blocked(x, y) && g.anchor_of(x, y) is None,
{
    grid::lemma_anchor_of(g, x, y);
}

/// Every entity has a glyph of its own, a belt one for each way it faces and a tunnel one
/// for each end; a belt that faces nowhere and a tunnel with no end are question marks.
pub proof fn law_what_the_glyphs_stand_for(c: Cell)
    ensures
        cell_glyph(c) == '.' <==> c.entity is Empty,
        cell_glyph(c) == 'S' <==> c.entity is Source,
        cell_glyph(c) == 'K' <==> c.entity is Sink,
        cell_glyph(c) == '^' <==> c.entity is TransportBelt && c.direction is North,
        cell_glyph(c) == '>' <==> c.entity is TransportBelt && c.direction is East,
        cell_glyph(c) == 'v' <==> c.entity is TransportBelt && c.direction is South,
        cell_glyph(c) == '<' <==> c.entity is TransportBelt && c.direction is West,
        cell_glyph(c) == 'd' <==> c.entity is UndergroundBelt && c.misc is UndergroundDown,
        cell_glyph(c) == 'u' <==> c.entity is UndergroundBelt && c.misc is UndergroundUp,
        cell_glyph(c) == 'Y' <==> c.entity is Splitter,
        cell_glyph(c) == 'i' <==> c.entity is Inserter,
        cell_glyph(c) == 'A' <==> c.entity is Assembler,
        cell_glyph(c) == '?' <==> (c.entity is TransportBelt && c.direction is Nowhere || c.entity
            is UndergroundBelt && c.misc is Untagged),
{
}

/// What an open tile shows: the glyph of what is stored there, or that of the entity that
/// covers it in lower case, or the floor; a wall shows as one where nothing stands on it.
pub proof fn law_what_a_tile_shows(g: GridView, x: int, y: int)
    requires
        g.inside(x, y),
    ensures
        !g.blocked(x, y) && g.at(x, y).entity !is Empty ==> tile_glyph(g, x, y) == cell_glyph(
            g.at(x, y),
        ),
        !g.blocked(x, y) && g.at(x, y).entity is Empty ==> (g.anchor_of(x, y) matches Some(a)
            ==> tile_glyph(g, x, y) == text::lowercase(cell_glyph(g.at(a.0, a.1)))),
        tile_glyph(g, x, y) == '#' <==> g.blocked(x, y) && g.anchor_of(x, y) is None,
{
    if g.anchor_of(x, y) is Some {
        let a = g.anchor_of(x, y)->0;
        law_what_the_glyphs_stand_for(g.at(a.0, a.1));
    }
}

/// The glyphs stand row by row, from left to right, and a line break ends each row.
pub proof fn law_where_a_tile_is_written(g: GridView, k: nat, x: int, y: int)
    requires
        0 <= x < g.width,
        0 <= y < k,
    ensures
        rows_text(g, k).len() == k * (g.width + 1),
        rows_text(g, k)[y * (g.width + 1) + x] == tile_glyph(g, x, y),
        rows_text(g, k)[y * (g.width + 1) + g.width] == '\n',
    decreases k,
{
    let w = g.width as int;
    let above = rows_text(g, (k - 1) as nat);
    assert(k * (w + 1) == (k - 1) * (w + 1) + (w + 1)) by (nonlinear_arith);
    assert(0 <= y * (w + 1)) by (nonlinear_arith)
        requires
            0 <= y,
            0 <= w,
    ;
    if k > 1 {
        law_where_a_tile_is_written(
            g,
            (k - 1) as nat,
            x,
            if y < k - 1 {
                y
            } else {
                0
            },
        );
    } else {
        assert(0 * (w + 1) == 0);
    }
    assert(above.len() == (k - 1) * (w + 1));
    if y < k - 1 {
        assert((y + 1) * (w + 1) <= (k - 1) * (w + 1)) by (nonlinear_arith)
            requires
                y + 1 <= k - 1,
                0 <= w,
        ;
        assert((y + 1) * (w + 1) == y * (w + 1) + (w + 1)) by (nonlinear_arith);
    }
}

} // verus!
