//! The shapes of board that lessons are laid out on, and which lesson needs which.

use vstd::prelude::*;
use crate::world::grid::GridView;
use crate::world::{Grid, MAX_SIDE};

verus! {

/// The shape of the board a lesson is laid out on.
#[derive(Debug, Clone, Copy, PartialEq, Eq, PartialOrd, Ord, Hash, Structural)]
pub struct Canvas {
    pub width: usize,
    pub height: usize,
}

impl Canvas {
    /// Whether a grid of this shape can be held in memory at all.
    pub open spec fn holdable(self) -> bool {
        &&& self.width <= MAX_SIDE
        &&& self.height <= MAX_SIDE
        &&& self.width * self.height <= usize::MAX
    }

    pub open spec fn blank(self) -> GridView {
        GridView::blank(self.width as nat, self.height as nat)
    }

    pub fn new(width: usize, height: usize) -> (r: Self)
        ensures
            r == (Canvas { width, height }),
    {
        Canvas { width, height }
    }

    pub fn square(side: usize) -> (r: Self)
        ensures
            r == (Canvas { width: side, height: side }),
    {
        Canvas::new(side, side)
    }

    /// Number of tiles.
    pub fn area(self) -> (r: usize)
        requires
            self.width * self.height <= usize::MAX,
        ensures
            r == self.width * self.height,
    {
        self.width * self.height
    }

    /// An empty grid of this shape.
    pub fn grid(self) -> (r: Grid)
        requires
            self.holdable(),
        ensures
            r.wf(),
            r@ == self.blank(),
    {
        Grid::new(self.width, self.height)
    }

    /// The canvases of one height, by width from `min` to before `end`.
    pub open spec fn row(min: int, end: int, height: int) -> Seq<Canvas>
        decreases end - min,
    {
        if end <= min {
            seq![]
        } else {
            Canvas::row(min, end - 1, height).push(
                Canvas { width: (end - 1) as usize, height: height as usize },
            )
        }
    }

    /// The canvases with heights from `min` to before `end`, row by row, each row
    /// holding the widths from `min` to `max`.
    pub open spec fn rows(min: int, max: int, end: int) -> Seq<Canvas>
        decreases end - min,
    {
        if end <= min {
            seq![]
        } else {
            Canvas::rows(min, max, end - 1) + Canvas::row(min, max + 1, end - 1)
        }
    }

    /// Every canvas whose sides both lie between `min` and `max`, by height and for
    /// each height by width.
    pub fn pool(min: usize, max: usize) -> (r: Vec<Canvas>)
        ensures
            r@ == Canvas::rows(min as int, max as int, max + 1),
    {
        let mut out: Vec<Canvas> = Vec::new();
        if min > max {
            return out;
        }
        let mut height: usize = min;
        loop
            invariant_except_break
                min <= height <= max,
                out@ == Canvas::rows(min as int, max as int, height as int),
            ensures
                out@ == Canvas::rows(min as int, max as int, max + 1),
            decreases max - height,
        {
            let ghost above = out@;
            let mut width: usize = min;
            loop
                invariant_except_break
                    min <= width <= max,
                    out@ == above + Canvas::row(min as int, width as int, height as int),
                ensures
                    out@ == above + Canvas::row(min as int, max + 1, height as int),
                decreases max - width,
            {
                out.push(Canvas::new(width, height));
                assert(out@ =~= above + Canvas::row(min as int, width + 1, height as int));
                if width == max {
                    break;
                }
                width = width + 1;
            }
            if height == max {
                break;
            }
            height = height + 1;
        }
        out
    }
}

/// The pool holds exactly the canvases whose sides both lie between its bounds.
pub proof fn law_pool_is_every_shape(min: usize, max: usize, c: Canvas)
    ensures
        Canvas::rows(min as int, max as int, max + 1).contains(c) <==> (min <= c.width <= max && min
            <= c.height <= max),
{
    lemma_rows(min as int, max as int, max + 1, c);
}

proof fn lemma_row(min: int, end: int, height: int, c: Canvas)
    requires
        0 <= min,
        end <= usize::MAX + 1,
        0 <= height <= usize::MAX,
    ensures
        Canvas::row(min, end, height).contains(c) <==> (min <= c.width < end && c.height == height),
    decreases end - min,
{
    if end > min {
        lemma_row(min, end - 1, height, c);
        let rest = Canvas::row(min, end - 1, height);
        let all = Canvas::row(min, end, height);
        if rest.contains(c) {
            assert(all[rest.index_of(c)] == c);
        }
        if c.width == end - 1 && c.height == height {
            assert(all[rest.len() as int] == c);
        }
        if all.contains(c) && !rest.contains(c) {
            let k = all.index_of(c);
            assert(k == rest.len() || rest[k] == c);
        }
    }
}

proof fn lemma_rows(min: int, max: int, end: int, c: Canvas)
    requires
        0 <= min,
        max <= usize::MAX,
        end <= usize::MAX + 1,
    ensures
        Canvas::rows(min, max, end).contains(c) <==> (min <= c.width <= max && min <= c.height
            < end),
    decreases end - min,
{
    if end > min {
        lemma_rows(min, max, end - 1, c);
        lemma_row(min, max + 1, end - 1, c);
        let above = Canvas::rows(min, max, end - 1);
        let last = Canvas::row(min, max + 1, end - 1);
        let all = above + last;
        if above.contains(c) {
            assert(all[above.index_of(c)] == c);
        }
        if last.contains(c) {
            assert(all[above.len() + last.index_of(c)] == c);
        }
        if all.contains(c) {
            let k = all.index_of(c);
            if k < above.len() {
                assert(above[k] == c);
            } else {
                assert(last[k - above.len()] == c);
            }
        }
    }
}

/// A family of factory layouts.
#[derive(Debug, Clone, Copy, PartialEq, Eq, Structural)]
pub enum LessonKind {
    /// Source, belts, sink.
    MoveOneItem,
    /// The same, with obstacles that the belts go round.
    MoveOneItemChaos,
    /// Source, inserter, machine, inserter, sink in a row.
    AssemblerLine,
    /// The same craft with obstacles, and with belts that are routed.
    AssemblerChaos,
    /// One machine fed with every ingredient of its recipe directly.
    DirectRecipe,
    /// Belts that tunnel under a wall.
    UndergroundCross,
    /// Up to [`BANK_LINES`] parallel machine lines that share a sink.
    AssemblerBank,
    /// Copper plate to cable to circuit, which iron plate joins.
    CircuitLine,
    /// One source, split between up to [`SHARED_LINES`] machines.
    SharedLine,
}

/// Parallel lines that an [`LessonKind::AssemblerBank`] has room for.
pub const BANK_LINES: usize = 3;

/// Machines that a [`LessonKind::SharedLine`] has room for.
pub const SHARED_LINES: usize = 2;

/// Shortest side of the canvases in the default pool.
pub const DEFAULT_CANVAS_MIN: usize = 9;

/// Longest side of the canvases in the default pool.
pub const DEFAULT_CANVAS_MAX: usize = 15;

/// Columns of a crafting line: source, inserter, the machine's three, inserter,
/// sink.
pub const LINE_W: usize = 7;

/// Rows of a crafting line: the machine's three.
pub const LINE_H: usize = 3;

/// Columns of a direct recipe.
pub const DIRECT_W: usize = 7;

/// Rows of a direct recipe: two for the feed from the north and the machine's
/// three.
pub const DIRECT_H: usize = 5;

/// Columns of a circuit line.
pub const CIRCUIT_W: usize = 11;

/// Rows of a circuit line.
pub const CIRCUIT_H: usize = 5;

/// Cable inserters that a circuit line has room for.
pub const CABLE_FEEDS: usize = 3;

/// Columns of a shared line.
pub const SHARED_W: usize = 11;

/// Rows of a shared line.
pub const SHARED_H: usize = 7;

impl LessonKind {
    /// Every family, in the order of the curriculum.
    pub open spec fn listing() -> Seq<LessonKind> {
        seq![
            LessonKind::MoveOneItem,
            LessonKind::MoveOneItemChaos,
            LessonKind::AssemblerLine,
            LessonKind::AssemblerChaos,
            LessonKind::DirectRecipe,
            LessonKind::UndergroundCross,
            LessonKind::AssemblerBank,
            LessonKind::CircuitLine,
            LessonKind::SharedLine,
        ]
    }

    /// Every family, in the order of the curriculum.
    pub fn all() -> (r: Vec<LessonKind>)
        ensures
            r@ == LessonKind::listing(),
    {
        vec![
            LessonKind::MoveOneItem,
            LessonKind::MoveOneItemChaos,
            LessonKind::AssemblerLine,
            LessonKind::AssemblerChaos,
            LessonKind::DirectRecipe,
            LessonKind::UndergroundCross,
            LessonKind::AssemblerBank,
            LessonKind::CircuitLine,
            LessonKind::SharedLine,
        ]
    }

    pub open spec fn title(self) -> Seq<char> {
        match self {
            LessonKind::MoveOneItem => "MOVE_ONE_ITEM"@,
            LessonKind::MoveOneItemChaos => "MOVE_ONE_ITEM_CHAOS"@,
            LessonKind::AssemblerLine => "ASSEMBLER_LINE"@,
            LessonKind::AssemblerChaos => "ASSEMBLER_CHAOS"@,
            LessonKind::DirectRecipe => "DIRECT_RECIPE"@,
            LessonKind::UndergroundCross => "UNDERGROUND_CROSS"@,
            LessonKind::AssemblerBank => "ASSEMBLER_BANK"@,
            LessonKind::CircuitLine => "CIRCUIT_LINE"@,
            LessonKind::SharedLine => "SHARED_LINE"@,
        }
    }

    /// The name of the family.
    pub fn name(self) -> (r: &'static str)
        ensures
            r@ == self.title(),
    {
        match self {
            LessonKind::MoveOneItem => "MOVE_ONE_ITEM",
            LessonKind::MoveOneItemChaos => "MOVE_ONE_ITEM_CHAOS",
            LessonKind::AssemblerLine => "ASSEMBLER_LINE",
            LessonKind::AssemblerChaos => "ASSEMBLER_CHAOS",
            LessonKind::DirectRecipe => "DIRECT_RECIPE",
            LessonKind::UndergroundCross => "UNDERGROUND_CROSS",
            LessonKind::AssemblerBank => "ASSEMBLER_BANK",
            LessonKind::CircuitLine => "CIRCUIT_LINE",
            LessonKind::SharedLine => "SHARED_LINE",
        }
    }

    /// The smallest canvas the family fits on.
    pub open spec fn needs(self) -> Canvas {
        match self {
            LessonKind::MoveOneItem | LessonKind::MoveOneItemChaos => Canvas {
                width: 3,
                height: 3,
            },
            LessonKind::AssemblerLine => Canvas { width: LINE_W, height: LINE_H },
            LessonKind::AssemblerChaos => Canvas { width: 7, height: 7 },
            LessonKind::DirectRecipe => Canvas { width: DIRECT_W, height: DIRECT_H },
            LessonKind::UndergroundCross => Canvas { width: 7, height: 1 },
            LessonKind::AssemblerBank => Canvas { width: LINE_W, height: 9 },
            LessonKind::CircuitLine => Canvas { width: CIRCUIT_W, height: CIRCUIT_H },
            LessonKind::SharedLine => Canvas { width: SHARED_W, height: SHARED_H },
        }
    }

    /// The smallest canvas the family fits on. Width and height are stated
    /// separately because most lessons are not square.
    pub fn min_canvas(self) -> (r: Canvas)
        ensures
            r == self.needs(),
    {
        match self {
            LessonKind::MoveOneItem | LessonKind::MoveOneItemChaos => Canvas::square(3),
            LessonKind::AssemblerLine => Canvas::new(LINE_W, LINE_H),
            LessonKind::AssemblerChaos => Canvas::square(7),
            LessonKind::DirectRecipe => Canvas::new(DIRECT_W, DIRECT_H),
            LessonKind::UndergroundCross => Canvas::new(7, 1),
            LessonKind::AssemblerBank => Canvas::new(LINE_W, LINE_H * BANK_LINES),
            LessonKind::CircuitLine => Canvas::new(CIRCUIT_W, CIRCUIT_H),
            LessonKind::SharedLine => Canvas::new(SHARED_W, SHARED_H),
        }
    }

    pub open spec fn fits_on(self, canvas: Canvas) -> bool {
        canvas.width >= self.needs().width && canvas.height >= self.needs().height
    }

    /// Whether the family can be laid out on `canvas` at all.
    pub fn fits(self, canvas: Canvas) -> (r: bool)
        ensures
            r == self.fits_on(canvas),
    {
        let need = self.min_canvas();
        canvas.width >= need.width && canvas.height >= need.height
    }

    /// Whether a task of the family has more than one right answer.
    pub fn is_ambiguous(self) -> (r: bool)
        ensures
            r == (self is AssemblerBank || self is CircuitLine || self is SharedLine),
    {
        matches!(
            self,
            LessonKind::AssemblerBank | LessonKind::CircuitLine | LessonKind::SharedLine
        )
    }
}

/// The list of families leaves none out and names none twice.
pub proof fn law_every_family_is_listed_once(kind: LessonKind)
    ensures
        LessonKind::listing().contains(kind),
        LessonKind::listing().no_duplicates(),
{
    let all = LessonKind::listing();
    assert(all[0] is MoveOneItem && all[1] is MoveOneItemChaos && all[2] is AssemblerLine
        && all[3] is AssemblerChaos && all[4] is DirectRecipe && all[5] is UndergroundCross
        && all[6] is AssemblerBank && all[7] is CircuitLine && all[8] is SharedLine);
}

/// What each family needs: the rectangle of its layout, three tiles a side for a run of
/// belts, and seven for a machine with its belts around it.
pub proof fn law_what_each_family_needs(kind: LessonKind, canvas: Canvas)
    ensures
        kind.fits_on(canvas) <==> match kind {
            LessonKind::MoveOneItem | LessonKind::MoveOneItemChaos => canvas.width >= 3
                && canvas.height >= 3,
            LessonKind::AssemblerLine => canvas.width >= 7 && canvas.height >= 3,
            LessonKind::AssemblerChaos => canvas.width >= 7 && canvas.height >= 7,
            LessonKind::DirectRecipe => canvas.width >= 7 && canvas.height >= 5,
            LessonKind::UndergroundCross => canvas.width >= 7 && canvas.height >= 1,
            LessonKind::AssemblerBank => canvas.width >= 7 && canvas.height >= 9,
            LessonKind::CircuitLine => canvas.width >= 11 && canvas.height >= 5,
            LessonKind::SharedLine => canvas.width >= 11 && canvas.height >= 7,
        },
{
}

/// A family fits on every canvas that is no smaller in either way than one it fits on, and
/// on the canvas it needs.
pub proof fn law_what_fits_fits_on_more(kind: LessonKind, small: Canvas, large: Canvas)
    requires
        kind.fits_on(small),
        small.width <= large.width,
        small.height <= large.height,
    ensures
        kind.fits_on(large),
        kind.fits_on(kind.needs()),
        kind.needs().width <= small.width && kind.needs().height <= small.height,
{
}

proof fn lemma_row_in_order(min: int, end: int, height: int, i: int, j: int)
    requires
        0 <= min,
        end <= usize::MAX + 1,
        0 <= height <= usize::MAX,
        0 <= i < j < Canvas::row(min, end, height).len(),
    ensures
        Canvas::row(min, end, height)[i].width < Canvas::row(min, end, height)[j].width,
    decreases end - min,
{
    let before = Canvas::row(min, end - 1, height);
    if j < before.len() {
        lemma_row_in_order(min, end - 1, height, i, j);
    } else {
        lemma_row(min, end - 1, height, before[i]);
        assert(before.contains(before[i]));
    }
}

proof fn lemma_rows_in_order(min: int, max: int, end: int, i: int, j: int)
    requires
        0 <= min,
        max <= usize::MAX,
        end <= usize::MAX + 1,
        0 <= i < j < Canvas::rows(min, max, end).len(),
    ensures
        ({
            let (a, b) = (Canvas::rows(min, max, end)[i], Canvas::rows(min, max, end)[j]);
            a.height < b.height || a.height == b.height && a.width < b.width
        }),
    decreases end - min,
{
    let before = Canvas::rows(min, max, end - 1);
    let last = Canvas::row(min, max + 1, end - 1);
    if j < before.len() {
        lemma_rows_in_order(min, max, end - 1, i, j);
    } else {
        let b = last[j - before.len()];
        lemma_row(min, max + 1, end - 1, b);
        assert(last.contains(b));
        if i < before.len() {
            lemma_rows(min, max, end - 1, before[i]);
            assert(before.contains(before[i]));
        } else {
            let a = last[i - before.len()];
            lemma_row(min, max + 1, end - 1, a);
            assert(last.contains(a));
            lemma_row_in_order(min, max + 1, end - 1, i - before.len(), j - before.len());
        }
    }
}

/// The pool lists its canvases by height, and those of one height by width, each once.
pub proof fn law_the_pool_is_in_order(min: usize, max: usize, i: int, j: int)
    requires
        0 <= i < j < Canvas::rows(min as int, max as int, max + 1).len(),
    ensures
        ({
            let all = Canvas::rows(min as int, max as int, max + 1);
            all[i].height < all[j].height || all[i].height == all[j].height && all[i].width
                < all[j].width
        }),
{
    lemma_rows_in_order(min as int, max as int, max + 1, i, j);
}

/// The names of the families, each its own.
pub proof fn law_what_families_are_called(kind: LessonKind)
    ensures
        kind.title() == (match kind {
            LessonKind::MoveOneItem => "MOVE_ONE_ITEM",
            LessonKind::MoveOneItemChaos => "MOVE_ONE_ITEM_CHAOS",
            LessonKind::AssemblerLine => "ASSEMBLER_LINE",
            LessonKind::AssemblerChaos => "ASSEMBLER_CHAOS",
            LessonKind::DirectRecipe => "DIRECT_RECIPE",
            LessonKind::UndergroundCross => "UNDERGROUND_CROSS",
            LessonKind::AssemblerBank => "ASSEMBLER_BANK",
            LessonKind::CircuitLine => "CIRCUIT_LINE",
            LessonKind::SharedLine => "SHARED_LINE",
        })@,
{
}

} // verus!
