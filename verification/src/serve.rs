//! Tasks posed by hand: what a painted task is, when it is refused, and how the answer
//! is shown.

use vstd::prelude::*;
use crate::text;
use crate::viewer;
use crate::viewer::grid_to_svg;
use crate::world;
use crate::world::grid;
use crate::world::grid::GridView;
use crate::world::{Cell, Direction, Entity, Grid, Item, Misc};

pub mod http;
pub mod laws;

verus! {

/// Longest side of a grid that a task may ask for.
pub const MAX_SIDE: usize = 32;

/// Shortest side of a grid worth posing: a machine and a tile of room on either side.
pub const MIN_SIDE: usize = 5;

/// Most draws that a task may ask for.
pub const MAX_CANDIDATES: usize = 32;

/// Most rounds that a task may ask for.
pub const MAX_STEPS: usize = 64;

/// One cell that is held fixed. Everything else is the model's to fill.
#[derive(Debug, Clone, Copy, PartialEq, Eq, Structural)]
pub struct Pin {
    pub x: usize,
    pub y: usize,
    pub entity: Entity,
    pub direction: Direction,
    pub item: Item,
    pub misc: Misc,
}

/// A task posed at runtime: a rectangle, the cells that are pinned, the terrain to build
/// around, and how hard to try.
#[derive(Debug, Clone, PartialEq, Eq)]
pub struct TaskSpec {
    pub width: usize,
    pub height: usize,
    pub pins: Vec<Pin>,
    pub obstacles: Vec<[usize; 2]>,
    pub candidates: usize,
    pub steps: usize,
    pub seed: u64,
}

/// Why a task is refused.
#[derive(Debug, Clone, Copy, PartialEq, Eq, Structural)]
pub enum SpecError {
    Size { side: usize },
    OutOfBounds { x: usize, y: usize },
    Overlap { x: usize, y: usize },
    NoSource,
    NoSink,
    Unbuildable,
}

impl SpecError {
    /// The reason in words.
    pub open spec fn words(self) -> Seq<char> {
        match self {
            SpecError::Size { side } => "grid sides must be 5..=32 tiles, got "@ + text::decimal(
                side as nat,
            ),
            SpecError::OutOfBounds { x, y } => "("@ + text::decimal(x as nat) + ", "@
                + text::decimal(y as nat) + ") is outside the grid"@,
            SpecError::Overlap { x, y } => "("@ + text::decimal(x as nat) + ", "@ + text::decimal(
                y as nat,
            ) + ") is pinned twice"@,
            SpecError::NoSource => "pin at least one Source: the model needs an input"@,
            SpecError::NoSink => "pin at least one Sink: the model needs somewhere to deliver"@,
            SpecError::Unbuildable =>
                "the pinned cells overlap each other's footprints, so no legal factory contains them"@,
        }
    }

    /// The reason in words.
    pub fn message(&self) -> (r: String)
        ensures
            r@ == self.words(),
    {
        match *self {
            SpecError::Size { side } => {
                let mut s = text::begin("grid sides must be 5..=32 tiles, got ");
                text::push_number(&mut s, side);
                s
            },
            SpecError::OutOfBounds { x, y } => {
                let mut s = text::begin("(");
                text::push_number(&mut s, x);
                text::push(&mut s, ", ");
                text::push_number(&mut s, y);
                text::push(&mut s, ") is outside the grid");
                s
            },
            SpecError::Overlap { x, y } => {
                let mut s = text::begin("(");
                text::push_number(&mut s, x);
                text::push(&mut s, ", ");
                text::push_number(&mut s, y);
                text::push(&mut s, ") is pinned twice");
                s
            },
            SpecError::NoSource => text::begin("pin at least one Source: the model needs an input"),
            SpecError::NoSink => text::begin(
                "pin at least one Sink: the model needs somewhere to deliver",
            ),
            SpecError::Unbuildable => text::begin(
                "the pinned cells overlap each other's footprints, so no legal factory contains them",
            ),
        }
    }
}

impl Pin {
    /// The cell that is pinned.
    pub open spec fn holds(self) -> Cell {
        Cell { entity: self.entity, direction: self.direction, item: self.item, misc: self.misc }
    }
}

/// Whether a side can be asked for.
pub open spec fn side_ok(side: usize) -> bool {
    MIN_SIDE <= side <= MAX_SIDE
}

impl TaskSpec {
    pub open spec fn on_grid(self, x: usize, y: usize) -> bool {
        x < self.width && y < self.height
    }

    /// Whether pin `i` lies where an earlier one does.
    pub open spec fn repeats(self, i: int) -> bool {
        exists|j: int|
            0 <= j < i && (#[trigger] self.pins@[j]).x == self.pins@[i].x && self.pins@[j].y
                == self.pins@[i].y
    }

    /// What is wrong with the first `k` obstacles.
    pub open spec fn obstacle_error(self, k: nat) -> Option<SpecError>
        decreases k,
    {
        if k == 0 {
            None
        } else if self.obstacle_error((k - 1) as nat) is Some {
            self.obstacle_error((k - 1) as nat)
        } else {
            let o = self.obstacles@[k - 1];
            if self.on_grid(o@[0], o@[1]) {
                None
            } else {
                Some(SpecError::OutOfBounds { x: o@[0], y: o@[1] })
            }
        }
    }

    /// What is wrong with the first `k` pins.
    pub open spec fn pin_error(self, k: nat) -> Option<SpecError>
        decreases k,
    {
        if k == 0 {
            None
        } else if self.pin_error((k - 1) as nat) is Some {
            self.pin_error((k - 1) as nat)
        } else {
            let p = self.pins@[k - 1];
            if !self.on_grid(p.x, p.y) {
                Some(SpecError::OutOfBounds { x: p.x, y: p.y })
            } else if self.repeats(k - 1) {
                Some(SpecError::Overlap { x: p.x, y: p.y })
            } else {
                None
            }
        }
    }

    /// The empty grid with the first `k` obstacles.
    pub open spec fn terrain(self, k: nat) -> GridView
        decreases k,
    {
        if k == 0 {
            GridView::blank(self.width as nat, self.height as nat)
        } else {
            let o = self.obstacles@[k - 1];
            self.terrain((k - 1) as nat).block(o@[0] as int, o@[1] as int, true)
        }
    }

    /// The grid with its obstacles and the first `k` pins.
    pub open spec fn painted(self, k: nat) -> GridView
        decreases k,
    {
        if k == 0 {
            self.terrain(self.obstacles@.len())
        } else {
            let p = self.pins@[k - 1];
            self.painted((k - 1) as nat).put(p.x as int, p.y as int, p.holds())
        }
    }

    /// The grid of the task.
    pub open spec fn grid(self) -> GridView {
        self.painted(self.pins@.len())
    }

    /// Which cells are given: those that are pinned.
    pub open spec fn given(self) -> Seq<bool> {
        Seq::new(
            (self.width * self.height) as nat,
            |s: int|
                exists|i: int|
                    0 <= i < self.pins@.len() && self.slot_of(i) == s,
        )
    }

    /// Where a pin lands.
    pub open spec fn slot_of(self, i: int) -> int {
        self.pins@[i].y * self.width + self.pins@[i].x
    }

    /// Whether some cell of the grid holds an entity of one kind.
    pub open spec fn has(self, e: Entity) -> bool {
        exists|s: int| 0 <= s < self.grid().cells.len() && (#[trigger] self.grid().cells[s]).entity == e
    }

    /// Why the task is refused, if it is: a side out of range, the first obstacle off the
    /// grid, the first pin off the grid or on another, no source, no sink, or pins whose
    /// footprints cannot all stand.
    pub open spec fn refusal(self) -> Option<SpecError> {
        if !side_ok(self.width) {
            Some(SpecError::Size { side: self.width })
        } else if !side_ok(self.height) {
            Some(SpecError::Size { side: self.height })
        } else if self.obstacle_error(self.obstacles@.len()) is Some {
            self.obstacle_error(self.obstacles@.len())
        } else if self.pin_error(self.pins@.len()) is Some {
            self.pin_error(self.pins@.len())
        } else if !self.has(Entity::Source) {
            Some(SpecError::NoSource)
        } else if !self.has(Entity::Sink) {
            Some(SpecError::NoSink)
        } else if !self.grid().legal() {
            Some(SpecError::Unbuildable)
        } else {
            None
        }
    }
}

/// A pin carries no direction where none is given.
pub fn no_direction() -> (r: Direction)
    ensures
        r is Nowhere,
{
    Direction::Nowhere
}

/// A pin carries no item where none is given.
pub fn no_item() -> (r: Item)
    ensures
        r is Nothing,
{
    Item::Nothing
}

/// A pin carries no tag where none is given.
pub fn no_misc() -> (r: Misc)
    ensures
        r is Untagged,
{
    Misc::Untagged
}

/// Draws where a task does not say how many.
pub fn default_candidates() -> (r: usize)
    ensures
        r == 8,
{
    8
}

/// Rounds where a task does not say how many.
pub fn default_steps() -> (r: usize)
    ensures
        r == 12,
{
    12
}

/// A number brought into a range that starts at one.
pub open spec fn clamped(n: usize, max: usize) -> usize {
    if n < 1 {
        1
    } else if n > max {
        max
    } else {
        n
    }
}

fn clamp_from_one(n: usize, max: usize) -> (r: usize)
    ensures
        r == clamped(n, max),
{
    if n < 1 {
        1
    } else if n > max {
        max
    } else {
        n
    }
}

/// An error about the first entries stays an error about all.
pub proof fn lemma_first_obstacle_error(spec: TaskSpec, i: nat, k: nat)
    requires
        i <= k,
        spec.obstacle_error(i) is Some,
    ensures
        spec.obstacle_error(k) == spec.obstacle_error(i),
    decreases k,
{
    if i < k {
        lemma_first_obstacle_error(spec, i, (k - 1) as nat);
    }
}

/// An error about the first pins stays an error about all.
pub proof fn lemma_first_pin_error(spec: TaskSpec, i: nat, k: nat)
    requires
        i <= k,
        spec.pin_error(i) is Some,
    ensures
        spec.pin_error(k) == spec.pin_error(i),
    decreases k,
{
    if i < k {
        lemma_first_pin_error(spec, i, (k - 1) as nat);
    }
}

fn holds_entity(g: &Grid, e: Entity) -> (r: bool)
    ensures
        r <==> exists|s: int| 0 <= s < g@.cells.len() && (#[trigger] g@.cells[s]).entity == e,
{
    let mut i: usize = 0;
    while i < g.cells.len()
        invariant
            i <= g.cells@.len(),
            forall|s: int| 0 <= s < i ==> (#[trigger] g@.cells[s]).entity != e,
        decreases g.cells@.len() - i,
    {
        if g.cells[i].entity == e {
            assert(g@.cells[i as int].entity == e);
            return true;
        }
        i = i + 1;
    }
    false
}

impl TaskSpec {
    /// How many draws the task gets.
    pub fn draws(&self) -> (r: usize)
        ensures
            r == clamped(self.candidates, MAX_CANDIDATES),
            1 <= r <= 32,
            1 <= self.candidates <= 32 ==> r == self.candidates,
    {
        clamp_from_one(self.candidates, MAX_CANDIDATES)
    }

    /// How many rounds the task gets.
    pub fn rounds(&self) -> (r: usize)
        ensures
            r == clamped(self.steps, MAX_STEPS),
            1 <= r <= 64,
            1 <= self.steps <= 64 ==> r == self.steps,
    {
        clamp_from_one(self.steps, MAX_STEPS)
    }

    fn add_obstacles(&self, g: &mut Grid) -> (r: Option<SpecError>)
        requires
            side_ok(self.width),
            side_ok(self.height),
            old(g).wf(),
            old(g)@ == self.terrain(0),
        ensures
            r == self.obstacle_error(self.obstacles@.len()),
            r is None ==> final(g).wf() && final(g)@ == self.terrain(self.obstacles@.len()),
    {
        let mut i: usize = 0;
        while i < self.obstacles.len()
            invariant
                i <= self.obstacles@.len(),
                g.wf(),
                g@.width == self.width,
                g@.height == self.height,
                g@ == self.terrain(i as nat),
                self.obstacle_error(i as nat) is None,
            decreases self.obstacles@.len() - i,
        {
            let o = self.obstacles[i];
            let x = o[0];
            let y = o[1];
            if x >= self.width || y >= self.height {
                proof {
                    lemma_first_obstacle_error(*self, i as nat + 1, self.obstacles@.len());
                }
                return Some(SpecError::OutOfBounds { x, y });
            }
            proof {
                grid::lemma_slot(g@, x as int, y as int);
            }
            g.set_obstacle(x, y, true);
            i = i + 1;
        }
        None
    }

    fn add_pins(&self, g: &mut Grid, observed: &mut Vec<bool>) -> (r: Option<SpecError>)
        requires
            side_ok(self.width),
            side_ok(self.height),
            old(g).wf(),
            old(g)@ == self.painted(0),
            old(g)@.width == self.width,
            old(g)@.height == self.height,
            old(observed)@ == Seq::new((self.width * self.height) as nat, |s: int| false),
        ensures
            r == self.pin_error(self.pins@.len()),
            r is None ==> final(g).wf() && final(g)@ == self.grid() && final(observed)@
                == self.given(),
    {
        let ghost n = (self.width * self.height) as nat;
        let mut i: usize = 0;
        while i < self.pins.len()
            invariant
                side_ok(self.width),
                side_ok(self.height),
                n == self.width * self.height,
                i <= self.pins@.len(),
                g.wf(),
                g@.width == self.width,
                g@.height == self.height,
                g@ == self.painted(i as nat),
                observed@.len() == n,
                forall|s: int|
                    0 <= s < n ==> (#[trigger] observed@[s] <==> exists|j: int|
                        0 <= j < i && self.slot_of(j) == s),
                forall|j: int| 0 <= j < i ==> self.on_grid((#[trigger] self.pins@[j]).x, self.pins@[j].y),
                self.pin_error(i as nat) is None,
            decreases self.pins@.len() - i,
        {
            let pin = self.pins[i];
            if pin.x >= self.width || pin.y >= self.height {
                proof {
                    lemma_first_pin_error(*self, i as nat + 1, self.pins@.len());
                }
                return Some(SpecError::OutOfBounds { x: pin.x, y: pin.y });
            }
            proof {
                grid::lemma_slot(g@, pin.x as int, pin.y as int);
            }
            assert(g.cells.len() <= usize::MAX);
            let slot = g.idx(pin.x, pin.y);
            assert(slot == self.slot_of(i as int));
            if observed[slot] {
                proof {
                    let j = choose|j: int| 0 <= j < i && self.slot_of(j) == slot;
                    grid::lemma_slot_injective(
                        g@,
                        self.pins@[j].x as int,
                        self.pins@[j].y as int,
                        pin.x as int,
                        pin.y as int,
                    );
                    assert(self.repeats(i as int));
                    lemma_first_pin_error(*self, i as nat + 1, self.pins@.len());
                }
                return Some(SpecError::Overlap { x: pin.x, y: pin.y });
            }
            proof {
                assert forall|j: int| 0 <= j < i implies !((#[trigger] self.pins@[j]).x == pin.x
                    && self.pins@[j].y == pin.y) by {
                    if self.pins@[j].x == pin.x && self.pins@[j].y == pin.y {
                        assert(self.slot_of(j) == slot);
                    }
                }
                assert(!self.repeats(i as int));
            }
            let ghost before = observed@;
            observed.set(slot, true);
            g.set(
                pin.x,
                pin.y,
                Cell {
                    entity: pin.entity,
                    direction: pin.direction,
                    item: pin.item,
                    misc: pin.misc,
                },
            );
            proof {
                assert forall|s: int| 0 <= s < n implies (#[trigger] observed@[s] <==> exists|j: int|
                    0 <= j < i + 1 && self.slot_of(j) == s) by {
                    if s == slot {
                        assert(self.slot_of(i as int) == s);
                    } else {
                        assert(observed@[s] == before[s]);
                        if before[s] {
                            let j = choose|j: int| 0 <= j < i && self.slot_of(j) == s;
                            assert(self.slot_of(j) == s);
                        }
                    }
                }
            }
            i = i + 1;
        }
        assert(observed@ =~= self.given());
        None
    }

    /// Turn a painted task into the partial factory and the flags of its given cells, or
    /// say why it cannot be one. The pinned cells are given, and all others are not, the
    /// blocked ones included.
    pub fn to_task(&self) -> (r: Result<(Grid, Vec<bool>), SpecError>)
        ensures
            r matches Err(e) ==> self.refusal() == Some(e),
            r matches Ok(t) ==> self.refusal() is None && t.0.wf() && t.0@ == self.grid() && t.1@
                == self.given(),
    {
        if self.width < MIN_SIDE || self.width > MAX_SIDE {
            return Err(SpecError::Size { side: self.width });
        }
        if self.height < MIN_SIDE || self.height > MAX_SIDE {
            return Err(SpecError::Size { side: self.height });
        }
        assert(self.width * self.height <= MAX_SIDE * MAX_SIDE) by (nonlinear_arith)
            requires
                self.width <= MAX_SIDE,
                self.height <= MAX_SIDE,
        ;
        let mut g = Grid::new(self.width, self.height);
        if let Some(e) = self.add_obstacles(&mut g) {
            return Err(e);
        }
        proof {
            lemma_terrain_shape(*self, self.obstacles@.len());
        }
        let mut observed: Vec<bool> = vec![false; self.width * self.height];
        assert(observed@ =~= Seq::new((self.width * self.height) as nat, |s: int| false));
        if let Some(e) = self.add_pins(&mut g, &mut observed) {
            return Err(e);
        }
        if !holds_entity(&g, Entity::Source) {
            return Err(SpecError::NoSource);
        }
        if !holds_entity(&g, Entity::Sink) {
            return Err(SpecError::NoSink);
        }
        if !g.footprints_are_legal() {
            return Err(SpecError::Unbuildable);
        }
        Ok((g, observed))
    }
}

/// Obstacles leave the sides of the grid as they are.
proof fn lemma_terrain_shape(spec: TaskSpec, k: nat)
    ensures
        spec.terrain(k).width == spec.width,
        spec.terrain(k).height == spec.height,
    decreases k,
{
    if k > 0 {
        lemma_terrain_shape(spec, (k - 1) as nat);
    }
}

/// The grid as it stood after a round: the cells committed by then, and the terrain.
pub open spec fn frame(g: GridView, reveal_step: Seq<usize>, round: int) -> GridView {
    GridView {
        cells: Seq::new(
            g.cells.len(),
            |i: int|
                if i < reveal_step.len() && reveal_step[i] <= round {
                    g.cells[i]
                } else {
                    world::empty_cell()
                },
        ),
        ..g
    }
}

/// The last round in which a cell is committed.
pub open spec fn last_round(reveal_step: Seq<usize>) -> nat
    decreases reveal_step.len(),
{
    if reveal_step.len() == 0 {
        0
    } else {
        let before = last_round(reveal_step.drop_last());
        if reveal_step.last() > before {
            reveal_step.last() as nat
        } else {
            before
        }
    }
}

/// Rebuild the grid as it stood after a round. Cells that were not committed yet read as
/// empty, and the obstacles are there from the first frame.
pub fn frame_at(final_grid: &Grid, reveal_step: &[usize], round: usize) -> (r: Grid)
    requires
        final_grid.wf(),
        reveal_step@.len() <= final_grid@.cells.len(),
    ensures
        r.wf(),
        r@ == frame(final_grid@, reveal_step@, round as int),
{
    let ghost g = final_grid@;
    let mut cells: Vec<Cell> = Vec::new();
    let mut i: usize = 0;
    while i < final_grid.cells.len()
        invariant
            g == final_grid@,
            reveal_step@.len() <= g.cells.len(),
            i <= g.cells.len(),
            cells@.len() == i,
            forall|j: int|
                0 <= j < i ==> #[trigger] cells@[j] == frame(g, reveal_step@, round as int).cells[j],
        decreases g.cells.len() - i,
    {
        if i < reveal_step.len() && reveal_step[i] <= round {
            cells.push(final_grid.cells[i]);
        } else {
            cells.push(Cell::default());
        }
        i = i + 1;
    }
    let obstacle = final_grid.obstacle.clone();
    assert(obstacle@ =~= g.obstacle);
    let r = Grid { width: final_grid.width, height: final_grid.height, cells, obstacle };
    assert(r@ =~= frame(g, reveal_step@, round as int));
    r
}

fn last_of(reveal_step: &[usize]) -> (r: usize)
    ensures
        r == last_round(reveal_step@),
{
    let mut last: usize = 0;
    let mut i: usize = 0;
    while i < reveal_step.len()
        invariant
            i <= reveal_step@.len(),
            last == last_round(reveal_step@.take(i as int)),
        decreases reveal_step@.len() - i,
    {
        proof {
            let now = reveal_step@.take(i + 1);
            assert(now.drop_last() =~= reveal_step@.take(i as int));
            assert(now.last() == reveal_step@[i as int]);
        }
        if reveal_step[i] > last {
            last = reveal_step[i];
        }
        i = i + 1;
    }
    assert(reveal_step@.take(i as int) =~= reveal_step@);
    last
}

/// One drawing for every round, from the given cells alone to the finished factory.
pub fn frames(grid: &Grid, reveal_step: &[usize]) -> (r: Vec<String>)
    requires
        grid.wf(),
        viewer::drawable(grid@),
        reveal_step@.len() <= grid@.cells.len(),
        last_round(reveal_step@) < usize::MAX,
    ensures
        r@.len() == last_round(reveal_step@) + 1,
        forall|k: int|
            0 <= k < r@.len() ==> (#[trigger] r@[k])@ == viewer::drawing(
                frame(grid@, reveal_step@, k),
            ),
{
    let last = last_of(reveal_step);
    let mut out: Vec<String> = Vec::new();
    let mut k: usize = 0;
    while k <= last
        invariant
            grid.wf(),
            viewer::drawable(grid@),
            reveal_step@.len() <= grid@.cells.len(),
            last < usize::MAX,
            k <= last + 1,
            out@.len() == k,
            forall|j: int|
                0 <= j < k ==> (#[trigger] out@[j])@ == viewer::drawing(
                    frame(grid@, reveal_step@, j),
                ),
        decreases last + 1 - k,
    {
        let still = frame_at(grid, reveal_step, k);
        out.push(grid_to_svg(&still));
        k = k + 1;
    }
    out
}

/// A task that is accepted gives the model its pins and nothing else.
pub proof fn law_only_pins_are_given(spec: TaskSpec, s: int)
    requires
        0 <= s < spec.width * spec.height,
    ensures
        spec.given()[s] <==> exists|i: int| 0 <= i < spec.pins@.len() && spec.slot_of(i) == s,
{
}

/// Every cell of a round's frame stays in the later ones.
pub proof fn law_frames_only_grow(g: GridView, reveal_step: Seq<usize>, r: int, later: int, i: int)
    requires
        r <= later,
        0 <= i < g.cells.len(),
        frame(g, reveal_step, r).cells[i].entity !is Empty,
    ensures
        frame(g, reveal_step, later).cells[i] == frame(g, reveal_step, r).cells[i],
{
}

/// The frame of the last round is the finished factory.
pub proof fn law_the_last_frame_is_the_factory(g: GridView, reveal_step: Seq<usize>)
    requires
        reveal_step.len() == g.cells.len(),
    ensures
        frame(g, reveal_step, last_round(reveal_step) as int) == g,
{
    lemma_last_round(reveal_step);
    assert(frame(g, reveal_step, last_round(reveal_step) as int) =~= g);
}

pub proof fn lemma_last_round(reveal_step: Seq<usize>)
    ensures
        forall|i: int| 0 <= i < reveal_step.len() ==> #[trigger] reveal_step[i] <= last_round(
            reveal_step,
        ),
    decreases reveal_step.len(),
{
    if reveal_step.len() > 0 {
        let before = reveal_step.drop_last();
        lemma_last_round(before);
        assert forall|i: int| 0 <= i < reveal_step.len() implies #[trigger] reveal_step[i]
            <= last_round(reveal_step) by {
            if i < before.len() {
                assert(reveal_step[i] == before[i]);
            }
        }
    }
}

} // verus!
