//! The stream of batches that a run is trained on.

use vstd::prelude::*;
use crate::factory_gen::canvas::Canvas;
use crate::factory_gen::lesson;
use crate::factory_gen::lesson::SampleView;
use crate::random::RandomStream;
use crate::train;
use crate::train::{draw_canvas, train_batch};
use crate::world::{Entity, Grid};

verus! {

/// Where a run stands in its data: the stream that picks shapes and families, and the
/// next seed for a lesson.
#[derive(Clone, Copy, Debug, PartialEq, Eq, Structural)]
pub struct Feed {
    pub rng: RandomStream,
    pub seed_ctr: u64,
}

/// One batch: whole factories of one shape, and which of their cells are always shown.
#[derive(Debug)]
pub struct TrainBatch {
    pub canvas: Canvas,
    pub grids: Vec<Grid>,
    pub observed: Vec<Vec<bool>>,
}

/// Which cells of a lesson are always shown: the sources and sinks, or all that the lesson
/// protects.
pub open spec fn shown_cells(s: SampleView, protected: bool) -> Seq<bool> {
    if protected {
        train::always_seen(s)
    } else {
        Seq::new(s.solution.cells.len(), |i: int| lesson::is_port(s.solution.cells[i]))
    }
}

/// The canvas that the next batch is drawn on, its lessons, and where the feed stands
/// after it.
pub open spec fn next_lessons(feed: Feed, canvases: Seq<Canvas>, batch: nat) -> (
    Canvas,
    Option<Seq<SampleView>>,
    Feed,
) {
    let (k, r) = feed.rng.roll(canvases.len() as int);
    let canvas = canvases[k];
    let (lessons, rng, seed_ctr) = train::drawn_batch(canvas, batch, r, feed.seed_ctr);
    (canvas, lessons, Feed { rng, seed_ctr })
}

/// Whether a batch holds the given lessons.
pub open spec fn batch_of(
    b: TrainBatch,
    canvas: Canvas,
    lessons: Seq<SampleView>,
    protected: bool,
) -> bool {
    &&& b.canvas == canvas
    &&& b.grids@.len() == lessons.len()
    &&& b.observed@.len() == lessons.len()
    &&& forall|i: int| 0 <= i < lessons.len() ==> (#[trigger] b.grids@[i])@ == lessons[i].solution
    &&& forall|i: int|
        0 <= i < lessons.len() ==> (#[trigger] b.observed@[i])@ == shown_cells(
            lessons[i],
            protected,
        )
    &&& forall|i: int|
        0 <= i < lessons.len() ==> (#[trigger] lessons[i]).sound() && lessons[i].solution.width
            == canvas.width && lessons[i].solution.height == canvas.height
}

fn port_flags(g: &Grid) -> (r: Vec<bool>)
    ensures
        r@ == Seq::new(g@.cells.len(), |i: int| lesson::is_port(g@.cells[i])),
{
    let mut flags: Vec<bool> = Vec::new();
    let mut i: usize = 0;
    while i < g.cells.len()
        invariant
            i <= g.cells@.len(),
            flags@.len() == i,
            forall|j: int| 0 <= j < i ==> #[trigger] flags@[j] == lesson::is_port(g@.cells[j]),
        decreases g.cells@.len() - i,
    {
        flags.push(matches!(g.cells[i].entity, Entity::Source | Entity::Sink));
        i = i + 1;
    }
    assert(flags@ =~= Seq::new(g@.cells.len(), |i: int| lesson::is_port(g@.cells[i])));
    flags
}

fn all_port_flags(grids: &Vec<Grid>) -> (r: Vec<Vec<bool>>)
    ensures
        r@.len() == grids@.len(),
        forall|i: int|
            0 <= i < grids@.len() ==> (#[trigger] r@[i])@ == Seq::new(
                grids@[i]@.cells.len(),
                |c: int| lesson::is_port(grids@[i]@.cells[c]),
            ),
{
    let mut out: Vec<Vec<bool>> = Vec::new();
    let mut i: usize = 0;
    while i < grids.len()
        invariant
            i <= grids@.len(),
            out@.len() == i,
            forall|j: int|
                0 <= j < i ==> (#[trigger] out@[j])@ == Seq::new(
                    grids@[j]@.cells.len(),
                    |c: int| lesson::is_port(grids@[j]@.cells[c]),
                ),
        decreases grids@.len() - i,
    {
        out.push(port_flags(&grids[i]));
        i = i + 1;
    }
    out
}

impl Feed {
    /// The data of a run, from its beginning.
    pub fn start(seed: u64) -> (r: Feed)
        ensures
            r == (Feed { rng: RandomStream::of(seed ^ 0xA11CE), seed_ctr: 0 }),
    {
        Feed { rng: RandomStream::seed_from_u64(seed ^ 0xA11CE), seed_ctr: 0 }
    }

    /// The next batch, all on one shape that is drawn from the pool. There is none once the
    /// seeds run out.
    pub fn next_batch(&mut self, canvases: &Vec<Canvas>, batch: usize, protected: bool) -> (r: Option<
        TrainBatch,
    >)
        requires
            canvases@.len() > 0,
            forall|c: int| 0 <= c < canvases@.len() ==> train::drawable(#[trigger] canvases@[c]),
            forall|c: int|
                0 <= c < canvases@.len() ==> train::feasible(#[trigger] canvases@[c]).len() > 0,
        ensures
            ({
                let (canvas, lessons, after) = next_lessons(*old(self), canvases@, batch as nat);
                &&& r is Some <==> lessons is Some
                &&& *final(self) == after
                &&& r matches Some(b) ==> lessons->0.len() == batch && batch_of(
                    b,
                    canvas,
                    lessons->0,
                    protected,
                )
            }),
    {
        let canvas = draw_canvas(canvases, &mut self.rng);
        match train_batch(canvas, batch, &mut self.rng, &mut self.seed_ctr) {
            None => None,
            Some((grids, flags)) => {
                let observed = if protected {
                    flags
                } else {
                    all_port_flags(&grids)
                };
                Some(TrainBatch { canvas, grids, observed })
            },
        }
    }
}

} // verus!
