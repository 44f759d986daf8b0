//! What a training run is fed: which families of lessons, on which shapes, in which
//! order.

use vstd::prelude::*;
use crate::factory_gen::canvas::{Canvas, LessonKind};
use crate::factory_gen::generate;
use crate::factory_gen::generate::generate as generate_lesson;
use crate::factory_gen::lesson::{Sample, SampleView};
use crate::factory_gen::templates;
use crate::random::RandomStream;
use crate::text;
use crate::world::Grid;

pub mod feed;
pub mod grouping;
pub mod laws;
pub mod validation;

pub use feed::{Feed, TrainBatch};
pub use grouping::{gather, lesson_group, reassemble, shape_groups, ShapeGroup};
pub use validation::{build_evaluation_set, build_validation_set, ValidationSet};


verus! {

/// Those of the first `k` families that fit on a canvas, in the order of the curriculum.
pub open spec fn kinds_on(canvas: Canvas, k: nat) -> Seq<LessonKind>
    decreases k,
{
    if k == 0 {
        seq![]
    } else {
        let kind = LessonKind::listing()[k - 1];
        if kind.fits_on(canvas) {
            kinds_on(canvas, (k - 1) as nat).push(kind)
        } else {
            kinds_on(canvas, (k - 1) as nat)
        }
    }
}

/// The families that fit on a canvas.
pub open spec fn feasible(canvas: Canvas) -> Seq<LessonKind> {
    kinds_on(canvas, LessonKind::listing().len())
}

/// Whether a family fits on some canvas of a pool.
pub open spec fn fits_some(kind: LessonKind, canvases: Seq<Canvas>) -> bool {
    exists|c: int| 0 <= c < canvases.len() && kind.fits_on(#[trigger] canvases[c])
}

/// Those of the first `k` families that fit on some canvas of a pool.
pub open spec fn kinds_in(canvases: Seq<Canvas>, k: nat) -> Seq<LessonKind>
    decreases k,
{
    if k == 0 {
        seq![]
    } else {
        let kind = LessonKind::listing()[k - 1];
        if fits_some(kind, canvases) {
            kinds_in(canvases, (k - 1) as nat).push(kind)
        } else {
            kinds_in(canvases, (k - 1) as nat)
        }
    }
}

/// The families that fit on some canvas of a pool.
pub open spec fn curriculum(canvases: Seq<Canvas>) -> Seq<LessonKind> {
    kinds_in(canvases, LessonKind::listing().len())
}

/// Whether lessons can be drawn on a canvas: the board and the number of attempts fit a
/// machine word.
pub open spec fn drawable(canvas: Canvas) -> bool {
    canvas.holdable() && canvas.width * canvas.height * 40 <= usize::MAX
}

/// The lesson that a seed gives.
pub open spec fn lesson_of(kind: LessonKind, canvas: Canvas, seed: u64) -> Option<SampleView> {
    generate::first_lesson(kind, canvas, RandomStream::of(seed), generate::budget(canvas))
}

/// The first lesson of a random family that works, tried with one seed after the other,
/// and the stream and the next seed after it. There is none once the seeds run out.
pub open spec fn drawn(canvas: Canvas, r: RandomStream, seed: u64) -> (
    Option<SampleView>,
    RandomStream,
    u64,
)
    decreases u64::MAX - seed,
{
    if seed == u64::MAX {
        (None, r, seed)
    } else {
        let kinds = feasible(canvas);
        let (k, after) = r.roll(kinds.len() as int);
        let next = (seed + 1) as u64;
        match lesson_of(kinds[k], canvas, seed) {
            Some(s) => (Some(s), after, next),
            None => drawn(canvas, after, next),
        }
    }
}

/// The lessons of a batch of `n`, drawn one after the other, and the stream and the next
/// seed after them.
pub open spec fn drawn_batch(canvas: Canvas, n: nat, r: RandomStream, seed: u64) -> (
    Option<Seq<SampleView>>,
    RandomStream,
    u64,
)
    decreases n,
{
    if n == 0 {
        (Some(seq![]), r, seed)
    } else {
        let (before, r1, seed1) = drawn_batch(canvas, (n - 1) as nat, r, seed);
        match before {
            None => (None, r1, seed1),
            Some(lessons) => {
                let (s, r2, seed2) = drawn(canvas, r1, seed1);
                match s {
                    None => (None, r2, seed2),
                    Some(s) => (Some(lessons.push(s)), r2, seed2),
                }
            },
        }
    }
}

/// Which cells of a lesson a model always sees: the protected ones.
pub open spec fn always_seen(s: SampleView) -> Seq<bool> {
    Seq::new(s.solution.cells.len(), |i: int| s.protected.contains(i))
}

/// The canvas in words.
pub open spec fn canvas_text(c: Canvas) -> Seq<char> {
    text::decimal(c.width as nat) + "x"@ + text::decimal(c.height as nat)
}

/// Kinds that can be generated on a canvas. Width and height are asked for separately.
pub fn feasible_kinds(canvas: Canvas) -> (r: Vec<LessonKind>)
    ensures
        r@ == feasible(canvas),
{
    let all = LessonKind::all();
    let mut out: Vec<LessonKind> = Vec::new();
    let mut i: usize = 0;
    while i < all.len()
        invariant
            all@ == LessonKind::listing(),
            i <= all@.len(),
            out@ == kinds_on(canvas, i as nat),
        decreases all@.len() - i,
    {
        if all[i].fits(canvas) {
            out.push(all[i]);
        }
        i = i + 1;
    }
    out
}

fn fits_any(kind: LessonKind, canvases: &Vec<Canvas>) -> (r: bool)
    ensures
        r == fits_some(kind, canvases@),
{
    let mut i: usize = 0;
    while i < canvases.len()
        invariant
            i <= canvases@.len(),
            forall|j: int| 0 <= j < i ==> !kind.fits_on(#[trigger] canvases@[j]),
        decreases canvases@.len() - i,
    {
        if kind.fits(canvases[i]) {
            assert(kind.fits_on(canvases@[i as int]));
            return true;
        }
        i = i + 1;
    }
    false
}

/// Every kind that some canvas of the pool can hold.
pub fn curriculum_kinds(canvases: &Vec<Canvas>) -> (r: Vec<LessonKind>)
    ensures
        r@ == curriculum(canvases@),
{
    let all = LessonKind::all();
    let mut out: Vec<LessonKind> = Vec::new();
    let mut i: usize = 0;
    while i < all.len()
        invariant
            all@ == LessonKind::listing(),
            i <= all@.len(),
            out@ == kinds_in(canvases@, i as nat),
        decreases all@.len() - i,
    {
        if fits_any(all[i], canvases) {
            out.push(all[i]);
        }
        i = i + 1;
    }
    out
}

/// Draw a canvas from a pool.
pub fn draw_canvas(canvases: &Vec<Canvas>, rng: &mut RandomStream) -> (r: Canvas)
    requires
        canvases@.len() > 0,
    ensures
        ({
            let (k, after) = old(rng).roll(canvases@.len() as int);
            &&& 0 <= k < canvases@.len()
            &&& r == canvases@[k]
            &&& *final(rng) == after
        }),
{
    let k = rng.below(canvases.len());
    canvases[k]
}

/// Draw a lesson on a canvas: a random family that fits, with the next seed, until one
/// works. There is none once the seeds run out.
pub fn draw_sample(canvas: Canvas, rng: &mut RandomStream, seed_ctr: &mut u64) -> (r: Option<
    Sample,
>)
    requires
        drawable(canvas),
        feasible(canvas).len() > 0,
    ensures
        (templates::sample_option(r), *final(rng), *final(seed_ctr)) == drawn(
            canvas,
            *old(rng),
            *old(seed_ctr),
        ),
        r matches Some(s) ==> s@.sound() && s@.solution.width == canvas.width && s@.solution.height
            == canvas.height,
{
    let kinds = feasible_kinds(canvas);
    let ghost whole = drawn(canvas, *rng, *seed_ctr);
    while *seed_ctr < u64::MAX
        invariant
            drawable(canvas),
            kinds@ == feasible(canvas),
            kinds@.len() > 0,
            drawn(canvas, *rng, *seed_ctr) == whole,
            whole == drawn(canvas, *old(rng), *old(seed_ctr)),
        decreases u64::MAX - *seed_ctr,
    {
        let k = rng.below(kinds.len());
        let seed = *seed_ctr;
        *seed_ctr = seed + 1;
        let lesson = generate_lesson(kinds[k], canvas, seed);
        if lesson.is_some() {
            return lesson;
        }
    }
    None
}

fn protected_flags(s: &Sample) -> (r: Vec<bool>)
    requires
        s@.valid(),
    ensures
        r@ == always_seen(s@),
{
    let n: usize = s.solution.cells.len();
    let mut flags: Vec<bool> = vec![false; n];
    let mut k: usize = 0;
    while k < s.protected.len()
        invariant
            s@.valid(),
            n == s@.solution.cells.len(),
            flags@.len() == n,
            k <= s.protected@.len(),
            forall|i: int|
                0 <= i < n ==> #[trigger] flags@[i] == s@.protected.take(k as int).contains(i),
        decreases s.protected@.len() - k,
    {
        let i = s.protected[k];
        assert(s@.protected[k as int] == i);
        flags.set(i, true);
        proof {
            let before = s@.protected.take(k as int);
            let after = s@.protected.take(k + 1);
            assert(after =~= before.push(i as int));
            assert forall|j: int| after.contains(j) <==> before.contains(j) || j == i by {
                if before.contains(j) {
                    assert(after[before.index_of(j)] == j);
                }
                if j == i {
                    assert(after[k as int] == j);
                }
                if after.contains(j) && j != i {
                    assert(before[after.index_of(j)] == j);
                }
            }
        }
        k = k + 1;
    }
    assert(s@.protected.take(k as int) =~= s@.protected);
    assert(flags@ =~= always_seen(s@));
    flags
}

/// A training batch: whole factories, and for each which cells are always visible. All
/// are drawn on one canvas, so that they share their sides.
pub fn train_batch(
    canvas: Canvas,
    batch: usize,
    rng: &mut RandomStream,
    seed_ctr: &mut u64,
) -> (r: Option<(Vec<Grid>, Vec<Vec<bool>>)>)
    requires
        drawable(canvas),
        feasible(canvas).len() > 0,
    ensures
        ({
            let (lessons, after, next) = drawn_batch(
                canvas,
                batch as nat,
                *old(rng),
                *old(seed_ctr),
            );
            &&& r is Some <==> lessons is Some
            &&& *final(rng) == after
            &&& *final(seed_ctr) == next
            &&& r matches Some(b) ==> {
                &&& b.0@.len() == batch
                &&& b.1@.len() == batch
                &&& lessons->0.len() == batch
                &&& forall|i: int|
                    0 <= i < batch ==> (#[trigger] b.0@[i])@ == lessons->0[i].solution
                &&& forall|i: int|
                    0 <= i < batch ==> (#[trigger] b.1@[i])@ == always_seen(lessons->0[i])
                &&& forall|i: int|
                    0 <= i < batch ==> (#[trigger] lessons->0[i]).sound()
                        && lessons->0[i].solution.width == canvas.width
                        && lessons->0[i].solution.height == canvas.height
            }
        }),
{
    let ghost first = *rng;
    let ghost from = *seed_ctr;
    let mut grids: Vec<Grid> = Vec::new();
    let mut observed: Vec<Vec<bool>> = Vec::new();
    let mut i: usize = 0;
    while i < batch
        invariant
            drawable(canvas),
            feasible(canvas).len() > 0,
            i <= batch,
            first == *old(rng),
            from == *old(seed_ctr),
            grids@.len() == i,
            observed@.len() == i,
            drawn_batch(canvas, i as nat, first, from).0 is Some,
            drawn_batch(canvas, i as nat, first, from).0->0.len() == i,
            drawn_batch(canvas, i as nat, first, from).1 == *rng,
            drawn_batch(canvas, i as nat, first, from).2 == *seed_ctr,
            forall|j: int|
                0 <= j < i ==> (#[trigger] grids@[j])@ == drawn_batch(
                    canvas,
                    i as nat,
                    first,
                    from,
                ).0->0[j].solution,
            forall|j: int|
                0 <= j < i ==> (#[trigger] observed@[j])@ == always_seen(
                    drawn_batch(canvas, i as nat, first, from).0->0[j],
                ),
            forall|j: int|
                0 <= j < i ==> {
                    let s = #[trigger] drawn_batch(canvas, i as nat, first, from).0->0[j];
                    s.sound() && s.solution.width == canvas.width && s.solution.height
                        == canvas.height
                },
        decreases batch - i,
    {
        match draw_sample(canvas, rng, seed_ctr) {
            None => {
                proof {
                    lemma_batch_stays_empty(canvas, i as nat + 1, batch as nat, first, from);
                }
                return None;
            },
            Some(s) => {
                observed.push(protected_flags(&s));
                grids.push(s.solution);
                i = i + 1;
            },
        }
    }
    Some((grids, observed))
}

/// Once a draw fails the whole batch does.
proof fn lemma_batch_stays_empty(canvas: Canvas, i: nat, n: nat, r: RandomStream, seed: u64)
    requires
        i <= n,
        drawn_batch(canvas, i, r, seed).0 is None,
    ensures
        drawn_batch(canvas, n, r, seed) == drawn_batch(canvas, i, r, seed),
    decreases n,
{
    if i < n {
        lemma_batch_stays_empty(canvas, i, (n - 1) as nat, r, seed);
    }
}

/// Whether a step, counted from zero, ends with a validation pass.
pub fn is_validation_step(step: usize, val_every: usize) -> (r: bool)
    requires
        step < usize::MAX,
    ensures
        r == (val_every > 0 && (step + 1) % (val_every as int) == 0),
{
    val_every > 0 && (step + 1) % val_every == 0
}

/// A canvas in words.
pub fn canvas_label(c: Canvas) -> (r: String)
    ensures
        r@ == canvas_text(c),
{
    let mut s = text::number(c.width);
    text::push(&mut s, "x");
    text::push_number(&mut s, c.height);
    s
}

/// Whether a canvas is as small, or as large, as any of a pool on both sides.
pub open spec fn bounds(lo: Canvas, hi: Canvas, canvases: Seq<Canvas>) -> bool {
    &&& forall|i: int|
        0 <= i < canvases.len() ==> lo.width <= (#[trigger] canvases[i]).width <= hi.width
            && lo.height <= canvases[i].height <= hi.height
    &&& exists|i: int| 0 <= i < canvases.len() && (#[trigger] canvases[i]).width == lo.width
    &&& exists|i: int| 0 <= i < canvases.len() && (#[trigger] canvases[i]).width == hi.width
    &&& exists|i: int| 0 <= i < canvases.len() && (#[trigger] canvases[i]).height == lo.height
    &&& exists|i: int| 0 <= i < canvases.len() && (#[trigger] canvases[i]).height == hi.height
}

fn extremes(canvases: &Vec<Canvas>) -> (r: (Canvas, Canvas))
    requires
        canvases@.len() > 0,
    ensures
        bounds(r.0, r.1, canvases@),
{
    let mut lo = canvases[0];
    let mut hi = canvases[0];
    let mut i: usize = 1;
    let ghost all = canvases@;
    assert(all.take(1)[0] == lo);
    assert(bounds(lo, hi, all.take(1)));
    while i < canvases.len()
        invariant
            all == canvases@,
            1 <= i <= all.len(),
            bounds(lo, hi, all.take(i as int)),
        decreases all.len() - i,
    {
        let c = canvases[i];
        let ghost (lo0, hi0) = (lo, hi);
        if c.width < lo.width {
            lo = Canvas { width: c.width, height: lo.height };
        }
        if c.height < lo.height {
            lo = Canvas { width: lo.width, height: c.height };
        }
        if c.width > hi.width {
            hi = Canvas { width: c.width, height: hi.height };
        }
        if c.height > hi.height {
            hi = Canvas { width: hi.width, height: c.height };
        }
        proof {
            let before = all.take(i as int);
            let after = all.take(i + 1);
            assert(after[i as int] == c);
            assert forall|j: int| 0 <= j < i implies after[j] == before[j] by {}
            let a = choose|j: int| 0 <= j < before.len() && (#[trigger] before[j]).width == lo0.width;
            let b = choose|j: int| 0 <= j < before.len() && (#[trigger] before[j]).width == hi0.width;
            let d = choose|j: int|
                0 <= j < before.len() && (#[trigger] before[j]).height == lo0.height;
            let e = choose|j: int|
                0 <= j < before.len() && (#[trigger] before[j]).height == hi0.height;
            assert(after[a].width == lo0.width && after[b].width == hi0.width);
            assert(after[d].height == lo0.height && after[e].height == hi0.height);
            assert forall|j: int| 0 <= j < after.len() implies lo.width <= (
            #[trigger] after[j]).width <= hi.width && lo.height <= after[j].height
                <= hi.height by {
                if j < i {
                    assert(after[j] == before[j]);
                }
            }
        }
        i = i + 1;
    }
    assert(all.take(i as int) =~= all);
    (lo, hi)
}

/// A pool of shapes, short enough for a log line: nothing, one shape, or the smallest and
/// the largest sides.
pub fn canvas_summary(canvases: &Vec<Canvas>) -> (r: String)
    ensures
        canvases@.len() == 0 ==> r@ == "none"@,
        canvases@.len() == 1 ==> r@ == canvas_text(canvases@[0]),
        canvases@.len() > 1 ==> exists|lo: Canvas, hi: Canvas| #[trigger]
            bounds(lo, hi, canvases@) && r@ == canvas_text(lo) + " .. "@ + canvas_text(hi),
{
    if canvases.len() == 0 {
        return text::begin("none");
    }
    if canvases.len() == 1 {
        return canvas_label(canvases[0]);
    }
    let (lo, hi) = extremes(canvases);
    let mut s = canvas_label(lo);
    text::push(&mut s, " .. ");
    let last = canvas_label(hi);
    text::push(&mut s, last.as_str());
    assert(bounds(lo, hi, canvases@));
    s
}

/// A family is taught on a canvas exactly where it fits.
pub proof fn law_feasible_kinds_are_those_that_fit(canvas: Canvas, kind: LessonKind)
    ensures
        feasible(canvas).contains(kind) <==> kind.fits_on(canvas),
{
    lemma_kinds_on(canvas, LessonKind::listing().len(), kind);
    crate::factory_gen::canvas::law_every_family_is_listed_once(kind);
    let all = LessonKind::listing();
    assert(all.take(all.len() as int) =~= all);
}

proof fn lemma_kinds_on(canvas: Canvas, k: nat, kind: LessonKind)
    requires
        k <= LessonKind::listing().len(),
    ensures
        kinds_on(canvas, k).contains(kind) <==> kind.fits_on(canvas) && LessonKind::listing().take(
            k as int,
        ).contains(kind),
    decreases k,
{
    if k > 0 {
        lemma_kinds_on(canvas, (k - 1) as nat, kind);
        let rest = kinds_on(canvas, (k - 1) as nat);
        let all = kinds_on(canvas, k);
        let here = LessonKind::listing()[k - 1];
        let shorter = LessonKind::listing().take(k - 1);
        let longer = LessonKind::listing().take(k as int);
        assert(longer =~= shorter.push(here));
        vstd::seq_lib::lemma_seq_contains_after_push(shorter, here, kind);
        vstd::seq_lib::lemma_seq_contains_after_push(rest, here, kind);
    }
}

} // verus!
