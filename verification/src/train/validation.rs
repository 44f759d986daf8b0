//! The held-out corpus that every checkpoint of a run is scored on.

use vstd::prelude::*;
use crate::factory_gen::canvas::{Canvas, LessonKind};
use crate::factory_gen::generate::generate as generate_lesson;
use crate::factory_gen::lesson;
use crate::factory_gen::lesson::{Sample, SampleView};
use crate::factory_gen::templates;
use crate::random::RandomStream;
use crate::train;
use crate::train::curriculum_kinds;
use crate::world::Grid;

verus! {

/// Factories to rebuild, each in two forms: with the removable cells blanked, and with
/// everything blanked but the sources and sinks.
#[derive(Debug, PartialEq, Eq)]
pub struct ValidationSet {
    pub originals: Vec<Grid>,
    pub partials: Vec<Grid>,
    pub observed: Vec<Vec<bool>>,
    pub scratch_partials: Vec<Grid>,
    pub scratch_observed: Vec<Vec<bool>>,
    pub kinds: Vec<LessonKind>,
}

/// How many seeds there are.
pub open spec fn all_seeds() -> nat {
    0x1_0000_0000_0000_0000
}

/// The seed after one, starting over after the last.
pub open spec fn seed_after(seed: u64) -> u64 {
    if seed == u64::MAX {
        0
    } else {
        (seed + 1) as u64
    }
}

/// The first lesson that `tries` seeds in a row give, and the seed after it.
pub open spec fn next_lesson(kind: LessonKind, canvas: Canvas, seed: u64, tries: nat) -> (
    Option<SampleView>,
    u64,
)
    decreases tries,
{
    if tries == 0 {
        (None, seed)
    } else {
        match train::lesson_of(kind, canvas, seed) {
            Some(s) => (Some(s), seed_after(seed)),
            None => next_lesson(kind, canvas, seed_after(seed), (tries - 1) as nat),
        }
    }
}

/// Those of the first `k` canvases that a family fits on.
pub open spec fn shapes_for(kind: LessonKind, canvases: Seq<Canvas>, k: nat) -> Seq<Canvas>
    decreases k,
{
    if k == 0 {
        seq![]
    } else if kind.fits_on(canvases[k - 1]) {
        shapes_for(kind, canvases, (k - 1) as nat).push(canvases[k - 1])
    } else {
        shapes_for(kind, canvases, (k - 1) as nat)
    }
}

/// The family of the `i`-th task: the families take turns.
pub open spec fn task_kind(canvases: Seq<Canvas>, i: int) -> LessonKind {
    let kinds = train::curriculum(canvases);
    kinds[i % (kinds.len() as int)]
}

/// The canvas of the `i`-th task: the shapes that its family fits on take turns.
pub open spec fn task_canvas(canvases: Seq<Canvas>, i: int) -> Canvas {
    let kinds = train::curriculum(canvases);
    let shapes = shapes_for(task_kind(canvases, i), canvases, canvases.len());
    shapes[(i / (kinds.len() as int)) % (shapes.len() as int)]
}

/// The tasks of a corpus of `n`: their families and canvases.
pub open spec fn validation_tasks(canvases: Seq<Canvas>, n: nat) -> Seq<(LessonKind, Canvas)> {
    Seq::new(n, |i: int| (task_kind(canvases, i), task_canvas(canvases, i)))
}

/// The tasks of an evaluation on one canvas: the families take turns.
pub open spec fn evaluation_tasks(canvas: Canvas, n: nat) -> Seq<(LessonKind, Canvas)> {
    Seq::new(n, |i: int| (LessonKind::listing()[i % 9], canvas))
}

/// The lessons for the first `n` tasks, tried with one seed after the other from a given
/// one, and the seed after them. There are none where some task has no lesson under any
/// seed.
pub open spec fn corpus(tasks: Seq<(LessonKind, Canvas)>, from: u64, n: nat) -> (
    Option<Seq<SampleView>>,
    u64,
)
    decreases n,
{
    if n == 0 {
        (Some(seq![]), from)
    } else {
        let (before, at) = corpus(tasks, from, (n - 1) as nat);
        match before {
            None => (None, at),
            Some(lessons) => {
                let (s, next) = next_lesson(tasks[n - 1].0, tasks[n - 1].1, at, all_seeds());
                match s {
                    None => (None, next),
                    Some(s) => (Some(lessons.push(s)), next),
                }
            },
        }
    }
}

/// The two forms of one lesson.
pub open spec fn poses(v: ValidationSet, s: SampleView, i: int) -> bool {
    let n = s.solution.cells.len();
    &&& v.originals@[i]@ == s.solution
    &&& v.partials@[i]@ == lesson::emptied(s.solution, s.removable)
    &&& v.observed@[i]@ == lesson::kept(n, s.removable)
    &&& v.scratch_partials@[i]@ == lesson::ports_only(s.solution)
    &&& v.scratch_observed@[i]@ == Seq::new(n, |c: int| lesson::is_port(s.solution.cells[c]))
    &&& v.kinds@[i] == s.kind
}

/// Whether a corpus has so many tasks in every list.
pub open spec fn has_tasks(v: ValidationSet, n: nat) -> bool {
    &&& v.originals@.len() == n
    &&& v.partials@.len() == n
    &&& v.observed@.len() == n
    &&& v.scratch_partials@.len() == n
    &&& v.scratch_observed@.len() == n
    &&& v.kinds@.len() == n
}

/// A family of the curriculum fits on some canvas of the pool.
pub proof fn lemma_kind_has_shapes(canvases: Seq<Canvas>, k: nat, j: int)
    requires
        k <= LessonKind::listing().len(),
        0 <= j < train::kinds_in(canvases, k).len(),
    ensures
        train::fits_some(train::kinds_in(canvases, k)[j], canvases),
    decreases k,
{
    if k > 0 {
        if j < train::kinds_in(canvases, (k - 1) as nat).len() {
            lemma_kind_has_shapes(canvases, (k - 1) as nat, j);
        }
    }
}

/// The listed shapes are those that fit, and come from the pool.
pub proof fn lemma_shapes(kind: LessonKind, canvases: Seq<Canvas>, k: nat)
    requires
        k <= canvases.len(),
    ensures
        forall|j: int|
            0 <= j < shapes_for(kind, canvases, k).len() ==> kind.fits_on(
                #[trigger] shapes_for(kind, canvases, k)[j],
            ) && canvases.contains(shapes_for(kind, canvases, k)[j]),
        (exists|c: int| 0 <= c < k && kind.fits_on(#[trigger] canvases[c])) ==> shapes_for(
            kind,
            canvases,
            k,
        ).len() > 0,
    decreases k,
{
    if k > 0 {
        lemma_shapes(kind, canvases, (k - 1) as nat);
        assert(canvases.contains(canvases[k - 1]));
        if exists|c: int| 0 <= c < k && kind.fits_on(#[trigger] canvases[c]) {
            let c = choose|c: int| 0 <= c < k && kind.fits_on(#[trigger] canvases[c]);
            if c < k - 1 {
                assert(kind.fits_on(canvases[c]));
            }
        }
    }
}

fn fitting_shapes(kind: LessonKind, canvases: &Vec<Canvas>) -> (r: Vec<Canvas>)
    ensures
        r@ == shapes_for(kind, canvases@, canvases@.len()),
{
    let mut out: Vec<Canvas> = Vec::new();
    let mut i: usize = 0;
    while i < canvases.len()
        invariant
            i <= canvases@.len(),
            out@ == shapes_for(kind, canvases@, i as nat),
        decreases canvases@.len() - i,
    {
        if kind.fits(canvases[i]) {
            out.push(canvases[i]);
        }
        i = i + 1;
    }
    out
}

/// Try one seed after the other until a family gives a lesson on a canvas. There is none
/// where no seed gives one.
fn find_lesson(kind: LessonKind, canvas: Canvas, seed_ctr: &mut u64) -> (r: Option<Sample>)
    requires
        train::drawable(canvas),
    ensures
        (templates::sample_option(r), *final(seed_ctr)) == next_lesson(
            kind,
            canvas,
            *old(seed_ctr),
            all_seeds(),
        ),
        r matches Some(s) ==> s@.sound() && s@.kind == kind,
{
    let first = *seed_ctr;
    let ghost whole = next_lesson(kind, canvas, first, all_seeds());
    let ghost mut tried: nat = 0;
    loop
        invariant
            train::drawable(canvas),
            first == *old(seed_ctr),
            whole == next_lesson(kind, canvas, first, all_seeds()),
            tried < all_seeds(),
            *seed_ctr == (first + tried) % (all_seeds() as int),
            next_lesson(kind, canvas, *seed_ctr, (all_seeds() - tried) as nat) == whole,
        decreases all_seeds() - tried,
    {
        let seed = *seed_ctr;
        *seed_ctr = if seed == u64::MAX {
            0
        } else {
            seed + 1
        };
        let found = generate_lesson(kind, canvas, seed);
        if found.is_some() {
            return found;
        }
        proof {
            tried = tried + 1;
            assert(next_lesson(kind, canvas, *seed_ctr, (all_seeds() - tried) as nat) == whole);
        }
        if *seed_ctr == first {
            assert(tried == all_seeds());
            assert(whole == next_lesson(kind, canvas, *seed_ctr, 0));
            return None;
        }
    }
}

/// One task added to the corpus.
fn add_task(v: &mut ValidationSet, s: Sample, rng: &mut RandomStream)
    requires
        s@.sound(),
        has_tasks(*old(v), old(v).originals@.len()),
    ensures
        has_tasks(*final(v), old(v).originals@.len() + 1),
        poses(*final(v), s@, old(v).originals@.len() as int),
        forall|i: int, t: SampleView|
            0 <= i < old(v).originals@.len() && #[trigger] poses(*old(v), t, i) ==> poses(
                *final(v),
                t,
                i,
            ),
{
    let ghost view = s@;
    let (partial, obs) = s.blank(None, rng);
    proof {
        let want = lesson::emptied(view.solution, view.removable);
        let seen = lesson::kept(view.solution.cells.len(), view.removable);
        assert forall|i: int| 0 <= i < want.cells.len() implies #[trigger] partial@.cells[i]
            == want.cells[i] && obs@[i] == seen[i] by {
            if view.removable.contains(i) {
                assert(!obs@[i]);
            } else {
                assert(obs@[i]);
            }
        }
        assert(partial@.cells =~= want.cells);
        assert(partial@ =~= want);
        assert forall|i: int| 0 <= i < seen.len() implies obs@[i] == seen[i] by {
            assert(partial@.cells[i] == want.cells[i]);
        }
        assert(obs@ =~= seen);
    }
    let (scratch_partial, scratch_obs) = s.blank_to_scaffold();
    v.kinds.push(s.kind);
    v.originals.push(s.solution);
    v.partials.push(partial);
    v.observed.push(obs);
    v.scratch_partials.push(scratch_partial);
    v.scratch_observed.push(scratch_obs);
}

/// Draw a lesson for every task, and blank it both ways.
fn pose(tasks: &Vec<(LessonKind, Canvas)>, from: u64, mut rng: RandomStream) -> (r: Option<
    ValidationSet,
>)
    requires
        forall|i: int| 0 <= i < tasks@.len() ==> train::drawable((#[trigger] tasks@[i]).1),
    ensures
        holds(r, tasks@, from),
{
    let ghost all = tasks@;
    let mut seed_ctr: u64 = from;
    let mut v = ValidationSet {
        originals: Vec::new(),
        partials: Vec::new(),
        observed: Vec::new(),
        scratch_partials: Vec::new(),
        scratch_observed: Vec::new(),
        kinds: Vec::new(),
    };
    let mut i: usize = 0;
    while i < tasks.len()
        invariant
            all == tasks@,
            forall|j: int| 0 <= j < tasks@.len() ==> train::drawable((#[trigger] tasks@[j]).1),
            i <= all.len(),
            has_tasks(v, i as nat),
            corpus(all, from, i as nat).0 is Some,
            corpus(all, from, i as nat).0->0.len() == i,
            corpus(all, from, i as nat).1 == seed_ctr,
            forall|j: int|
                0 <= j < i ==> #[trigger] poses(v, corpus(all, from, i as nat).0->0[j], j),
            forall|j: int|
                0 <= j < i ==> (#[trigger] corpus(all, from, i as nat).0->0[j]).sound() && corpus(
                    all,
                    from,
                    i as nat,
                ).0->0[j].kind == all[j].0,
        decreases all.len() - i,
    {
        let (kind, canvas) = tasks[i];
        assert(train::drawable(tasks@[i as int].1));
        let ghost before = corpus(all, from, i as nat).0->0;
        match find_lesson(kind, canvas, &mut seed_ctr) {
            None => {
                proof {
                    lemma_corpus_stays_empty(all, from, i as nat + 1, all.len());
                }
                return None;
            },
            Some(s) => {
                let ghost view = s@;
                let ghost held = v;
                add_task(&mut v, s, &mut rng);
                proof {
                    let now = corpus(all, from, i as nat + 1).0->0;
                    assert(now == before.push(view));
                    assert forall|j: int| 0 <= j < i + 1 implies #[trigger] poses(v, now[j], j) by {
                        if j < i {
                            assert(now[j] == before[j]);
                            assert(poses(held, before[j], j));
                        }
                    }
                    assert forall|j: int| 0 <= j < i + 1 implies (#[trigger] now[j]).sound()
                        && now[j].kind == all[j].0 by {
                        if j < i {
                            assert(now[j] == before[j]);
                        }
                    }
                }
                i = i + 1;
            },
        }
    }
    Some(v)
}

/// Once a task has no lesson the whole corpus has none.
proof fn lemma_corpus_stays_empty(
    tasks: Seq<(LessonKind, Canvas)>,
    from: u64,
    i: nat,
    n: nat,
)
    requires
        i <= n,
        corpus(tasks, from, i).0 is None,
    ensures
        corpus(tasks, from, n).0 is None,
    decreases n,
{
    if i < n {
        lemma_corpus_stays_empty(tasks, from, i, (n - 1) as nat);
    }
}

/// What a corpus holds: a lesson for every task, blanked both ways.
pub open spec fn holds(
    r: Option<ValidationSet>,
    tasks: Seq<(LessonKind, Canvas)>,
    from: u64,
) -> bool {
    &&& r is Some <==> corpus(tasks, from, tasks.len()).0 is Some
    &&& r matches Some(v) ==> {
        let lessons = corpus(tasks, from, tasks.len()).0->0;
        &&& lessons.len() == tasks.len()
        &&& has_tasks(v, tasks.len())
        &&& forall|i: int|
            0 <= i < tasks.len() ==> #[trigger] poses(v, lessons[i], i) && lessons[i].sound()
                && lessons[i].kind == tasks[i].0
    }
}

/// Build the held-out corpus of a run. The families take turns, and for each family the
/// shapes that it fits on. The seeds never depend on how much training data has been
/// consumed, so that every checkpoint is compared on the same tasks. There is no corpus
/// where some task has no lesson under any seed.
pub fn build_validation_set(canvases: &Vec<Canvas>, seed: u64, val_batch: usize) -> (r: Option<
    ValidationSet,
>)
    requires
        forall|c: int| 0 <= c < canvases@.len() ==> train::drawable(#[trigger] canvases@[c]),
        val_batch > 0 ==> train::curriculum(canvases@).len() > 0,
    ensures
        holds(
            r,
            validation_tasks(canvases@, val_batch as nat),
            seed ^ 0x0DD0_0DD0_0DD0_0DD0,
        ),
{
    let ghost pool = canvases@;
    let rng = RandomStream::seed_from_u64(seed ^ 0x05EE_DF12_EDA7_A5E7);
    let kinds = curriculum_kinds(canvases);
    let mut tasks: Vec<(LessonKind, Canvas)> = Vec::new();
    let mut i: usize = 0;
    while i < val_batch
        invariant
            pool == canvases@,
            forall|c: int| 0 <= c < canvases@.len() ==> train::drawable(#[trigger] canvases@[c]),
            kinds@ == train::curriculum(pool),
            val_batch > 0 ==> kinds@.len() > 0,
            i <= val_batch,
            tasks@.len() == i,
            forall|j: int|
                0 <= j < i ==> #[trigger] tasks@[j] == (task_kind(pool, j), task_canvas(pool, j)),
            forall|j: int| 0 <= j < i ==> train::drawable((#[trigger] tasks@[j]).1),
        decreases val_batch - i,
    {
        let kind = kinds[i % kinds.len()];
        let shapes = fitting_shapes(kind, canvases);
        proof {
            lemma_kind_has_shapes(
                pool,
                LessonKind::listing().len(),
                i as int % (kinds@.len() as int),
            );
            lemma_shapes(kind, pool, pool.len());
        }
        let canvas = shapes[(i / kinds.len()) % shapes.len()];
        assert(pool.contains(canvas));
        tasks.push((kind, canvas));
        i = i + 1;
    }
    assert(tasks@ =~= validation_tasks(pool, val_batch as nat));
    pose(&tasks, seed ^ 0x0DD0_0DD0_0DD0_0DD0, rng)
}

/// Build a set of tasks on one canvas to evaluate a model on: the families take turns,
/// and the seeds start after the given one. There is none where some family has no lesson
/// on the canvas under any seed.
pub fn build_evaluation_set(canvas: Canvas, seed: u64, eval: usize) -> (r: Option<ValidationSet>)
    requires
        train::drawable(canvas),
    ensures
        holds(r, evaluation_tasks(canvas, eval as nat), seed_after(seed)),
{
    let rng = RandomStream::seed_from_u64(seed.wrapping_add(0xB1A2));
    let all = LessonKind::all();
    let mut tasks: Vec<(LessonKind, Canvas)> = Vec::new();
    let mut i: usize = 0;
    while i < eval
        invariant
            train::drawable(canvas),
            all@ == LessonKind::listing(),
            i <= eval,
            tasks@.len() == i,
            forall|j: int|
                0 <= j < i ==> #[trigger] tasks@[j] == (LessonKind::listing()[j % 9], canvas),
        decreases eval - i,
    {
        tasks.push((all[i % 9], canvas));
        i = i + 1;
    }
    assert(tasks@ =~= evaluation_tasks(canvas, eval as nat));
    let first: u64 = if seed == u64::MAX {
        0
    } else {
        seed + 1
    };
    pose(&tasks, first, rng)
}

/// The corpus of a run is frozen: a larger one starts with the smaller one.
pub proof fn law_a_larger_corpus_starts_with_the_smaller(
    canvases: Seq<Canvas>,
    from: u64,
    i: nat,
    n: nat,
)
    requires
        i <= n,
        corpus(validation_tasks(canvases, n), from, n).0 is Some,
    ensures
        corpus(validation_tasks(canvases, i), from, i).0 is Some,
        corpus(validation_tasks(canvases, i), from, i).0->0.is_prefix_of(
            corpus(validation_tasks(canvases, n), from, n).0->0,
        ),
{
    let small = validation_tasks(canvases, i);
    let large = validation_tasks(canvases, n);
    lemma_corpus_reads_a_prefix(small, large, from, i);
    lemma_corpus_grows(large, from, i, n);
}

proof fn lemma_corpus_reads_a_prefix(
    small: Seq<(LessonKind, Canvas)>,
    large: Seq<(LessonKind, Canvas)>,
    from: u64,
    k: nat,
)
    requires
        k <= small.len() <= large.len(),
        forall|j: int| 0 <= j < k ==> small[j] == large[j],
    ensures
        corpus(small, from, k) == corpus(large, from, k),
    decreases k,
{
    if k > 0 {
        lemma_corpus_reads_a_prefix(small, large, from, (k - 1) as nat);
    }
}

proof fn lemma_corpus_grows(tasks: Seq<(LessonKind, Canvas)>, from: u64, i: nat, n: nat)
    requires
        i <= n,
        corpus(tasks, from, n).0 is Some,
    ensures
        corpus(tasks, from, i).0 is Some,
        corpus(tasks, from, i).0->0.is_prefix_of(corpus(tasks, from, n).0->0),
    decreases n,
{
    if i < n {
        lemma_corpus_grows(tasks, from, i, (n - 1) as nat);
    }
}

} // verus!
