//! What holds of the curriculum, the lessons that are drawn and the held-out corpora.

use vstd::prelude::*;
use vstd::arithmetic::div_mod::{
    lemma_add_mod_noop, lemma_fundamental_div_mod, lemma_fundamental_div_mod_converse,
    lemma_mod_bound, lemma_mod_multiples_vanish, lemma_small_mod,
};
use crate::factory_gen::canvas::{Canvas, LessonKind};
use crate::factory_gen::generate;
use crate::factory_gen::lesson::SampleView;
use crate::random::RandomStream;
use crate::train;
use crate::train::feed;
use crate::train::grouping;
use crate::train::validation;
use crate::world::Grid;

verus! {

/// The place of a family in the curriculum.
pub open spec fn place(kind: LessonKind) -> int {
    match kind {
        LessonKind::MoveOneItem => 0,
        LessonKind::MoveOneItemChaos => 1,
        LessonKind::AssemblerLine => 2,
        LessonKind::AssemblerChaos => 3,
        LessonKind::DirectRecipe => 4,
        LessonKind::UndergroundCross => 5,
        LessonKind::AssemblerBank => 6,
        LessonKind::CircuitLine => 7,
        LessonKind::SharedLine => 8,
    }
}

/// Families are listed at their places.
pub proof fn law_families_are_listed_at_their_places(kind: LessonKind)
    ensures
        LessonKind::listing().len() == 9,
        LessonKind::listing()[place(kind)] == kind,
{
}

proof fn lemma_kinds_in(canvases: Seq<Canvas>, k: nat, kind: LessonKind)
    requires
        k <= 9,
    ensures
        train::kinds_in(canvases, k).contains(kind) <==> place(kind) < k && train::fits_some(
            kind,
            canvases,
        ),
    decreases k,
{
    if k > 0 {
        lemma_kinds_in(canvases, (k - 1) as nat, kind);
        let here = LessonKind::listing()[k - 1];
        law_families_are_listed_at_their_places(kind);
        assert(place(here) == k - 1);
        let rest = train::kinds_in(canvases, (k - 1) as nat);
        vstd::seq_lib::lemma_seq_contains_after_push(rest, here, kind);
    }
}

proof fn lemma_kinds_in_order(canvases: Seq<Canvas>, k: nat, i: int, j: int)
    requires
        k <= 9,
        0 <= i < j < train::kinds_in(canvases, k).len(),
    ensures
        place(train::kinds_in(canvases, k)[i]) < place(train::kinds_in(canvases, k)[j]),
    decreases k,
{
    let rest = train::kinds_in(canvases, (k - 1) as nat);
    if j < rest.len() {
        lemma_kinds_in_order(canvases, (k - 1) as nat, i, j);
    } else {
        lemma_kinds_in(canvases, (k - 1) as nat, rest[i]);
        assert(rest.contains(rest[i]));
        assert(place(LessonKind::listing()[k - 1]) == k - 1);
    }
}

/// The curriculum of a pool holds the families that fit on one of its canvases, each once
/// and at their places.
pub proof fn law_the_curriculum_is_what_fits(
    canvases: Seq<Canvas>,
    kind: LessonKind,
    i: int,
    j: int,
)
    ensures
        train::curriculum(canvases).contains(kind) <==> exists|c: int|
            0 <= c < canvases.len() && kind.fits_on(#[trigger] canvases[c]),
        0 <= i < j < train::curriculum(canvases).len() ==> place(train::curriculum(canvases)[i])
            < place(train::curriculum(canvases)[j]),
{
    lemma_kinds_in(canvases, 9, kind);
    if 0 <= i < j < train::curriculum(canvases).len() {
        lemma_kinds_in_order(canvases, 9, i, j);
    }
}

proof fn lemma_kinds_on_order(canvas: Canvas, k: nat, i: int, j: int)
    requires
        k <= 9,
        0 <= i < j < train::kinds_on(canvas, k).len(),
    ensures
        place(train::kinds_on(canvas, k)[i]) < place(train::kinds_on(canvas, k)[j]),
    decreases k,
{
    let rest = train::kinds_on(canvas, (k - 1) as nat);
    if j < rest.len() {
        lemma_kinds_on_order(canvas, (k - 1) as nat, i, j);
    } else {
        lemma_kinds_on_small(canvas, (k - 1) as nat, i);
        assert(place(LessonKind::listing()[k - 1]) == k - 1);
    }
}

proof fn lemma_kinds_on_small(canvas: Canvas, k: nat, i: int)
    requires
        k <= 9,
        0 <= i < train::kinds_on(canvas, k).len(),
    ensures
        place(train::kinds_on(canvas, k)[i]) < k,
    decreases k,
{
    let rest = train::kinds_on(canvas, (k - 1) as nat);
    if i < rest.len() {
        lemma_kinds_on_small(canvas, (k - 1) as nat, i);
    } else {
        assert(place(LessonKind::listing()[k - 1]) == k - 1);
    }
}

/// The families that fit on a canvas keep the order of the curriculum, each once.
pub proof fn law_feasible_kinds_keep_their_order(canvas: Canvas, i: int, j: int)
    requires
        0 <= i < j < train::feasible(canvas).len(),
    ensures
        place(train::feasible(canvas)[i]) < place(train::feasible(canvas)[j]),
{
    lemma_kinds_on_order(canvas, 9, i, j);
}

/// Whether a lesson is what the `k`-th family that fits gives under a seed.
pub open spec fn given_by(canvas: Canvas, k: int, seed: u64, s: Option<SampleView>) -> bool {
    train::lesson_of(train::feasible(canvas)[k], canvas, seed) == s
}

/// A drawn lesson is the one that some family gives under the last seed that was used up;
/// every draw uses up at least one seed, and none is used twice.
pub proof fn law_a_drawn_lesson_has_its_own_seed(canvas: Canvas, r: RandomStream, seed: u64)
    ensures
        ({
            let (s, after, next) = train::drawn(canvas, r, seed);
            &&& seed <= next
            &&& s is Some ==> seed < next && exists|k: int| #[trigger]
                given_by(canvas, k, (next - 1) as u64, s)
        }),
    decreases u64::MAX - seed,
{
    if seed < u64::MAX {
        let kinds = train::feasible(canvas);
        let (k, after) = r.roll(kinds.len() as int);
        let next = (seed + 1) as u64;
        if train::lesson_of(kinds[k], canvas, seed) is None {
            law_a_drawn_lesson_has_its_own_seed(canvas, after, next);
            let later = train::drawn(canvas, after, next);
            assert(train::drawn(canvas, r, seed) == later);
            if later.0 is Some {
                let j = choose|j: int| #[trigger]
                    given_by(canvas, j, (later.2 - 1) as u64, later.0);
                assert(given_by(canvas, j, (later.2 - 1) as u64, later.0));
            }
        } else {
            let now = train::drawn(canvas, r, seed);
            assert(now == (train::lesson_of(kinds[k], canvas, seed), after, next));
            assert((now.2 - 1) as u64 == seed);
            assert(given_by(canvas, k, (now.2 - 1) as u64, now.0));
        }
    } else {
        assert(train::drawn(canvas, r, seed).0 is None);
    }
}

/// A batch that is drawn has as many lessons as were asked for, and uses up at least as many
/// seeds; a larger one starts with the smaller.
pub proof fn law_a_batch_has_as_many_lessons_as_asked_for(
    canvas: Canvas,
    n: nat,
    r: RandomStream,
    seed: u64,
)
    ensures
        train::drawn_batch(canvas, n, r, seed).0 matches Some(lessons) ==> {
            &&& lessons.len() == n
            &&& seed + n <= train::drawn_batch(canvas, n, r, seed).2
            &&& n > 0 ==> train::drawn_batch(canvas, (n - 1) as nat, r, seed).0 == Some(
                lessons.drop_last(),
            )
        },
    decreases n,
{
    if n > 0 {
        law_a_batch_has_as_many_lessons_as_asked_for(canvas, (n - 1) as nat, r, seed);
        let (before, r1, seed1) = train::drawn_batch(canvas, (n - 1) as nat, r, seed);
        law_a_drawn_lesson_has_its_own_seed(canvas, r1, seed1);
        if let (Some(lessons), Some(s)) = (before, train::drawn(canvas, r1, seed1).0) {
            assert(lessons.push(s).drop_last() =~= lessons);
        }
    }
}

/// What a model always sees: the protected cells where those are shown, and otherwise the
/// sources and sinks.
pub proof fn law_what_a_model_always_sees(s: SampleView, i: int)
    requires
        0 <= i < s.solution.cells.len(),
    ensures
        feed::shown_cells(s, true).len() == s.solution.cells.len(),
        feed::shown_cells(s, false).len() == s.solution.cells.len(),
        feed::shown_cells(s, true)[i] <==> s.protected.contains(i),
        feed::shown_cells(s, false)[i] <==> s.solution.cells[i].entity is Source
            || s.solution.cells[i].entity is Sink,
{
}

/// The seed so many places after one, starting over after the last.
pub open spec fn seed_plus(seed: u64, n: nat) -> u64 {
    ((seed + n) % 0x1_0000_0000_0000_0000) as u64
}

/// The next lesson is that of the first seed in a row that gives one, and the seed after it
/// comes next; there is none exactly if no seed that is tried gives one.
pub proof fn law_the_next_lesson_is_that_of_the_first_seed(
    kind: LessonKind,
    canvas: Canvas,
    seed: u64,
    tries: nat,
    n: nat,
)
    requires
        n < tries,
        forall|m: nat| m < n ==> train::lesson_of(kind, canvas, #[trigger] seed_plus(seed, m)) is None,
        train::lesson_of(kind, canvas, seed_plus(seed, n)) is Some,
    ensures
        validation::next_lesson(kind, canvas, seed, tries) == (
            train::lesson_of(kind, canvas, seed_plus(seed, n)),
            seed_plus(seed, n + 1),
        ),
    decreases tries,
{
    lemma_small_mod(seed as nat, 0x1_0000_0000_0000_0000);
    assert(seed_plus(seed, 0) == seed);
    let after = validation::seed_after(seed);
    assert(after == seed_plus(seed, 1)) by {
        if seed < u64::MAX {
            lemma_small_mod((seed + 1) as nat, 0x1_0000_0000_0000_0000);
        }
    }
    if n > 0 {
        assert forall|m: nat| #[trigger] seed_plus(after, m) == seed_plus(seed, m + 1) by {
            lemma_add_mod_noop((seed + 1) as int, m as int, 0x1_0000_0000_0000_0000);
            lemma_add_mod_noop(after as int, m as int, 0x1_0000_0000_0000_0000);
            lemma_small_mod(after as nat, 0x1_0000_0000_0000_0000);
        }
        assert(train::lesson_of(kind, canvas, seed_plus(seed, 0)) is None);
        assert forall|m: nat| m < n - 1 implies train::lesson_of(
            kind,
            canvas,
            #[trigger] seed_plus(after, m),
        ) is None by {
            assert(train::lesson_of(kind, canvas, seed_plus(seed, m + 1)) is None);
        }
        assert(seed_plus(after, (n - 1) as nat) == seed_plus(seed, n));
        assert(seed_plus(after, n) == seed_plus(seed, n + 1));
        law_the_next_lesson_is_that_of_the_first_seed(
            kind,
            canvas,
            after,
            (tries - 1) as nat,
            (n - 1) as nat,
        );
    }
}

/// The families of a corpus take turns: so many tasks later the same one comes again, and
/// in between each comes once.
pub proof fn law_families_take_turns(canvases: Seq<Canvas>, i: int, j: int)
    requires
        train::curriculum(canvases).len() > 0,
        0 <= i,
        0 <= j < train::curriculum(canvases).len(),
    ensures
        ({
            let n = train::curriculum(canvases).len() as int;
            &&& validation::task_kind(canvases, j) == train::curriculum(canvases)[j]
            &&& validation::task_kind(canvases, i + n) == validation::task_kind(canvases, i)
        }),
{
    let n = train::curriculum(canvases).len() as int;
    lemma_small_mod(j as nat, n as nat);
    lemma_mod_multiples_vanish(1, i, n);
    assert(n * 1 + i == i + n);
}

/// A family is posed on a canvas of the pool that it fits on.
pub proof fn law_tasks_fit_their_canvas(canvases: Seq<Canvas>, i: int)
    requires
        train::curriculum(canvases).len() > 0,
        0 <= i,
    ensures
        validation::task_kind(canvases, i).fits_on(validation::task_canvas(canvases, i)),
        canvases.contains(validation::task_canvas(canvases, i)),
{
    let kinds = train::curriculum(canvases);
    let n = kinds.len() as int;
    lemma_mod_bound(i, n);
    let kind = validation::task_kind(canvases, i);
    validation::lemma_kind_has_shapes(canvases, 9, i % n);
    validation::lemma_shapes(kind, canvases, canvases.len());
    let shapes = validation::shapes_for(kind, canvases, canvases.len());
    let m = shapes.len() as int;
    let c = choose|c: int| 0 <= c < canvases.len() && kind.fits_on(#[trigger] canvases[c]);
    assert(kind.fits_on(canvases[c]));
    lemma_mod_bound(i / n, m);
}

/// The shapes that a family fits on take turns as well: each time the family comes again it
/// is posed on the next of them, starting over after the last.
pub proof fn law_shapes_take_turns(canvases: Seq<Canvas>, i: int)
    requires
        train::curriculum(canvases).len() > 0,
        0 <= i,
    ensures
        ({
            let n = train::curriculum(canvases).len() as int;
            let shapes = validation::shapes_for(
                validation::task_kind(canvases, i),
                canvases,
                canvases.len(),
            );
            exists|p: int|
                0 <= p < shapes.len() && validation::task_canvas(canvases, i)
                    == #[trigger] shapes[p] && validation::task_canvas(canvases, i + n) == shapes[if p
                    + 1 == shapes.len() {
                    0
                } else {
                    p + 1
                }]
        }),
{
    let kinds = train::curriculum(canvases);
    let n = kinds.len() as int;
    law_families_take_turns(canvases, i, 0);
    lemma_mod_bound(i, n);
    let kind = validation::task_kind(canvases, i);
    validation::lemma_kind_has_shapes(canvases, 9, i % n);
    validation::lemma_shapes(kind, canvases, canvases.len());
    let shapes = validation::shapes_for(kind, canvases, canvases.len());
    let m = shapes.len() as int;
    let c = choose|c: int| 0 <= c < canvases.len() && kind.fits_on(#[trigger] canvases[c]);
    assert(kind.fits_on(canvases[c]));
    let turn = i / n;
    lemma_fundamental_div_mod(i, n);
    assert(i + n == (turn + 1) * n + i % n) by (nonlinear_arith)
        requires
            i == n * turn + i % n,
    ;
    lemma_fundamental_div_mod_converse(i + n, n, turn + 1, i % n);
    lemma_mod_bound(turn, m);
    let p = turn % m;
    lemma_add_mod_noop(turn, 1, m);
    if m == 1 {
        assert(p == 0);
        lemma_mod_bound(turn + 1, m);
    } else {
        lemma_small_mod(1, m as nat);
        assert((turn + 1) % m == (p + 1) % m);
        if p + 1 == m {
            vstd::arithmetic::div_mod::lemma_mod_self_0(m);
        } else {
            lemma_small_mod((p + 1) as nat, m as nat);
        }
    }
    assert(shapes[p] == validation::task_canvas(canvases, i));
}

/// An evaluation poses every family in turn on its canvas.
pub proof fn law_an_evaluation_poses_every_family_in_turn(canvas: Canvas, n: nat, i: int)
    requires
        0 <= i < n,
    ensures
        validation::evaluation_tasks(canvas, n).len() == n,
        place(validation::evaluation_tasks(canvas, n)[i].0) == i % 9,
        validation::evaluation_tasks(canvas, n)[i].1 == canvas,
{
}

/// The places of a family are listed in order, each once, and none is left out.
pub proof fn law_the_places_of_a_family(
    kinds: Seq<LessonKind>,
    kind: LessonKind,
    k: nat,
    i: int,
    a: int,
    b: int,
)
    requires
        k <= kinds.len() <= usize::MAX,
        0 <= i < k,
    ensures
        ({
            let all = grouping::places_of_kind(kinds, kind, k);
            &&& all.contains(i as usize) <==> kinds[i] == kind
            &&& 0 <= a < all.len() ==> all[a] < k
            &&& 0 <= a < b < all.len() ==> all[a] < all[b]
        }),
    decreases k,
{
    let before = grouping::places_of_kind(kinds, kind, (k - 1) as nat);
    let all = grouping::places_of_kind(kinds, kind, k);
    vstd::seq_lib::lemma_seq_contains_after_push(before, (k - 1) as usize, i as usize);
    if k > 1 {
        law_the_places_of_a_family(
            kinds,
            kind,
            (k - 1) as nat,
            if i < k - 1 {
                i
            } else {
                0
            },
            a,
            b,
        );
    } else {
        assert(before.len() == 0);
    }
    if i == k - 1 && before.contains(i as usize) {
        let at = before.index_of(i as usize);
        if k > 1 {
            law_the_places_of_a_family(kinds, kind, (k - 1) as nat, 0, at, at);
        }
    }
}

/// A family is tried as often as forty times for every tile, and five hundred times at
/// least, and a lesson is what the first attempt that works gives.
pub proof fn law_the_first_attempt_that_works_stands(
    kind: LessonKind,
    canvas: Canvas,
    r: RandomStream,
    n: nat,
)
    requires
        n > 0,
    ensures
        generate::attempt(kind, canvas, r).0 is Some ==> generate::first_lesson(kind, canvas, r, n)
            == generate::attempt(kind, canvas, r).0,
        generate::attempt(kind, canvas, r).0 is None ==> generate::first_lesson(kind, canvas, r, n)
            == generate::first_lesson(
            kind,
            canvas,
            generate::attempt(kind, canvas, r).1,
            (n - 1) as nat,
        ),
        generate::budget(canvas) >= 500,
        generate::budget(canvas) >= 40 * (canvas.width * canvas.height),
        generate::budget(canvas) == 500 || generate::budget(canvas) == 40 * (canvas.width
            * canvas.height),
{
}

/// A corpus poses each lesson twice: once with the cells emptied that may be blanked, and
/// once with nothing left but sources and sinks; in both the cells that were left are the
/// ones that are given.
pub proof fn law_how_a_corpus_poses_a_lesson(
    v: validation::ValidationSet,
    s: SampleView,
    i: int,
    c: int,
)
    requires
        validation::poses(v, s, i),
        0 <= c < s.solution.cells.len(),
    ensures
        ({
            let cell = s.solution.cells[c];
            let port = cell.entity is Source || cell.entity is Sink;
            &&& v.kinds@[i] == s.kind
            &&& v.originals@[i]@ == s.solution
            &&& v.observed@[i]@[c] <==> !s.removable.contains(c)
            &&& v.scratch_observed@[i]@[c] <==> port
            &&& v.partials@[i]@.obstacle == s.solution.obstacle
            &&& v.scratch_partials@[i]@.obstacle == s.solution.obstacle
            &&& s.removable.contains(c) ==> v.partials@[i]@.cells[c].entity is Empty
            &&& !s.removable.contains(c) ==> v.partials@[i]@.cells[c] == cell
            &&& port ==> v.scratch_partials@[i]@.cells[c] == cell
            &&& !port ==> v.scratch_partials@[i]@.cells[c].entity is Empty
        }),
{
}

/// A batch shows each lesson's factory on the drawn canvas, with the flags of what is
/// always seen.
pub proof fn law_what_a_batch_holds(
    b: feed::TrainBatch,
    canvas: Canvas,
    lessons: Seq<SampleView>,
    protected: bool,
    i: int,
    c: int,
)
    requires
        feed::batch_of(b, canvas, lessons, protected),
        0 <= i < lessons.len(),
        0 <= c < lessons[i].solution.cells.len(),
    ensures
        b.canvas == canvas,
        b.grids@.len() == lessons.len() && b.observed@.len() == lessons.len(),
        b.grids@[i]@ == lessons[i].solution,
        protected ==> (b.observed@[i]@[c] <==> lessons[i].protected.contains(c)),
        !protected ==> (b.observed@[i]@[c] <==> lessons[i].solution.cells[c].entity is Source
            || lessons[i].solution.cells[c].entity is Sink),
{
    law_what_a_model_always_sees(lessons[i], c);
    assert(b.observed@[i]@ == feed::shown_cells(lessons[i], protected));
    assert(b.grids@[i]@ == lessons[i].solution);
}

/// The next batch is drawn on one canvas of the pool, chosen first, and the feed goes on
/// where the batch left off.
pub proof fn law_a_batch_is_drawn_on_one_canvas(
    at: feed::Feed,
    canvases: Seq<Canvas>,
    batch: nat,
)
    ensures
        ({
            let (k, r) = at.rng.roll(canvases.len() as int);
            let (canvas, lessons, next) = feed::next_lessons(at, canvases, batch);
            let (want, rng, seed) = train::drawn_batch(canvas, batch, r, at.seed_ctr);
            &&& canvas == canvases[k]
            &&& lessons == want
            &&& next.rng == rng
            &&& next.seed_ctr == seed
        }),
{
}

/// A corpus takes, for each task in turn, the next lesson of its family on its canvas under
/// the seeds from where the one before left off, all seeds if need be.
pub proof fn law_a_corpus_takes_lessons_in_turn(
    tasks: Seq<(LessonKind, Canvas)>,
    from: u64,
    n: nat,
)
    requires
        n < tasks.len(),
        validation::corpus(tasks, from, n).0 is Some,
    ensures
        ({
            let (before, at) = validation::corpus(tasks, from, n);
            let (s, next) = validation::next_lesson(
                tasks[n as int].0,
                tasks[n as int].1,
                at,
                0x1_0000_0000_0000_0000,
            );
            &&& validation::corpus(tasks, from, 0) == (Some(Seq::<SampleView>::empty()), from)
            &&& s is None ==> validation::corpus(tasks, from, n + 1).0 is None
            &&& s matches Some(l) ==> validation::corpus(tasks, from, n + 1) == (
                Some((before->0).push(l)),
                next,
            )
        }),
{
}

/// A canvas is named by its width and its height.
pub proof fn law_a_canvas_is_named_by_its_sides(c: Canvas)
    ensures
        train::canvas_text(c) == crate::text::decimal(c.width as nat) + "x"@ + crate::text::decimal(
            c.height as nat,
        ),
{
}

/// The bounds of a pool are its smallest and its largest sides, each that of some canvas.
pub proof fn law_the_bounds_of_a_pool(lo: Canvas, hi: Canvas, canvases: Seq<Canvas>, c: Canvas)
    requires
        train::bounds(lo, hi, canvases),
        canvases.contains(c),
    ensures
        lo.width <= c.width <= hi.width,
        lo.height <= c.height <= hi.height,
        exists|i: int| 0 <= i < canvases.len() && (#[trigger] canvases[i]).width == lo.width,
        exists|i: int| 0 <= i < canvases.len() && (#[trigger] canvases[i]).width == hi.width,
        exists|i: int| 0 <= i < canvases.len() && (#[trigger] canvases[i]).height == lo.height,
        exists|i: int| 0 <= i < canvases.len() && (#[trigger] canvases[i]).height == hi.height,
{
    let k = canvases.index_of(c);
    assert(canvases[k] == c);
}

/// The groups of a corpus come by width, and those of one width by height; a grid belongs to
/// a group exactly if it has both sides of it.
pub proof fn law_groups_come_by_width_and_height(
    groups: Seq<grouping::ShapeGroup>,
    grids: Seq<Grid>,
    a: int,
    b: int,
    i: int,
)
    requires
        grouping::split_by_shape(groups, grids),
        grids.len() <= usize::MAX,
        0 <= a < groups.len(),
        0 <= i < grids.len(),
    ensures
        a < b < groups.len() ==> groups[a].width < groups[b].width || groups[a].width
            == groups[b].width && groups[a].height < groups[b].height,
        groups[a].members@.contains(i as usize) <==> grids[i].width == groups[a].width
            && grids[i].height == groups[a].height,
{
    grouping::lemma_places(grids, groups[a].width, groups[a].height, grids.len(), i);
}

} // verus!
