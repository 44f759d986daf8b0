//! The reverse process: cells are committed round by round, the surest first, and never
//! taken back.
//!
//! What a model makes of a partial factory stays outside: each round it is shown
//! [`Session::tokens`], and hands back for every masked cell the legal cell it picks and
//! a score that orders those picks by how sure it is of them.

use vstd::prelude::*;
use crate::world;
use crate::world::grid::GridView;
use crate::world::legal;
use crate::world::{legal_cells, Cell, Channel, Grid, LEGAL, MAX_SIDE, VOCAB};

pub mod ranking;

pub use ranking::rank_of;

verus! {

/// The rounds a factory is decoded in where nothing else is asked for.
pub const DEFAULT_STEPS: usize = 12;

/// A factory while it is decoded.
#[derive(Clone, Debug, PartialEq, Eq)]
pub struct Session {
    pub width: usize,
    pub height: usize,
    /// The given and the committed cells. What stands at a masked one does not count.
    pub cells: Vec<Cell>,
    pub obstacle: Vec<bool>,
    /// Which cells are given.
    pub observed: Vec<bool>,
    /// Which cells are still to be committed.
    pub masked: Vec<bool>,
    /// The round in which each cell was committed, from one; zero for a given cell.
    pub reveal_step: Vec<usize>,
    /// How many cells were masked at the start.
    pub masked0: usize,
}

/// The masked cells among the first `k`, in order.
pub open spec fn hidden(masked: Seq<bool>, k: nat) -> Seq<int>
    decreases k,
{
    if k == 0 {
        seq![]
    } else if masked[k - 1] {
        hidden(masked, (k - 1) as nat).push(k - 1)
    } else {
        hidden(masked, (k - 1) as nat)
    }
}

/// How many cells stay masked after the round with the given number, from zero: what the
/// schedule says, and none after the last.
pub open spec fn left_masked(step: int, steps: int, scheduled: nat) -> nat {
    if step + 1 >= steps {
        0
    } else {
        scheduled
    }
}

/// How many of the masked cells a round commits: those above the number that stay, at
/// least one, and no more than there are.
pub open spec fn share(remaining: nat, stay: nat) -> nat {
    if remaining == 0 {
        0
    } else if remaining > stay {
        (remaining - stay) as nat
    } else {
        1
    }
}

/// The category ids on one channel, with the masked cells at the id after the last
/// category.
pub open spec fn masked_plane(s: Session, ch: Channel) -> Seq<i32> {
    Seq::new(
        s.cells@.len(),
        |k: int|
            if s.masked@[k] {
                world::vocabulary(ch) as i32
            } else {
                s.cells@[k].channel_code(ch) as i32
            },
    )
}

/// What the model and the schedule say in a round: how many cells are committed, and for
/// every masked cell how sure the model is of its pick and which legal cell that is.
pub struct Round {
    pub count: nat,
    pub scores: Seq<i64>,
    pub picks: Seq<usize>,
}

/// What the model was shown, session by session.
pub open spec fn sheets(run: Seq<Session>) -> Seq<Seq<i32>> {
    run.map_values(|s: Session| s.sheet())
}

/// Whether the sessions of a run follow each other by rounds that are numbered from zero,
/// each with what `model` says of all that it was shown so far, of the walls and of how
/// many cells were masked at the start.
pub open spec fn decoded_by(
    run: Seq<Session>,
    model: spec_fn(Seq<Seq<i32>>, Seq<bool>, int) -> Round,
) -> bool {
    forall|i: int|
        0 <= i < run.len() - 1 ==> {
            let said = model(sheets(run.take(i + 1)), run[i].obstacle@, run[i].masked0 as int);
            (#[trigger] run[i]).advanced(run[i + 1], i, said.count, said.scores, said.picks)
        }
}

impl Session {
    /// One entry of each list for every tile; masked cells are not given; cells that were
    /// committed are legal and carry the round of it.
    pub open spec fn wf(self) -> bool {
        let n = self.width * self.height;
        &&& self.width <= MAX_SIDE
        &&& self.height <= MAX_SIDE
        &&& self.cells@.len() == n
        &&& self.obstacle@.len() == n
        &&& self.observed@.len() == n
        &&& self.masked@.len() == n
        &&& self.reveal_step@.len() == n
        &&& forall|k: int|
            0 <= k < n && #[trigger] self.masked@[k] ==> !self.observed@[k]
                && self.reveal_step@[k] == 0
        &&& forall|k: int|
            0 <= k < n && #[trigger] self.observed@[k] ==> self.reveal_step@[k] == 0
        &&& forall|k: int|
            0 <= k < n && !self.observed@[k] && !self.masked@[k] ==> #[trigger] self.reveal_step@[k]
                > 0 && self.cells@[k].consistent()
    }

    /// The masked cells, in order.
    pub open spec fn hidden_cells(self) -> Seq<int> {
        hidden(self.masked@, self.masked@.len())
    }

    /// What the model is shown: the category ids, one channel after the other.
    pub open spec fn sheet(self) -> Seq<i32> {
        masked_plane(self, Channel::Entity) + masked_plane(self, Channel::Direction)
            + masked_plane(self, Channel::Item) + masked_plane(self, Channel::Misc)
    }

    /// Whether two sessions differ at most in what is stored at masked cells.
    pub open spec fn alike(self, other: Session) -> bool {
        &&& self.width == other.width
        &&& self.height == other.height
        &&& self.obstacle@ == other.obstacle@
        &&& self.observed@ == other.observed@
        &&& self.masked@ == other.masked@
        &&& self.reveal_step@ == other.reveal_step@
        &&& self.masked0 == other.masked0
        &&& self.cells@.len() == other.cells@.len()
        &&& forall|k: int|
            0 <= k < self.cells@.len() && !self.masked@[k] ==> #[trigger] self.cells@[k]
                == other.cells@[k]
    }

    /// Whether nothing is masked any more.
    pub open spec fn finished(self) -> bool {
        forall|k: int| 0 <= k < self.masked@.len() ==> !#[trigger] self.masked@[k]
    }

    /// The factory as far as it is decoded; masked cells read as empty.
    pub open spec fn shown(self) -> GridView {
        GridView {
            width: self.width as nat,
            height: self.height as nat,
            cells: Seq::new(
                self.cells@.len(),
                |k: int|
                    if self.masked@[k] {
                        world::empty_cell()
                    } else {
                        self.cells@[k]
                    },
            ),
            obstacle: self.obstacle@,
        }
    }

    /// Whether this is how the decoding of a partial factory starts: its cells and walls
    /// stand, nothing is committed yet, and all that was not given is masked.
    pub open spec fn begins(self, partial: GridView, observed: Seq<bool>) -> bool {
        &&& self.width == partial.width
        &&& self.height == partial.height
        &&& self.cells@ == partial.cells
        &&& self.obstacle@ == partial.obstacle
        &&& self.observed@ == observed
        &&& self.masked@.len() == observed.len()
        &&& forall|k: int| 0 <= k < observed.len() ==> #[trigger] self.masked@[k] == !observed[k]
        &&& self.masked0 == self.hidden_cells().len()
    }

    /// Whether some round leads from this session to the next, whatever the model said
    /// in it and however many cells the schedule asked for.
    pub open spec fn leads_to(self, next: Session) -> bool {
        exists|step: int, count: nat, scores: Seq<i64>, picks: Seq<usize>| #[trigger]
            self.advanced(next, step, count, scores, picks)
    }

    /// What this session looks like after a round: the leaders among the masked cells
    /// hold the cell picked for them and are masked no more, and all else is as it was.
    pub open spec fn advanced(
        self,
        next: Session,
        step: int,
        count: nat,
        scores: Seq<i64>,
        picks: Seq<usize>,
    ) -> bool {
        let cells = self.hidden_cells();
        &&& next.width == self.width
        &&& next.height == self.height
        &&& next.obstacle@ == self.obstacle@
        &&& next.observed@ == self.observed@
        &&& next.masked0 == self.masked0
        &&& next.cells@.len() == self.cells@.len()
        &&& next.masked@.len() == self.masked@.len()
        &&& next.reveal_step@.len() == self.reveal_step@.len()
        &&& forall|k: int|
            0 <= k < self.masked@.len() && !self.masked@[k] ==> (#[trigger] next.cells@[k])
                == self.cells@[k] && !next.masked@[k] && next.reveal_step@[k]
                == self.reveal_step@[k]
        &&& forall|j: int|
            0 <= j < cells.len() ==> {
                let k = #[trigger] cells[j];
                if ranking::rank(scores, j) < count {
                    next.cells@[k] == legal::legal_cell(picks[j] as int) && !next.masked@[k]
                        && next.reveal_step@[k] == step + 1
                } else {
                    next.cells@[k] == self.cells@[k] && next.masked@[k]
                        && next.reveal_step@[k] == self.reveal_step@[k]
                }
            }
    }
}

/// The masked cells are listed once each, in order.
pub proof fn lemma_hidden(masked: Seq<bool>, k: nat)
    requires
        k <= masked.len(),
    ensures
        hidden(masked, k).len() <= k,
        forall|j: int|
            0 <= j < hidden(masked, k).len() ==> 0 <= #[trigger] hidden(masked, k)[j] < k
                && masked[hidden(masked, k)[j]],
        forall|i: int, j: int|
            0 <= i < j < hidden(masked, k).len() ==> #[trigger] hidden(masked, k)[i]
                < #[trigger] hidden(masked, k)[j],
        forall|c: int|
            0 <= c < k && #[trigger] masked[c] ==> exists|j: int|
                0 <= j < hidden(masked, k).len() && hidden(masked, k)[j] == c,
    decreases k,
{
    if k > 0 {
        let before = hidden(masked, (k - 1) as nat);
        lemma_hidden(masked, (k - 1) as nat);
        let now = hidden(masked, k);
        assert forall|c: int| 0 <= c < k && #[trigger] masked[c] implies exists|j: int|
            0 <= j < now.len() && now[j] == c by {
            if c == k - 1 {
                assert(now[now.len() - 1] == c);
            } else {
                let j = choose|j: int| 0 <= j < before.len() && before[j] == c;
                assert(now[j] == c);
            }
        }
    }
}

/// Decoding starts: the given cells stand, and all others are masked.
pub fn start(partial: &Grid, observed: &Vec<bool>) -> (r: Session)
    requires
        partial.wf(),
        observed@.len() == partial@.cells.len(),
    ensures
        r.wf(),
        r.begins(partial@, observed@),
{
    let n: usize = observed.len();
    let mut masked: Vec<bool> = Vec::new();
    let mut given: Vec<bool> = Vec::new();
    let mut reveal_step: Vec<usize> = Vec::new();
    let mut masked0: usize = 0;
    let mut i: usize = 0;
    while i < n
        invariant
            n == observed@.len(),
            i <= n,
            masked@.len() == i,
            given@ == observed@.take(i as int),
            reveal_step@.len() == i,
            masked0 <= i,
            forall|k: int| 0 <= k < i ==> #[trigger] masked@[k] == !observed@[k],
            forall|k: int| 0 <= k < i ==> #[trigger] reveal_step@[k] == 0,
            masked0 == hidden(masked@, i as nat).len(),
        decreases n - i,
    {
        let ghost before = masked@;
        masked.push(!observed[i]);
        proof {
            lemma_hidden_prefix(before, masked@, i as nat);
        }
        given.push(observed[i]);
        assert(given@ =~= observed@.take(i + 1));
        reveal_step.push(0);
        if !observed[i] {
            masked0 = masked0 + 1;
        }
        i = i + 1;
    }
    assert(given@ =~= observed@);
    let copy = partial.clone();
    Session {
        width: copy.width,
        height: copy.height,
        cells: copy.cells,
        obstacle: copy.obstacle,
        observed: given,
        masked,
        reveal_step,
        masked0,
    }
}

/// The masked cells among the first `k` depend on those alone.
proof fn lemma_hidden_prefix(a: Seq<bool>, b: Seq<bool>, k: nat)
    requires
        k <= a.len(),
        k <= b.len(),
        forall|i: int| 0 <= i < k ==> a[i] == b[i],
    ensures
        hidden(a, k) == hidden(b, k),
    decreases k,
{
    if k > 0 {
        lemma_hidden_prefix(a, b, (k - 1) as nat);
    }
}

/// How many cells stay masked after a round: what the schedule says, and none after the
/// last.
pub fn stay_masked(step: usize, steps: usize, scheduled: usize) -> (r: usize)
    requires
        step < usize::MAX,
    ensures
        r == left_masked(step as int, steps as int, scheduled as nat),
{
    if step + 1 >= steps {
        0
    } else {
        scheduled
    }
}

/// How many masked cells a round commits.
pub fn reveal_count(remaining: usize, stay: usize) -> (r: usize)
    ensures
        r == share(remaining as nat, stay as nat),
        r <= remaining,
{
    if remaining == 0 {
        0
    } else if remaining > stay {
        remaining - stay
    } else {
        1
    }
}

/// The pick that scores highest, the first of those that tie.
pub fn argmax_legal(scores: &Vec<i64>) -> (r: usize)
    ensures
        scores@.len() == 0 ==> r == 0,
        scores@.len() > 0 ==> {
            &&& r < scores@.len()
            &&& forall|j: int| 0 <= j < scores@.len() ==> scores@[j] <= scores@[r as int]
            &&& forall|j: int| 0 <= j < r ==> scores@[j] < scores@[r as int]
        },
{
    let mut best: usize = 0;
    let mut i: usize = 1;
    while i < scores.len()
        invariant
            1 <= i,
            scores@.len() == 0 ==> best == 0,
            scores@.len() > 0 ==> {
                &&& i <= scores@.len()
                &&& best < i
                &&& forall|j: int| 0 <= j < i ==> scores@[j] <= scores@[best as int]
                &&& forall|j: int| 0 <= j < best ==> scores@[j] < scores@[best as int]
            },
        decreases scores@.len() - i,
    {
        if scores[i] > scores[best] {
            best = i;
        }
        i = i + 1;
    }
    best
}

fn legal_at(pick: usize) -> (r: Cell)
    requires
        pick < LEGAL,
    ensures
        r == legal::legal_cell(pick as int),
{
    let all = legal_cells();
    let ids = all[pick];
    match Cell::from_ids(ids) {
        Some(c) => {
            proof {
                let want = legal::legal_cell(pick as int);
                assert(legal::ids_are(ids, want));
                assert forall|ch: Channel| c.channel_code(ch) == want.channel_code(ch) by {}
                world::law_categories_determine_the_cell(c, want);
            }
            c
        },
        None => {
            assert(legal::ids_are(ids, legal::legal_cell(pick as int)));
            assert(false);
            Cell::default()
        },
    }
}

impl Session {
    /// The masked cells, in order.
    pub fn masked_cells(&self) -> (r: Vec<usize>)
        requires
            self.wf(),
        ensures
            r@.len() == self.hidden_cells().len(),
            forall|j: int| 0 <= j < r@.len() ==> #[trigger] r@[j] == self.hidden_cells()[j],
    {
        let mut r: Vec<usize> = Vec::new();
        let mut i: usize = 0;
        while i < self.masked.len()
            invariant
                i <= self.masked@.len(),
                r@.len() == hidden(self.masked@, i as nat).len(),
                forall|j: int|
                    0 <= j < r@.len() ==> #[trigger] r@[j] == hidden(self.masked@, i as nat)[j],
            decreases self.masked@.len() - i,
        {
            if self.masked[i] {
                r.push(i);
            }
            i = i + 1;
        }
        r
    }

    fn push_masked_plane(&self, out: &mut Vec<i32>, ch: Channel)
        requires
            self.wf(),
        ensures
            final(out)@ == old(out)@ + masked_plane(*self, ch),
    {
        let ghost before = out@;
        let whole = Ghost(masked_plane(*self, ch));
        let mask_id: usize = VOCAB[ch.index()];
        let mut i: usize = 0;
        while i < self.cells.len()
            invariant
                self.wf(),
                whole@ == masked_plane(*self, ch),
                mask_id == world::vocabulary(ch),
                mask_id <= 8,
                i <= self.cells@.len(),
                out@ == before + whole@.take(i as int),
            decreases self.cells@.len() - i,
        {
            if self.masked[i] {
                out.push(mask_id as i32);
            } else {
                out.push(self.cells[i].channel_id(ch) as i32);
            }
            assert(out@ =~= before + whole@.take(i + 1));
            i = i + 1;
        }
        assert(whole@.take(i as int) =~= whole@);
    }

    /// What the model is shown: the category ids, one channel after the other, with the
    /// masked cells at the id after the last category.
    pub fn tokens(&self) -> (r: Vec<i32>)
        requires
            self.wf(),
        ensures
            r@ == self.sheet(),
    {
        let mut r: Vec<i32> = Vec::new();
        self.push_masked_plane(&mut r, Channel::Entity);
        assert(r@ =~= masked_plane(*self, Channel::Entity));
        self.push_masked_plane(&mut r, Channel::Direction);
        self.push_masked_plane(&mut r, Channel::Item);
        self.push_masked_plane(&mut r, Channel::Misc);
        r
    }

    /// One round. The model has picked a legal cell for every masked one and scored the
    /// picks; the surest are committed, as many as the schedule asks for, and all that
    /// are left in the last round. The result says which.
    pub fn commit(
        &mut self,
        step: usize,
        steps: usize,
        scheduled: usize,
        scores: &Vec<i64>,
        picks: &Vec<usize>,
    ) -> (r: Vec<bool>)
        requires
            old(self).wf(),
            step < usize::MAX,
            scores@.len() == old(self).hidden_cells().len(),
            picks@.len() == old(self).hidden_cells().len(),
            forall|j: int| 0 <= j < picks@.len() ==> #[trigger] picks@[j] < LEGAL,
        ensures
            final(self).wf(),
            old(self).advanced(
                *final(self),
                step as int,
                share(
                    scores@.len(),
                    left_masked(step as int, steps as int, scheduled as nat),
                ),
                scores@,
                picks@,
            ),
            r@.len() == scores@.len(),
            forall|j: int|
                0 <= j < r@.len() ==> #[trigger] r@[j] == (ranking::rank(scores@, j) < share(
                    scores@.len(),
                    left_masked(step as int, steps as int, scheduled as nat),
                )),
            step + 1 >= steps ==> final(self).finished(),
    {
        let ghost before = *self;
        let ghost cells = self.hidden_cells();
        proof {
            lemma_hidden(self.masked@, self.masked@.len());
        }
        let stay = stay_masked(step, steps, scheduled);
        let count = reveal_count(scores.len(), stay);
        let places = self.masked_cells();
        let mut chosen: Vec<bool> = Vec::new();
        let mut j: usize = 0;
        while j < places.len()
            invariant
                before.wf(),
                self.wf(),
                cells == before.hidden_cells(),
                step < usize::MAX,
                places@.len() == cells.len(),
                scores@.len() == cells.len(),
                picks@.len() == cells.len(),
                forall|i: int| 0 <= i < picks@.len() ==> #[trigger] picks@[i] < LEGAL,
                forall|i: int| 0 <= i < places@.len() ==> #[trigger] places@[i] == cells[i],
                forall|i: int|
                    0 <= i < cells.len() ==> 0 <= #[trigger] cells[i] < before.masked@.len()
                        && before.masked@[cells[i]],
                forall|i: int, k: int|
                    0 <= i < k < cells.len() ==> #[trigger] cells[i] < #[trigger] cells[k],
                j <= places@.len(),
                chosen@.len() == j,
                self.width == before.width,
                self.height == before.height,
                self.obstacle@ == before.obstacle@,
                self.observed@ == before.observed@,
                self.masked0 == before.masked0,
                forall|k: int|
                    0 <= k < before.masked@.len() && !before.masked@[k] ==> (
                    #[trigger] self.cells@[k]) == before.cells@[k] && !self.masked@[k]
                        && self.reveal_step@[k] == before.reveal_step@[k],
                forall|i: int|
                    0 <= i < j ==> {
                        let k = #[trigger] cells[i];
                        if ranking::rank(scores@, i) < count {
                            self.cells@[k] == legal::legal_cell(picks@[i] as int)
                                && !self.masked@[k] && self.reveal_step@[k] == step + 1
                        } else {
                            self.cells@[k] == before.cells@[k] && self.masked@[k]
                                && self.reveal_step@[k] == before.reveal_step@[k]
                        }
                    },
                forall|i: int|
                    j <= i < cells.len() ==> {
                        let k = #[trigger] cells[i];
                        self.cells@[k] == before.cells@[k] && self.masked@[k]
                            && self.reveal_step@[k] == before.reveal_step@[k]
                    },
                forall|i: int|
                    0 <= i < j ==> #[trigger] chosen@[i] == (ranking::rank(scores@, i) < count),
            decreases places@.len() - j,
        {
            let k: usize = places[j];
            assert(k == cells[j as int]);
            assert(before.masked@[k as int]);
            let leads = rank_of(scores, j) < count;
            if leads {
                let cell = legal_at(picks[j]);
                proof {
                    legal::lemma_legal_is_consistent(picks@[j as int] as int);
                }
                let ghost held = *self;
                self.cells.set(k, cell);
                self.masked.set(k, false);
                self.reveal_step.set(k, step + 1);
                assert forall|c: int|
                    0 <= c < self.cells@.len() && !self.observed@[c] && !self.masked@[c] implies (
                #[trigger] self.reveal_step@[c]) > 0 && self.cells@[c].consistent() by {
                    if c != k {
                        assert(self.reveal_step@[c] == held.reveal_step@[c]);
                    }
                }
            }
            chosen.push(leads);
            j = j + 1;
        }
        proof {
            if step + 1 >= steps {
                assert forall|k: int| 0 <= k < self.masked@.len() implies !#[trigger] self.masked@[k]
                    by {
                    if before.masked@[k] {
                        let i = choose|i: int| 0 <= i < cells.len() && cells[i] == k;
                        ranking::lemma_rank_is_small(scores@, i);
                        assert(cells[i] == k);
                    } else {
                        assert(self.cells@[k] == before.cells@[k]);
                    }
                }
            }
        }
        chosen
    }

    /// The factory as far as it is decoded; masked cells read as empty.
    pub fn grid(&self) -> (r: Grid)
        requires
            self.wf(),
        ensures
            r.wf(),
            r@ == self.shown(),
    {
        let mut cells: Vec<Cell> = Vec::new();
        let mut i: usize = 0;
        while i < self.cells.len()
            invariant
                self.wf(),
                i <= self.cells@.len(),
                cells@.len() == i,
                forall|k: int|
                    0 <= k < i ==> #[trigger] cells@[k] == if self.masked@[k] {
                        world::empty_cell()
                    } else {
                        self.cells@[k]
                    },
            decreases self.cells@.len() - i,
        {
            if self.masked[i] {
                cells.push(Cell::default());
            } else {
                cells.push(self.cells[i]);
            }
            i = i + 1;
        }
        let obstacle = self.obstacle.clone();
        assert(obstacle@ =~= self.obstacle@);
        let r = Grid { width: self.width, height: self.height, cells, obstacle };
        assert(r@ =~= self.shown());
        r
    }
}

/// What is committed stays: a round changes no cell that was given or committed before.
pub proof fn law_committed_cells_are_frozen(
    s: Session,
    next: Session,
    step: int,
    count: nat,
    scores: Seq<i64>,
    picks: Seq<usize>,
    k: int,
)
    requires
        s.wf(),
        s.advanced(next, step, count, scores, picks),
        0 <= k < s.masked@.len(),
        !s.masked@[k],
    ensures
        next.shown().cells[k] == s.shown().cells[k],
        next.reveal_step@[k] == s.reveal_step@[k],
{
    assert(next.cells@[k] == s.cells@[k]);
}

/// A given cell is never masked and never changes, round after round.
proof fn lemma_given_cells_are_kept(
    run: Seq<Session>,
    partial: GridView,
    observed: Seq<bool>,
    k: int,
)
    requires
        run.len() > 0,
        run[0].begins(partial, observed),
        forall|i: int|
            0 <= i < run.len() - 1 ==> (#[trigger] run[i]).wf() && run[i].leads_to(run[i + 1]),
        0 <= k < observed.len(),
        partial.cells.len() == observed.len(),
        observed[k],
    ensures
        run.last().shown().cells[k] == partial.cells[k],
        run.last().shown().width == partial.width,
        run.last().shown().height == partial.height,
        run.last().shown().obstacle == partial.obstacle,
        run.last().observed@ == observed,
        !run.last().masked@[k],
        run.last().masked@.len() == observed.len(),
        run.last().cells@.len() == observed.len(),
    decreases run.len(),
{
    if run.len() > 1 {
        let before = run.drop_last();
        assert forall|i: int| 0 <= i < before.len() - 1 implies (#[trigger] before[i]).wf()
            && before[i].leads_to(before[i + 1]) by {
            assert(before[i] == run[i] && before[i + 1] == run[i + 1]);
        }
        lemma_given_cells_are_kept(before, partial, observed, k);
        let s = run[run.len() - 2];
        let next = run.last();
        assert(before.last() == s);
        assert(s.leads_to(run[run.len() - 2 + 1]));
        assert(next.cells@[k] == s.cells@[k]);
    } else {
        assert(run[0].masked@[k] == !observed[k]);
    }
}

/// What was given is kept: through any number of rounds, whatever the model said in them,
/// the given cells stay as the partial factory had them, and so do its size and its walls.
pub proof fn law_given_cells_are_kept(
    run: Seq<Session>,
    partial: GridView,
    observed: Seq<bool>,
    k: int,
)
    requires
        run.len() > 0,
        run[0].begins(partial, observed),
        forall|i: int|
            0 <= i < run.len() - 1 ==> (#[trigger] run[i]).wf() && run[i].leads_to(run[i + 1]),
        0 <= k < observed.len(),
        partial.cells.len() == observed.len(),
        observed[k],
    ensures
        run.last().shown().cells[k] == partial.cells[k],
        run.last().shown().width == partial.width,
        run.last().shown().height == partial.height,
        run.last().shown().obstacle == partial.obstacle,
{
    lemma_given_cells_are_kept(run, partial, observed, k);
}

/// What was decoded by a model was decoded by it before the last round.
proof fn lemma_decoded_before(
    run: Seq<Session>,
    model: spec_fn(Seq<Seq<i32>>, Seq<bool>, int) -> Round,
)
    requires
        run.len() > 0,
        decoded_by(run, model),
    ensures
        decoded_by(run.drop_last(), model),
{
    let before = run.drop_last();
    assert forall|i: int| 0 <= i < before.len() - 1 implies {
        let said = model(
            sheets(before.take(i + 1)),
            before[i].obstacle@,
            before[i].masked0 as int,
        );
        (#[trigger] before[i]).advanced(before[i + 1], i, said.count, said.scores, said.picks)
    } by {
        assert(before[i] == run[i] && before[i + 1] == run[i + 1]);
        assert(before.take(i + 1) =~= run.take(i + 1));
    }
}

/// Sessions that differ at most at masked cells show the same factory and the same ids.
proof fn lemma_alike_show_the_same(a: Session, b: Session)
    requires
        a.wf(),
        b.wf(),
        a.alike(b),
    ensures
        a.shown() == b.shown(),
        a.sheet() == b.sheet(),
{
    assert(a.shown().cells =~= b.shown().cells);
    assert(masked_plane(a, Channel::Entity) =~= masked_plane(b, Channel::Entity));
    assert(masked_plane(a, Channel::Direction) =~= masked_plane(b, Channel::Direction));
    assert(masked_plane(a, Channel::Item) =~= masked_plane(b, Channel::Item));
    assert(masked_plane(a, Channel::Misc) =~= masked_plane(b, Channel::Misc));
}

/// Partial factories that agree in their shape, their walls and their given cells are
/// decoded from sessions that show the same factory and the same ids.
pub proof fn law_masked_cells_are_not_read_at_the_start(
    a: Session,
    b: Session,
    partial_a: GridView,
    partial_b: GridView,
    observed: Seq<bool>,
)
    requires
        a.wf(),
        b.wf(),
        a.begins(partial_a, observed),
        b.begins(partial_b, observed),
        same_given(partial_a, partial_b, observed),
    ensures
        a.alike(b),
        a.shown() == b.shown(),
        a.sheet() == b.sheet(),
{
    assert(a.masked@ =~= b.masked@);
    assert(a.reveal_step@ =~= b.reveal_step@) by {
        assert forall|k: int| 0 <= k < observed.len() implies a.reveal_step@[k]
            == b.reveal_step@[k] by {
            assert(a.masked@[k] == !observed[k] && b.masked@[k] == !observed[k]);
            assert(a.observed@[k] == observed[k] && b.observed@[k] == observed[k]);
        }
    }
    assert forall|k: int| 0 <= k < a.cells@.len() && !a.masked@[k] implies #[trigger] a.cells@[k]
        == b.cells@[k] by {
        assert(a.masked@[k] == !observed[k]);
    }
    lemma_alike_show_the_same(a, b);
}

/// A round does the same to a cell of either of two sessions that differ at most at
/// masked cells.
proof fn lemma_same_round(
    a: Session,
    b: Session,
    next_a: Session,
    next_b: Session,
    step: int,
    count: nat,
    scores: Seq<i64>,
    picks: Seq<usize>,
    k: int,
)
    requires
        a.wf(),
        a.alike(b),
        a.advanced(next_a, step, count, scores, picks),
        b.advanced(next_b, step, count, scores, picks),
        0 <= k < a.masked@.len(),
    ensures
        next_a.masked@[k] == next_b.masked@[k],
        next_a.reveal_step@[k] == next_b.reveal_step@[k],
        !next_a.masked@[k] ==> next_a.cells@[k] == next_b.cells@[k],
{
    if a.masked@[k] {
        let cells = a.hidden_cells();
        lemma_hidden(a.masked@, a.masked@.len());
        let j = choose|j: int| 0 <= j < cells.len() && cells[j] == k;
        assert(cells[j] == k);
        assert(b.hidden_cells()[j] == k);
    } else {
        assert(next_a.cells@[k] == a.cells@[k]);
        assert(next_b.cells@[k] == b.cells@[k]);
    }
}

/// The same round keeps sessions that differ at most at masked cells so: they show the
/// same factory and the same ids again.
pub proof fn law_masked_cells_are_not_read_in_a_round(
    a: Session,
    b: Session,
    next_a: Session,
    next_b: Session,
    step: int,
    count: nat,
    scores: Seq<i64>,
    picks: Seq<usize>,
)
    requires
        a.wf(),
        b.wf(),
        next_a.wf(),
        next_b.wf(),
        a.alike(b),
        a.advanced(next_a, step, count, scores, picks),
        b.advanced(next_b, step, count, scores, picks),
    ensures
        next_a.alike(next_b),
        next_a.shown() == next_b.shown(),
        next_a.sheet() == next_b.sheet(),
{
    assert forall|k: int| 0 <= k < a.masked@.len() implies next_a.masked@[k] == next_b.masked@[k]
        && next_a.reveal_step@[k] == next_b.reveal_step@[k] by {
        lemma_same_round(a, b, next_a, next_b, step, count, scores, picks, k);
    }
    assert forall|k: int|
        0 <= k < next_a.cells@.len() && !next_a.masked@[k] implies #[trigger] next_a.cells@[k]
        == next_b.cells@[k] by {
        lemma_same_round(a, b, next_a, next_b, step, count, scores, picks, k);
    }
    assert(next_a.masked@ =~= next_b.masked@);
    assert(next_a.reveal_step@ =~= next_b.reveal_step@);
    lemma_alike_show_the_same(next_a, next_b);
}

/// Whether two partial factories agree in their shape, their walls and their given cells.
pub open spec fn same_given(a: GridView, b: GridView, observed: Seq<bool>) -> bool {
    &&& a.width == b.width
    &&& a.height == b.height
    &&& a.obstacle == b.obstacle
    &&& a.cells.len() == observed.len()
    &&& b.cells.len() == observed.len()
    &&& forall|k: int| 0 <= k < observed.len() && observed[k] ==> #[trigger] a.cells[k]
        == b.cells[k]
}

/// What a partial factory stores in a masked cell is never read: from partial factories
/// that agree in their shape, their walls and their given cells, one model decodes the
/// same factory in the same rounds.
pub proof fn law_masked_cells_are_never_read(
    run_a: Seq<Session>,
    run_b: Seq<Session>,
    partial_a: GridView,
    partial_b: GridView,
    observed: Seq<bool>,
    model: spec_fn(Seq<Seq<i32>>, Seq<bool>, int) -> Round,
)
    requires
        run_a.len() == run_b.len(),
        run_a.len() > 0,
        forall|i: int| 0 <= i < run_a.len() ==> (#[trigger] run_a[i]).wf(),
        forall|i: int| 0 <= i < run_b.len() ==> (#[trigger] run_b[i]).wf(),
        run_a[0].begins(partial_a, observed),
        run_b[0].begins(partial_b, observed),
        same_given(partial_a, partial_b, observed),
        decoded_by(run_a, model),
        decoded_by(run_b, model),
    ensures
        run_a.last().shown() == run_b.last().shown(),
        run_a.last().reveal_step@ == run_b.last().reveal_step@,
        sheets(run_a) == sheets(run_b),
        run_a.last().alike(run_b.last()),
    decreases run_a.len(),
{
    if run_a.len() == 1 {
        law_masked_cells_are_not_read_at_the_start(
            run_a[0],
            run_b[0],
            partial_a,
            partial_b,
            observed,
        );
        assert(sheets(run_a) =~= sheets(run_b));
    } else {
        let n = run_a.len() - 2;
        let (before_a, before_b) = (run_a.drop_last(), run_b.drop_last());
        lemma_decoded_before(run_a, model);
        lemma_decoded_before(run_b, model);
        law_masked_cells_are_never_read(
            before_a,
            before_b,
            partial_a,
            partial_b,
            observed,
            model,
        );
        let (a, b) = (run_a[n], run_b[n]);
        assert(before_a.last() == a && before_b.last() == b);
        assert(run_a.take(n + 1) =~= before_a && run_b.take(n + 1) =~= before_b);
        let said = model(sheets(before_a), a.obstacle@, a.masked0 as int);
        assert(run_a[n + 1] == run_a.last() && run_b[n + 1] == run_b.last());
        law_masked_cells_are_not_read_in_a_round(
            a,
            b,
            run_a.last(),
            run_b.last(),
            n,
            said.count,
            said.scores,
            said.picks,
        );
        assert(sheets(run_a) =~= sheets(before_a).push(run_a.last().sheet()));
        assert(sheets(run_b) =~= sheets(before_b).push(run_b.last().sheet()));
    }
}

/// Rounds number what they commit: after `n` rounds a committed cell carries a number
/// from one to `n`, and a cell that was given, or is still masked, carries zero.
pub proof fn law_cells_carry_their_round(
    run: Seq<Session>,
    partial: GridView,
    observed: Seq<bool>,
    model: spec_fn(Seq<Seq<i32>>, Seq<bool>, int) -> Round,
    k: int,
)
    requires
        run.len() > 0,
        forall|i: int| 0 <= i < run.len() ==> (#[trigger] run[i]).wf(),
        run[0].begins(partial, observed),
        decoded_by(run, model),
        0 <= k < observed.len(),
    ensures
        observed[k] || run.last().masked@[k] ==> run.last().reveal_step@[k] == 0,
        !observed[k] && !run.last().masked@[k] ==> 1 <= run.last().reveal_step@[k] <= run.len()
            - 1,
        run.last().observed@ == observed,
        run.last().masked@.len() == observed.len(),
    decreases run.len(),
{
    if run.len() == 1 {
        assert(run[0].masked@[k] == !observed[k]);
    } else {
        let n = run.len() - 2;
        let before = run.drop_last();
        lemma_decoded_before(run, model);
        law_cells_carry_their_round(before, partial, observed, model, k);
        let (s, next) = (run[n], run[n + 1]);
        assert(before.last() == s && run.last() == next);
        if s.masked@[k] {
            let cells = s.hidden_cells();
            lemma_hidden(s.masked@, s.masked@.len());
            let j = choose|j: int| 0 <= j < cells.len() && cells[j] == k;
            assert(cells[j] == k);
        } else {
            assert(next.cells@[k] == s.cells@[k]);
        }
    }
}

/// When nothing is masked any more every cell that was not given is legal, and carries
/// the round in which it was committed, while the given ones carry zero.
pub proof fn law_a_finished_factory_is_decoded_throughout(s: Session, k: int)
    requires
        s.wf(),
        s.finished(),
        0 <= k < s.cells@.len(),
    ensures
        s.shown().cells[k] == s.cells@[k],
        s.observed@[k] <==> s.reveal_step@[k] == 0,
        !s.observed@[k] ==> s.shown().cells[k].consistent(),
{
    assert(!s.masked@[k]);
}

/// A round commits the cells that score highest: none that stays masked scores higher than
/// one that is committed, and of two that score the same the first in row order is.
pub proof fn law_a_round_commits_the_surest(
    s: Session,
    next: Session,
    step: int,
    count: nat,
    scores: Seq<i64>,
    picks: Seq<usize>,
    i: int,
    j: int,
)
    requires
        s.wf(),
        scores.len() == s.hidden_cells().len(),
        s.advanced(next, step, count, scores, picks),
        0 <= i < scores.len(),
        0 <= j < scores.len(),
        !next.masked@[s.hidden_cells()[i]],
        next.masked@[s.hidden_cells()[j]],
    ensures
        scores[i] >= scores[j],
        scores[i] == scores[j] ==> s.hidden_cells()[i] < s.hidden_cells()[j],
{
    let cells = s.hidden_cells();
    lemma_hidden(s.masked@, s.masked@.len());
    assert(cells[i] == cells[i] && cells[j] == cells[j]);
    if scores[j] > scores[i] || scores[j] == scores[i] && j <= i {
        if i != j {
            ranking::law_higher_scores_rank_first(scores, j, i);
        }
    }
}

/// The masked cells are asked about in row order, each once.
pub proof fn law_every_masked_cell_is_asked_about(s: Session, k: int)
    requires
        0 <= k < s.masked@.len(),
    ensures
        s.masked@[k] <==> s.hidden_cells().contains(k),
        forall|i: int, j: int|
            0 <= i < j < s.hidden_cells().len() ==> #[trigger] s.hidden_cells()[i]
                < #[trigger] s.hidden_cells()[j],
{
    let cells = s.hidden_cells();
    lemma_hidden(s.masked@, s.masked@.len());
    if s.masked@[k] {
        let j = choose|j: int| 0 <= j < cells.len() && cells[j] == k;
        assert(cells[j] == k);
    }
    if cells.contains(k) {
        assert(s.masked@[cells[cells.index_of(k)]]);
    }
}

/// A committed cell is the legal one that was picked for it, and carries the number of the
/// round, counted from one.
pub proof fn law_a_committed_cell_is_the_one_picked(
    s: Session,
    next: Session,
    step: int,
    count: nat,
    scores: Seq<i64>,
    picks: Seq<usize>,
    i: int,
)
    requires
        s.wf(),
        scores.len() == s.hidden_cells().len(),
        picks.len() == scores.len(),
        s.advanced(next, step, count, scores, picks),
        0 <= i < scores.len(),
        !next.masked@[s.hidden_cells()[i]],
    ensures
        next.cells@[s.hidden_cells()[i]] == legal::legal_cell(picks[i] as int),
        next.reveal_step@[s.hidden_cells()[i]] == step + 1,
{
    let k = s.hidden_cells()[i];
    assert(k == s.hidden_cells()[i]);
}

/// How many cells are masked.
pub open spec fn masked_count(s: Session) -> nat {
    Set::new(|k: int| 0 <= k < s.masked@.len() && s.masked@[k]).len()
}

/// After a round as many cells are masked as the schedule says, but at least one fewer than
/// before, and after the last round none is.
pub proof fn law_a_round_leaves_what_is_scheduled(
    s: Session,
    next: Session,
    step: int,
    steps: int,
    scheduled: nat,
    scores: Seq<i64>,
    picks: Seq<usize>,
)
    requires
        s.wf(),
        scores.len() == s.hidden_cells().len(),
        s.advanced(
            next,
            step,
            share(scores.len(), left_masked(step, steps, scheduled)),
            scores,
            picks,
        ),
    ensures
        masked_count(s) == scores.len(),
        step + 1 >= steps ==> masked_count(next) == 0,
        step + 1 < steps && scheduled < masked_count(s) ==> masked_count(next) == scheduled,
        step + 1 < steps && masked_count(s) > 0 && scheduled >= masked_count(s) ==> masked_count(
            next,
        ) == masked_count(s) - 1,
{
    let cells = s.hidden_cells();
    let stay = left_masked(step, steps, scheduled);
    let was = Set::new(|k: int| 0 <= k < s.masked@.len() && s.masked@[k]);
    let now = Set::new(|k: int| 0 <= k < next.masked@.len() && next.masked@[k]);
    let revealed = Set::new(
        |k: int| 0 <= k < s.masked@.len() && s.masked@[k] && !next.masked@[k],
    );
    lemma_hidden(s.masked@, s.masked@.len());
    assert(cells.to_set() =~= was) by {
        assert forall|k: int| was.contains(k) implies cells.to_set().contains(k) by {
            let j = choose|j: int| 0 <= j < cells.len() && cells[j] == k;
            assert(cells.contains(cells[j]));
        }
        assert forall|k: int| cells.to_set().contains(k) implies was.contains(k) by {
            let j = cells.index_of(k);
            assert(s.masked@[cells[j]]);
        }
    }
    assert(cells.no_duplicates());
    cells.unique_seq_to_set();
    law_a_round_commits_its_share(s, next, step, stay, scores, picks);
    assert(now =~= was.difference(revealed)) by {
        assert forall|k: int| now.contains(k) implies was.contains(k) by {
            if !s.masked@[k] {
                assert(next.cells@[k] == s.cells@[k]);
            }
        }
    }
    assert(revealed.subset_of(was));
    vstd::set_lib::lemma_len_subset(revealed, was);
    assert(was =~= now.union(revealed));
    assert(now.disjoint(revealed));
    vstd::set_lib::lemma_set_disjoint_lens(now, revealed);
}

/// What a model is shown: channel by channel, for each cell its category, or the first id
/// past the categories where the cell is masked.
pub proof fn law_masked_cells_are_shown_past_the_vocabulary(s: Session, ch: Channel, k: int)
    requires
        s.wf(),
        0 <= k < s.cells@.len(),
    ensures
        ({
            let n = s.cells@.len() as int;
            let (at, id, size): (int, int, int) = match ch {
                Channel::Entity => (0, s.cells@[k].entity.code() as int, 8),
                Channel::Direction => (n, s.cells@[k].direction.code() as int, 5),
                Channel::Item => (2 * n, s.cells@[k].item.code() as int, 6),
                Channel::Misc => (3 * n, s.cells@[k].misc.code() as int, 3),
            };
            &&& s.sheet().len() == 4 * n
            &&& s.sheet()[at + k] == (if s.masked@[k] {
                size
            } else {
                id
            })
        }),
{
    let n = s.cells@.len() as int;
    let e = masked_plane(s, Channel::Entity);
    let d = masked_plane(s, Channel::Direction);
    let i = masked_plane(s, Channel::Item);
    let m = masked_plane(s, Channel::Misc);
    assert(s.sheet() == e + d + i + m);
    assert(e[k] == e[k] && d[k] == d[k] && i[k] == i[k] && m[k] == m[k]);
    match ch {
        Channel::Entity => {
            assert(s.sheet()[k] == e[k]);
        },
        Channel::Direction => {
            assert(s.sheet()[n + k] == d[k]);
        },
        Channel::Item => {
            assert(s.sheet()[2 * n + k] == i[k]);
        },
        Channel::Misc => {
            assert(s.sheet()[3 * n + k] == m[k]);
        },
    }
}

/// A round commits as many cells as its share, no more and no fewer.
pub proof fn law_a_round_commits_its_share(
    s: Session,
    next: Session,
    step: int,
    stay: nat,
    scores: Seq<i64>,
    picks: Seq<usize>,
)
    requires
        s.wf(),
        scores.len() == s.hidden_cells().len(),
        s.advanced(next, step, share(scores.len(), stay), scores, picks),
    ensures
        Set::new(
            |k: int| 0 <= k < s.masked@.len() && s.masked@[k] && !next.masked@[k],
        ).len() == share(scores.len(), stay),
{
    let count = share(scores.len(), stay);
    let cells = s.hidden_cells();
    let leaders = ranking::leaders(scores, count);
    let revealed = Set::new(
        |k: int| 0 <= k < s.masked@.len() && s.masked@[k] && !next.masked@[k],
    );
    lemma_hidden(s.masked@, s.masked@.len());
    ranking::law_as_many_lead_as_are_asked_for(scores, count);
    assert forall|j: int| leaders.contains(j) implies revealed.contains(cells[j]) by {
        assert(s.masked@[cells[j]]);
    }
    assert forall|k: int| #[trigger] revealed.contains(k) implies exists|j: int|
        leaders.contains(j) && k == cells[j] by {
        let j = choose|j: int| 0 <= j < cells.len() && cells[j] == k;
        assert(cells[j] == k);
        assert(leaders.contains(j));
    }
    let place = |j: int| cells[j];
    assert forall|k: int| leaders.map(place).contains(k) <==> #[trigger] revealed.contains(k) by {
        if revealed.contains(k) {
            let j = choose|j: int| leaders.contains(j) && k == cells[j];
            assert(leaders.contains(j) && place(j) == k);
        }
    }
    assert(leaders.map(place) =~= revealed);
    vstd::set_lib::lemma_map_size(leaders, revealed, place);
}

/// The factory as far as it is decoded has the cells that are not masked and the walls;
/// where a cell is masked it reads as empty.
pub proof fn law_masked_cells_read_as_empty(s: Session, k: int)
    requires
        0 <= k < s.cells@.len(),
    ensures
        s.shown().cells.len() == s.cells@.len(),
        s.shown().obstacle == s.obstacle@,
        s.masked@[k] ==> s.shown().cells[k].entity is Empty && s.shown().cells[k].consistent(),
        !s.masked@[k] ==> s.shown().cells[k] == s.cells@[k],
{
}

/// Decoding begins with the partial factory: its cells and its walls stand, exactly what was
/// not given is masked, and as many cells as that are counted.
pub proof fn law_how_decoding_begins(s: Session, partial: GridView, observed: Seq<bool>, k: int)
    requires
        s.wf(),
        s.begins(partial, observed),
        0 <= k < observed.len(),
    ensures
        (s.width as nat, s.height as nat) == (partial.width, partial.height),
        s.cells@ == partial.cells,
        s.obstacle@ == partial.obstacle,
        s.observed@ == observed,
        s.masked@[k] <==> !observed[k],
        s.reveal_step@[k] == 0,
        s.masked0 == s.hidden_cells().len(),
        forall|c: int|
            0 <= c < s.masked@.len() ==> (#[trigger] s.masked@[c] <==> s.hidden_cells().contains(
                c,
            )),
{
    lemma_hidden(s.masked@, s.masked@.len());
    assert(s.masked@[k] == !observed[k]);
    assert forall|c: int| 0 <= c < s.masked@.len() implies (#[trigger] s.masked@[c]
        <==> s.hidden_cells().contains(c)) by {
        if s.masked@[c] {
            let j = choose|j: int|
                0 <= j < s.hidden_cells().len() && s.hidden_cells()[j] == c;
            assert(s.hidden_cells()[j] == c);
        }
        if s.hidden_cells().contains(c) {
            let j = s.hidden_cells().index_of(c);
            assert(s.hidden_cells()[j] == c);
        }
    }
}

/// A round changes nothing but the cells it commits, and marks those with its number,
/// counted from one.
pub proof fn law_what_a_round_changes(
    s: Session,
    next: Session,
    step: int,
    count: nat,
    scores: Seq<i64>,
    picks: Seq<usize>,
    k: int,
)
    requires
        s.wf(),
        s.advanced(next, step, count, scores, picks),
        0 <= k < s.masked@.len(),
    ensures
        (next.width, next.height, next.masked0) == (s.width, s.height, s.masked0),
        next.obstacle@ == s.obstacle@,
        next.observed@ == s.observed@,
        s.masked@[k] && !next.masked@[k] ==> next.reveal_step@[k] == step + 1,
        s.masked@[k] == next.masked@[k] ==> next.reveal_step@[k] == s.reveal_step@[k]
            && next.cells@[k] == s.cells@[k],
        !s.masked@[k] ==> !next.masked@[k],
{
    lemma_hidden(s.masked@, s.masked@.len());
    if s.masked@[k] {
        let j = choose|j: int| 0 <= j < s.hidden_cells().len() && s.hidden_cells()[j] == k;
        assert(s.hidden_cells()[j] == k);
    } else {
        assert(next.cells@[k] == s.cells@[k]);
    }
}

} // verus!
