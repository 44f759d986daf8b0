//! Finding the way a belt takes across the board.

use vstd::prelude::*;
use crate::factory_gen::canvas::Canvas;
use crate::sim;
use crate::sim::holds;
use crate::world::grid;
use crate::world::grid::GridView;
use crate::world::{Cell, Direction, Grid, MAX_SIDE};

pub mod laws;

verus! {

/// Whether a route from `start` to `goal` may use a tile. Both ends always may be
/// used; any other tile has to be free of obstacles and entities and must not be
/// on the list of tiles to avoid.
pub open spec fn passable(
    g: GridView,
    start: (int, int),
    goal: (int, int),
    avoid: Seq<(int, int)>,
    p: (int, int),
) -> bool {
    &&& g.inside(p.0, p.1)
    &&& p == start || p == goal || (!avoid.contains(p) && !g.blocked(p.0, p.1) && g.anchor_of(
        p.0,
        p.1,
    ) is None)
}

/// Where a sequence of steps leads.
pub open spec fn walk(start: (int, int), moves: Seq<Direction>) -> (int, int)
    decreases moves.len(),
{
    if moves.len() == 0 {
        start
    } else {
        let p = walk(start, moves.drop_last());
        (p.0 + moves.last().dx(), p.1 + moves.last().dy())
    }
}

/// Whether every step of a sequence leads to a tile that may be used.
pub open spec fn open_walk(
    g: GridView,
    start: (int, int),
    goal: (int, int),
    avoid: Seq<(int, int)>,
    moves: Seq<Direction>,
) -> bool
    decreases moves.len(),
{
    moves.len() > 0 ==> {
        &&& open_walk(g, start, goal, avoid, moves.drop_last())
        &&& moves.last() !is Nowhere
        &&& passable(g, start, goal, avoid, walk(start, moves))
    }
}

/// The tiles that a sequence of steps visits, both ends included.
pub open spec fn trace(start: (int, int), moves: Seq<Direction>) -> Seq<(int, int)> {
    Seq::new(moves.len() + 1, |i: int| walk(start, moves.take(i)))
}

/// Of two sequences of the same length, whether the first one turns north before
/// east before south before west where the two first differ.
pub open spec fn earlier(a: Seq<Direction>, b: Seq<Direction>) -> bool
    decreases a.len(),
{
    &&& a.len() > 0
    &&& a.len() == b.len()
    &&& {
        ||| earlier(a.drop_last(), b.drop_last())
        ||| a.drop_last() == b.drop_last() && a.last().code() < b.last().code()
    }
}

/// Shorter sequences come first, and among those of one length the earlier one.
pub open spec fn preferred(a: Seq<Direction>, b: Seq<Direction>) -> bool {
    a.len() < b.len() || earlier(a, b)
}

/// Whether a sequence of steps is a way from `start` to `goal`.
pub open spec fn is_route(
    g: GridView,
    start: (int, int),
    goal: (int, int),
    avoid: Seq<(int, int)>,
    moves: Seq<Direction>,
) -> bool {
    open_walk(g, start, goal, avoid, moves) && walk(start, moves) == goal
}

/// Whether a sequence of steps is the way that comes first: a shortest one, and
/// among the shortest the one that turns north, east, south, west in that order of
/// preference.
pub open spec fn is_best_route(
    g: GridView,
    start: (int, int),
    goal: (int, int),
    avoid: Seq<(int, int)>,
    moves: Seq<Direction>,
) -> bool {
    &&& is_route(g, start, goal, avoid, moves)
    &&& forall|other: Seq<Direction>| #[trigger]
        is_route(g, start, goal, avoid, other) ==> other == moves || preferred(moves, other)
}

/// The way that comes first, if there is a way at all.
pub open spec fn best_route(
    g: GridView,
    start: (int, int),
    goal: (int, int),
    avoid: Seq<(int, int)>,
) -> Option<Seq<Direction>> {
    if exists|m: Seq<Direction>| is_route(g, start, goal, avoid, m) {
        Some(choose|m: Seq<Direction>| is_best_route(g, start, goal, avoid, m))
    } else {
        None
    }
}

proof fn lemma_earlier_irreflexive(a: Seq<Direction>)
    ensures
        !earlier(a, a),
    decreases a.len(),
{
    if a.len() > 0 {
        lemma_earlier_irreflexive(a.drop_last());
    }
}

proof fn lemma_earlier_transitive(a: Seq<Direction>, b: Seq<Direction>, c: Seq<Direction>)
    requires
        earlier(a, b),
        earlier(b, c),
    ensures
        earlier(a, c),
    decreases a.len(),
{
    if earlier(a.drop_last(), b.drop_last()) && earlier(b.drop_last(), c.drop_last()) {
        lemma_earlier_transitive(a.drop_last(), b.drop_last(), c.drop_last());
    }
}

proof fn lemma_preferred_transitive(a: Seq<Direction>, b: Seq<Direction>, c: Seq<Direction>)
    requires
        a == b || preferred(a, b),
        b == c || preferred(b, c),
    ensures
        a == c || preferred(a, c),
        preferred(a, b) || preferred(b, c) ==> preferred(a, c),
{
    if earlier(a, b) && earlier(b, c) {
        lemma_earlier_transitive(a, b, c);
    }
}

proof fn lemma_preferred_asymmetric(a: Seq<Direction>, b: Seq<Direction>)
    requires
        preferred(a, b),
    ensures
        !preferred(b, a),
        a != b,
{
    lemma_earlier_irreflexive(a);
    if preferred(b, a) {
        lemma_earlier_transitive(a, b, a);
    }
}

proof fn lemma_preferred_push(a: Seq<Direction>, b: Seq<Direction>, x: Direction, y: Direction)
    requires
        preferred(a, b) || (a == b && x.code() < y.code()),
    ensures
        preferred(a.push(x), b.push(y)),
{
    assert(a.push(x).drop_last() =~= a);
    assert(b.push(y).drop_last() =~= b);
}

/// At most one way comes first.
pub proof fn lemma_best_route_unique(
    g: GridView,
    start: (int, int),
    goal: (int, int),
    avoid: Seq<(int, int)>,
    a: Seq<Direction>,
    b: Seq<Direction>,
)
    requires
        is_best_route(g, start, goal, avoid, a),
        is_best_route(g, start, goal, avoid, b),
    ensures
        a == b,
{
    if a != b {
        lemma_preferred_asymmetric(a, b);
    }
}

/// The search so far: the tiles reached, in the order in which they were reached,
/// and the steps that lead to each.
pub struct Reach {
    pub order: Seq<(int, int)>,
    pub moves: Seq<Seq<Direction>>,
    pub parent: Seq<int>,
}

/// The `q`-th direction in the order of the search.
pub open spec fn turn(q: int) -> Direction {
    if q == 0 {
        Direction::North
    } else if q == 1 {
        Direction::East
    } else if q == 2 {
        Direction::South
    } else {
        Direction::West
    }
}

pub open spec fn neighbour(p: (int, int), d: Direction) -> (int, int) {
    (p.0 + d.dx(), p.1 + d.dy())
}

impl Reach {
    /// Each tile is reached by an open walk from the start that extends that of an
    /// earlier tile by one step, and walks are listed in order of preference.
    #[verifier::opaque]
    spec fn sound(
        self,
        g: GridView,
        start: (int, int),
        goal: (int, int),
        avoid: Seq<(int, int)>,
    ) -> bool {
        &&& self.order.len() == self.moves.len() == self.parent.len()
        &&& self.order.len() > 0
        &&& self.moves[0] == Seq::<Direction>::empty()
        &&& self.order[0] == start
        &&& forall|k: int|
            0 <= k < self.order.len() ==> {
                &&& open_walk(g, start, goal, avoid, #[trigger] self.moves[k])
                &&& walk(start, self.moves[k]) == self.order[k]
                &&& g.inside(self.order[k].0, self.order[k].1)
            }
        &&& forall|i: int, j: int|
            0 <= i < j < self.order.len() ==> preferred(
                #[trigger] self.moves[i],
                #[trigger] self.moves[j],
            )
        &&& forall|i: int, j: int|
            0 <= i < j < self.order.len() ==> #[trigger] self.order[i] != #[trigger] self.order[j]
        &&& forall|k: int|
            1 <= k < self.order.len() ==> {
                &&& 0 <= #[trigger] self.parent[k] < k
                &&& self.moves[k].len() > 0
                &&& self.moves[k].drop_last() == self.moves[self.parent[k]]
            }
    }

    /// The walk of tile `i`, one step further towards `turn(q)`, leads to a tile
    /// that is closed to the route or reached by a walk at least as good.
    spec fn answered(
        self,
        g: GridView,
        start: (int, int),
        goal: (int, int),
        avoid: Seq<(int, int)>,
        i: int,
        q: int,
    ) -> bool {
        passable(g, start, goal, avoid, neighbour(self.order[i], turn(q))) ==> exists|j: int|
            0 <= j < self.order.len() && #[trigger] self.order[j] == neighbour(
                self.order[i],
                turn(q),
            ) && (self.moves[j] == self.moves[i].push(turn(q)) || preferred(
                self.moves[j],
                self.moves[i].push(turn(q)),
            ))
    }

    /// Every tile before the `head`-th has been left in all four directions, and
    /// the `head`-th itself in the first `q`.
    #[verifier::opaque]
    spec fn explored(
        self,
        g: GridView,
        start: (int, int),
        goal: (int, int),
        avoid: Seq<(int, int)>,
        head: int,
        q: int,
    ) -> bool {
        &&& forall|i: int, t: int|
            0 <= i < head && 0 <= t < 4 ==> #[trigger] self.answered(g, start, goal, avoid, i, t)
        &&& forall|t: int|
            0 <= t < q ==> #[trigger] self.answered(g, start, goal, avoid, head, t)
        &&& forall|k: int|
            1 <= k < self.order.len() ==> {
                &&& #[trigger] self.parent[k] <= head
                &&& self.parent[k] == head ==> self.moves[k].last().code() < q + 1
            }
    }
}

/// Any open walk that is preferred to that of the `head`-th tile leads to a tile
/// that was left before.
proof fn lemma_covered(
    r: Reach,
    g: GridView,
    start: (int, int),
    goal: (int, int),
    avoid: Seq<(int, int)>,
    head: int,
    w: Seq<Direction>,
) -> (i: int)
    requires
        r.sound(g, start, goal, avoid),
        r.explored(g, start, goal, avoid, head, 0),
        0 <= head <= r.order.len(),
        open_walk(g, start, goal, avoid, w),
        head == r.order.len() || preferred(w, r.moves[head]),
    ensures
        0 <= i < head,
        r.order[i] == walk(start, w),
        r.moves[i] == w || preferred(r.moves[i], w),
    decreases w.len(),
{
    reveal(Reach::sound);
    reveal(Reach::explored);
    if w.len() == 0 {
        assert(w =~= r.moves[0]);
        if head == 0 {
            lemma_preferred_asymmetric(w, r.moves[head]);
        }
        0
    } else {
        let v = w.drop_last();
        let d = w.last();
        assert(w =~= v.push(d));
        if head < r.order.len() {
            lemma_preferred_transitive(v, w, r.moves[head]);
        }
        let i = lemma_covered(r, g, start, goal, avoid, head, v);
        let q = d.code() - 1;
        assert(turn(q) == d);
        assert(r.answered(g, start, goal, avoid, i, q));
        let j = choose|j: int|
            0 <= j < r.order.len() && #[trigger] r.order[j] == neighbour(r.order[i], turn(q)) && (
            r.moves[j] == r.moves[i].push(turn(q)) || preferred(
                r.moves[j],
                r.moves[i].push(turn(q)),
            ));
        if r.moves[i] != v {
            lemma_preferred_push(r.moves[i], v, d, d);
        }
        lemma_preferred_transitive(r.moves[j], r.moves[i].push(d), w);
        if j >= head && head < r.order.len() {
            lemma_preferred_transitive(r.moves[j], w, r.moves[head]);
            if j > head {
                lemma_preferred_asymmetric(r.moves[head], r.moves[j]);
            } else {
                lemma_preferred_asymmetric(r.moves[j], r.moves[head]);
            }
        }
        j
    }
}

/// Every walk reached so far is preferred to the next one that the search tries.
proof fn lemma_next_is_last(
    r: Reach,
    g: GridView,
    start: (int, int),
    goal: (int, int),
    avoid: Seq<(int, int)>,
    head: int,
    q: int,
    k: int,
)
    requires
        r.sound(g, start, goal, avoid),
        r.explored(g, start, goal, avoid, head, q),
        0 <= head < r.order.len(),
        0 <= q < 4,
        0 <= k < r.order.len(),
    ensures
        preferred(r.moves[k], r.moves[head].push(turn(q))),
{
    reveal(Reach::sound);
    reveal(Reach::explored);
    if k > 0 {
        let i = r.parent[k];
        let m = r.moves[k];
        assert(m =~= r.moves[i].push(m.last()));
        lemma_preferred_push(r.moves[i], r.moves[head], m.last(), turn(q));
    }
}

/// Reaching a new tile keeps the search sound.
proof fn lemma_extend(
    r: Reach,
    g: GridView,
    start: (int, int),
    goal: (int, int),
    avoid: Seq<(int, int)>,
    head: int,
    q: int,
) -> (next: Reach)
    requires
        r.sound(g, start, goal, avoid),
        r.explored(g, start, goal, avoid, head, q),
        0 <= head < r.order.len(),
        0 <= q < 4,
        passable(g, start, goal, avoid, neighbour(r.order[head], turn(q))),
        !r.order.contains(neighbour(r.order[head], turn(q))),
    ensures
        next.order == r.order.push(neighbour(r.order[head], turn(q))),
        next.moves == r.moves.push(r.moves[head].push(turn(q))),
        next.parent == r.parent.push(head),
        next.sound(g, start, goal, avoid),
        next.explored(g, start, goal, avoid, head, q + 1),
{
    reveal(Reach::sound);
    reveal(Reach::explored);
    let n = neighbour(r.order[head], turn(q));
    let m = r.moves[head].push(turn(q));
    let next = Reach { order: r.order.push(n), moves: r.moves.push(m), parent: r.parent.push(head) };
    assert(m.drop_last() =~= r.moves[head]);
    let last = r.order.len() as int;
    assert forall|i: int, j: int| 0 <= i < j < next.order.len() implies preferred(
        #[trigger] next.moves[i],
        #[trigger] next.moves[j],
    ) by {
        if j == last {
            lemma_next_is_last(r, g, start, goal, avoid, head, q, i);
        }
    }
    assert forall|i: int, j: int| 0 <= i < j < next.order.len() implies #[trigger] next.order[i]
        != #[trigger] next.order[j] by {
        if j == last {
            assert(r.order.contains(r.order[i]));
        }
    }
    assert forall|i: int, t: int| 0 <= i < last && r.answered(g, start, goal, avoid, i, t) implies
        #[trigger] next.answered(g, start, goal, avoid, i, t) by {
        if passable(g, start, goal, avoid, neighbour(r.order[i], turn(t))) {
            let j = choose|j: int|
                0 <= j < r.order.len() && #[trigger] r.order[j] == neighbour(r.order[i], turn(t))
                    && (r.moves[j] == r.moves[i].push(turn(t)) || preferred(
                    r.moves[j],
                    r.moves[i].push(turn(t)),
                ));
            assert(next.order[j] == r.order[j]);
        }
    }
    assert(next.answered(g, start, goal, avoid, head, q)) by {
        assert(next.order[last] == n);
    }
    assert forall|t: int| 0 <= t < q + 1 implies #[trigger] next.answered(
        g,
        start,
        goal,
        avoid,
        head,
        t,
    ) by {
        if t < q {
            assert(r.answered(g, start, goal, avoid, head, t));
        }
    }
    assert forall|i: int, t: int| 0 <= i < head && 0 <= t < 4 implies #[trigger] next.answered(
        g,
        start,
        goal,
        avoid,
        i,
        t,
    ) by {
        assert(r.answered(g, start, goal, avoid, i, t));
    }
    next
}

/// Passing over a tile that is closed or already reached keeps the search sound.
proof fn lemma_pass_over(
    r: Reach,
    g: GridView,
    start: (int, int),
    goal: (int, int),
    avoid: Seq<(int, int)>,
    head: int,
    q: int,
)
    requires
        r.sound(g, start, goal, avoid),
        r.explored(g, start, goal, avoid, head, q),
        0 <= head < r.order.len(),
        0 <= q < 4,
        passable(g, start, goal, avoid, neighbour(r.order[head], turn(q))) ==> r.order.contains(
            neighbour(r.order[head], turn(q)),
        ),
    ensures
        r.explored(g, start, goal, avoid, head, q + 1),
{
    reveal(Reach::sound);
    reveal(Reach::explored);
    let n = neighbour(r.order[head], turn(q));
    if passable(g, start, goal, avoid, n) {
        let j = r.order.index_of(n);
        assert(r.order[j] == n);
        lemma_next_is_last(r, g, start, goal, avoid, head, q, j);
    }
    assert(r.answered(g, start, goal, avoid, head, q));
}

/// The search starts with the start tile alone.
proof fn lemma_begin(g: GridView, start: (int, int), goal: (int, int), avoid: Seq<(int, int)>) -> (r:
    Reach)
    requires
        g.inside(start.0, start.1),
    ensures
        r.order == seq![start],
        r.sound(g, start, goal, avoid),
        r.explored(g, start, goal, avoid, 0, 0),
{
    reveal(Reach::sound);
    reveal(Reach::explored);
    let r = Reach { order: seq![start], moves: seq![seq![]], parent: seq![0] };
    assert(open_walk(g, start, goal, avoid, r.moves[0]));
    r
}

/// What is known of the `k`-th tile reached.
proof fn lemma_reached(
    r: Reach,
    g: GridView,
    start: (int, int),
    goal: (int, int),
    avoid: Seq<(int, int)>,
    k: int,
)
    requires
        r.sound(g, start, goal, avoid),
        0 <= k < r.order.len(),
    ensures
        r.moves.len() == r.order.len(),
        r.parent.len() == r.order.len(),
        g.inside(r.order[k].0, r.order[k].1),
        open_walk(g, start, goal, avoid, r.moves[k]),
        walk(start, r.moves[k]) == r.order[k],
        r.order[0] == start,
        r.moves[0] == Seq::<Direction>::empty(),
        k > 0 ==> {
            &&& r.order[k] != start
            &&& 0 <= r.parent[k] < k
            &&& r.moves[k].len() > 0
            &&& r.moves[k].drop_last() == r.moves[r.parent[k]]
        },
{
    reveal(Reach::sound);
    assert(open_walk(g, start, goal, avoid, r.moves[k]));
    if k > 0 {
        assert(r.order[0] != r.order[k]);
    }
}

/// A tile that was left in all four directions is done with.
proof fn lemma_advance(
    r: Reach,
    g: GridView,
    start: (int, int),
    goal: (int, int),
    avoid: Seq<(int, int)>,
    head: int,
)
    requires
        r.explored(g, start, goal, avoid, head, 4),
    ensures
        r.explored(g, start, goal, avoid, head + 1, 0),
{
    reveal(Reach::explored);
    assert forall|i: int, t: int| 0 <= i < head + 1 && 0 <= t < 4 implies #[trigger] r.answered(
        g,
        start,
        goal,
        avoid,
        i,
        t,
    ) by {}
}

/// The walk to the goal that the search finds first is the best one.
proof fn lemma_found(
    r: Reach,
    g: GridView,
    start: (int, int),
    goal: (int, int),
    avoid: Seq<(int, int)>,
    head: int,
)
    requires
        r.sound(g, start, goal, avoid),
        r.explored(g, start, goal, avoid, head, 0),
        0 <= head < r.order.len(),
        r.order[head] == goal,
        forall|i: int| 0 <= i < head ==> #[trigger] r.order[i] != goal,
    ensures
        is_best_route(g, start, goal, avoid, r.moves[head]),
        best_route(g, start, goal, avoid) == Some(r.moves[head]),
{
    let m = r.moves[head];
    lemma_reached(r, g, start, goal, avoid, head);
    assert forall|w: Seq<Direction>| #[trigger] is_route(g, start, goal, avoid, w) implies w == m
        || preferred(m, w) by {
        lemma_total(w, m);
        if preferred(w, m) {
            let i = lemma_covered(r, g, start, goal, avoid, head, w);
            assert(r.order[i] == goal);
        }
    }
    assert(is_route(g, start, goal, avoid, m));
    assert(is_best_route(g, start, goal, avoid, m));
    let best = choose|b: Seq<Direction>| is_best_route(g, start, goal, avoid, b);
    lemma_best_route_unique(g, start, goal, avoid, m, best);
}

/// A search that runs out of tiles has shown that there is no way.
proof fn lemma_exhausted(
    r: Reach,
    g: GridView,
    start: (int, int),
    goal: (int, int),
    avoid: Seq<(int, int)>,
)
    requires
        r.sound(g, start, goal, avoid),
        r.explored(g, start, goal, avoid, r.order.len() as int, 0),
        forall|i: int| 0 <= i < r.order.len() ==> #[trigger] r.order[i] != goal,
    ensures
        !exists|m: Seq<Direction>| is_route(g, start, goal, avoid, m),
{
    if exists|m: Seq<Direction>| is_route(g, start, goal, avoid, m) {
        let m = choose|m: Seq<Direction>| is_route(g, start, goal, avoid, m);
        let i = lemma_covered(r, g, start, goal, avoid, r.order.len() as int, m);
        assert(r.order[i] == goal);
    }
}

/// Whether a route may use a tile on the board.
fn is_passable(
    grid: &Grid,
    start: (usize, usize),
    goal: (usize, usize),
    avoid: &Vec<(usize, usize)>,
    x: usize,
    y: usize,
) -> (r: bool)
    requires
        grid.wf(),
        grid@.inside(x as int, y as int),
    ensures
        r == passable(
            grid@,
            grid::pos(start),
            grid::pos(goal),
            grid::pos_list(avoid@),
            (x as int, y as int),
        ),
{
    if x == start.0 && y == start.1 || x == goal.0 && y == goal.1 {
        return true;
    }
    if holds(avoid, (x, y)) {
        return false;
    }
    proof {
        grid::lemma_slot(grid@, x as int, y as int);
    }
    !grid.is_obstacle(x, y) && grid.anchor_at(x, y).is_none()
}

/// Which tiles have been reached, and from which slot each was.
spec fn recorded(g: GridView, r: Reach, seen: Seq<bool>, prev: Seq<usize>) -> bool {
    &&& seen.len() == g.cells.len()
    &&& prev.len() == g.cells.len()
    &&& forall|x: int, y: int| #[trigger]
        g.inside(x, y) ==> seen[g.slot(x, y)] == r.order.contains((x, y))
    &&& forall|k: int|
        1 <= k < r.order.len() ==> prev[g.slot((#[trigger] r.order[k]).0, r.order[k].1)] == g.slot(
            r.order[r.parent[k]].0,
            r.order[r.parent[k]].1,
        )
}

/// Marking a newly reached tile keeps the records true.
proof fn lemma_record(
    g: GridView,
    r: Reach,
    next: Reach,
    head: int,
    n: (int, int),
    seen: Seq<bool>,
    prev: Seq<usize>,
    from: usize,
)
    requires
        g.valid(),
        recorded(g, r, seen, prev),
        g.inside(n.0, n.1),
        !r.order.contains(n),
        0 <= head < r.order.len(),
        r.parent.len() == r.order.len(),
        forall|k: int| 0 <= k < r.order.len() ==> g.inside((#[trigger] r.order[k]).0, r.order[k].1),
        forall|k: int| 1 <= k < r.order.len() ==> 0 <= #[trigger] r.parent[k] < k,
        next.order == r.order.push(n),
        next.parent == r.parent.push(head),
        from == g.slot(r.order[head].0, r.order[head].1),
    ensures
        recorded(
            g,
            next,
            seen.update(g.slot(n.0, n.1), true),
            prev.update(g.slot(n.0, n.1), from),
        ),
{
    let i = g.slot(n.0, n.1);
    let last = r.order.len() as int;
    grid::lemma_slot(g, n.0, n.1);
    assert(next.order[last] == n);
    assert forall|x: int, y: int| #[trigger] g.inside(x, y) implies seen.update(i, true)[g.slot(
        x,
        y,
    )] == next.order.contains((x, y)) by {
        grid::lemma_slot(g, x, y);
        if g.slot(x, y) == i {
            grid::lemma_slot_injective(g, x, y, n.0, n.1);
        } else {
            if r.order.contains((x, y)) {
                let k = r.order.index_of((x, y));
                assert(next.order[k] == (x, y));
            }
            if next.order.contains((x, y)) {
                let k = next.order.index_of((x, y));
                assert(r.order[k] == (x, y));
            }
        }
    }
    assert forall|k: int| 1 <= k < next.order.len() implies prev.update(i, from)[g.slot(
        (#[trigger] next.order[k]).0,
        next.order[k].1,
    )] == g.slot(next.order[next.parent[k]].0, next.order[next.parent[k]].1) by {
        if k < last {
            let p = r.order[k];
            assert(next.order[k] == p);
            assert(next.parent[k] == r.parent[k]);
            assert(next.order[next.parent[k]] == r.order[r.parent[k]]);
            grid::lemma_slot(g, p.0, p.1);
            if g.slot(p.0, p.1) == i {
                grid::lemma_slot_injective(g, p.0, p.1, n.0, n.1);
                assert(r.order.contains(n));
            }
        }
    }
}

/// Read the way to the `k`-th tile back from the records.
fn retrace(
    grid: &Grid,
    prev: &Vec<usize>,
    start: (usize, usize),
    goal: (usize, usize),
    avoid: Ghost<Seq<(int, int)>>,
    found: Ghost<Reach>,
    seen: Ghost<Seq<bool>>,
    k: Ghost<int>,
) -> (path: Vec<(usize, usize)>)
    requires
        grid.wf(),
        grid@.inside(start.0 as int, start.1 as int),
        grid@.inside(goal.0 as int, goal.1 as int),
        found@.sound(grid@, grid::pos(start), grid::pos(goal), avoid@),
        recorded(grid@, found@, seen@, prev@),
        0 <= k@ < found@.order.len(),
        found@.order[k@] == grid::pos(goal),
    ensures
        grid::pos_list(path@) == trace(grid::pos(start), found@.moves[k@]),
{
    let ghost g = grid@;
    let ghost s = grid::pos(start);
    let ghost r = found@;
    let ghost m = r.moves[k@];
    let ghost mut at = k@;
    proof {
        lemma_reached(r, g, s, grid::pos(goal), avoid@, k@);
        grid::lemma_slot(g, start.0 as int, start.1 as int);
        grid::lemma_slot(g, goal.0 as int, goal.1 as int);
        assert(grid.cells.len() <= usize::MAX);
    }
    let mut back: Vec<(usize, usize)> = vec![goal];
    let mut cur = grid.idx(goal.0, goal.1);
    let home = grid.idx(start.0, start.1);
    proof {
        assert(m.take(m.len() as int) =~= m);
    }
    while cur != home
        invariant
            grid.wf(),
            g == grid@,
            r == found@,
            s == grid::pos(start),
            r.sound(g, s, grid::pos(goal), avoid@),
            recorded(g, r, seen@, prev@),
            home == g.slot(s.0, s.1),
            g.inside(s.0, s.1),
            0 <= at < r.order.len(),
            cur == g.slot(r.order[at].0, r.order[at].1),
            1 <= back.len() <= m.len() + 1,
            r.moves[at] == m.take(m.len() + 1 - back.len()),
            forall|i: int|
                0 <= i < back.len() ==> grid::pos(#[trigger] back@[i]) == walk(
                    s,
                    m.take(m.len() - i),
                ),
        decreases at,
    {
        proof {
            lemma_reached(r, g, s, grid::pos(goal), avoid@, at);
            let p = r.order[at];
            grid::lemma_slot(g, p.0, p.1);
            let up = r.parent[at];
            lemma_reached(r, g, s, grid::pos(goal), avoid@, up);
            let q = r.order[up];
            grid::lemma_slot(g, q.0, q.1);
            grid::lemma_slot_inverse(g, q.0, q.1);
            assert(m.take(m.len() + 1 - back.len()).drop_last() =~= m.take(
                m.len() + 1 - (back.len() + 1),
            ));
        }
        let p = prev[cur];
        back.push((p % grid.width, p / grid.width));
        cur = p;
        proof {
            at = r.parent[at];
        }
    }
    proof {
        lemma_reached(r, g, s, grid::pos(goal), avoid@, at);
        grid::lemma_slot_injective(g, s.0, s.1, r.order[at].0, r.order[at].1);
        assert(back.len() == m.len() + 1);
    }
    let path = reversed(&back);
    assert(grid::pos_list(path@) =~= trace(s, m)) by {
        assert forall|i: int| 0 <= i < path.len() implies grid::pos(path@[i]) == trace(s, m)[i] by {
            assert(path@[i] == back@[back.len() - 1 - i]);
        }
    }
    path
}

/// The list from back to front.
fn reversed(v: &Vec<(usize, usize)>) -> (r: Vec<(usize, usize)>)
    ensures
        r@ == v@.reverse(),
{
    let mut r: Vec<(usize, usize)> = Vec::new();
    let mut i: usize = v.len();
    while i > 0
        invariant
            i <= v.len(),
            r.len() == v.len() - i,
            forall|j: int| 0 <= j < r.len() ==> r@[j] == v@[v.len() - 1 - j],
        decreases i,
    {
        i = i - 1;
        r.push(v[i]);
    }
    assert(r@ =~= v@.reverse());
    r
}

/// The shortest way from `start` to `goal` over free tiles, both ends included, or
/// `None` where there is no way. Of several shortest ways it is the one that turns
/// north before east before south before west.
///
/// `avoid` lists tiles that are free but must not be built on. Tiles that a larger
/// entity covers count as taken, although nothing is stored there.
pub fn bfs_path(
    grid: &Grid,
    start: (usize, usize),
    goal: (usize, usize),
    avoid: &Vec<(usize, usize)>,
) -> (r: Option<Vec<(usize, usize)>>)
    requires
        grid.wf(),
        grid@.inside(start.0 as int, start.1 as int),
        grid@.inside(goal.0 as int, goal.1 as int),
    ensures
        r is Some <==> exists|m: Seq<Direction>|
            is_route(grid@, grid::pos(start), grid::pos(goal), grid::pos_list(avoid@), m),
        r matches Some(path) ==> {
            let best = best_route(grid@, grid::pos(start), grid::pos(goal), grid::pos_list(avoid@));
            &&& best is Some
            &&& is_best_route(
                grid@,
                grid::pos(start),
                grid::pos(goal),
                grid::pos_list(avoid@),
                best->0,
            )
            &&& grid::pos_list(path@) == trace(grid::pos(start), best->0)
        },
{
    let ghost g = grid@;
    let ghost s = grid::pos(start);
    let ghost e = grid::pos(goal);
    let ghost off = grid::pos_list(avoid@);
    let n = grid.cells.len();
    proof {
        grid::lemma_slot(g, s.0, s.1);
    }
    let home = grid.idx(start.0, start.1);
    let mut prev: Vec<usize> = vec![0; n];
    let mut seen: Vec<bool> = vec![false; n];
    seen.set(home, true);
    let mut order: Vec<(usize, usize)> = vec![start];
    let ghost mut r = lemma_begin(g, s, e, off);
    proof {
        assert(grid::pos_list(order@) =~= r.order);
        assert(recorded(g, r, seen@, prev@)) by {
            assert forall|x: int, y: int| #[trigger] g.inside(x, y) implies seen@[g.slot(x, y)]
                == r.order.contains((x, y)) by {
                grid::lemma_slot(g, x, y);
                assert(r.order[0] == s);
                if g.slot(x, y) == home {
                    grid::lemma_slot_injective(g, x, y, s.0, s.1);
                }
            }
        }
    }
    let mut head: usize = 0;
    while head < order.len()
        invariant
            grid.wf(),
            g == grid@,
            s == grid::pos(start),
            e == grid::pos(goal),
            g.inside(s.0, s.1),
            g.inside(e.0, e.1),
            off == grid::pos_list(avoid@),
            r.sound(g, s, e, off),
            r.explored(g, s, e, off, head as int, 0),
            recorded(g, r, seen@, prev@),
            grid::pos_list(order@) == r.order,
            head <= order.len(),
            forall|i: int| 0 <= i < head ==> #[trigger] r.order[i] != e,
        decreases sim::unset(seen@, seen.len() as nat), order.len() - head,
    {
        let (x, y) = order[head];
        assert(r.order[head as int] == (x as int, y as int));
        proof {
            lemma_reached(r, g, s, e, off, head as int);
        }
        if x == goal.0 && y == goal.1 {
            proof {
                lemma_found(r, g, s, e, off, head as int);
            }
            let path = retrace(
                grid,
                &prev,
                start,
                goal,
                Ghost(off),
                Ghost(r),
                Ghost(seen@),
                Ghost(head as int),
            );
            return Some(path);
        }
        let ghost before = sim::unset(seen@, seen.len() as nat);
        let ghost count = order.len();
        let mut q: usize = 0;
        while q < 4
            invariant
                grid.wf(),
                g == grid@,
                s == grid::pos(start),
                e == grid::pos(goal),
                g.inside(s.0, s.1),
                g.inside(e.0, e.1),
                off == grid::pos_list(avoid@),
                r.sound(g, s, e, off),
                r.explored(g, s, e, off, head as int, q as int),
                recorded(g, r, seen@, prev@),
                grid::pos_list(order@) == r.order,
                head < order.len(),
                r.order[head as int] == (x as int, y as int),
                g.inside(x as int, y as int),
                (x as int, y as int) != e,
                forall|i: int| 0 <= i < head ==> #[trigger] r.order[i] != e,
                q <= 4,
                sim::unset(seen@, seen.len() as nat) <= before,
                sim::unset(seen@, seen.len() as nat) == before ==> order.len() == count,
            decreases 4 - q,
        {
            let d = if q == 0 {
                Direction::North
            } else if q == 1 {
                Direction::East
            } else if q == 2 {
                Direction::South
            } else {
                Direction::West
            };
            assert(d == turn(q as int));
            let (dx, dy) = d.delta();
            let (nx, ny): (i32, i32) = (x as i32 + dx, y as i32 + dy);
            let ghost next = (nx as int, ny as int);
            assert(next == neighbour(r.order[head as int], turn(q as int)));
            let mut taken = false;
            if grid.in_bounds(nx, ny) {
                let (nx, ny): (usize, usize) = (nx as usize, ny as usize);
                proof {
                    grid::lemma_slot(g, next.0, next.1);
                    grid::lemma_slot(g, x as int, y as int);
                }
                let i = grid.idx(nx, ny);
                if !seen[i] && is_passable(grid, start, goal, avoid, nx, ny) {
                    let ghost grown = lemma_extend(r, g, s, e, off, head as int, q as int);
                    let from = grid.idx(x, y);
                    proof {
                        assert forall|k: int| 0 <= k < r.order.len() implies g.inside(
                            (#[trigger] r.order[k]).0,
                            r.order[k].1,
                        ) by {
                            lemma_reached(r, g, s, e, off, k);
                        }
                        assert forall|k: int| 1 <= k < r.order.len() implies 0
                            <= #[trigger] r.parent[k] < k by {
                            lemma_reached(r, g, s, e, off, k);
                        }
                        lemma_reached(r, g, s, e, off, head as int);
                        lemma_record(g, r, grown, head as int, next, seen@, prev@, from);
                        sim::lemma_unset_update(seen@, i as int, seen.len() as nat);
                    }
                    seen.set(i, true);
                    prev.set(i, from);
                    let ghost listed = order@;
                    order.push((nx, ny));
                    proof {
                        r = grown;
                        assert(grid::pos_list(order@) =~= grid::pos_list(listed).push(next));
                    }
                    taken = true;
                }
            }
            if !taken {
                proof {
                    lemma_pass_over(r, g, s, e, off, head as int, q as int);
                }
            }
            q = q + 1;
        }
        proof {
            lemma_advance(r, g, s, e, off, head as int);
        }
        head = head + 1;
    }
    proof {
        lemma_exhausted(r, g, s, e, off);
    }
    None
}

/// Of two different sequences of steps one is preferred.
proof fn lemma_total(a: Seq<Direction>, b: Seq<Direction>)
    ensures
        a == b || preferred(a, b) || preferred(b, a),
    decreases a.len(),
{
    if a.len() == b.len() {
        if a.len() == 0 {
            assert(a =~= b);
        } else {
            lemma_total(a.drop_last(), b.drop_last());
            if a.drop_last() == b.drop_last() && a.last() == b.last() {
                assert(a =~= a.drop_last().push(a.last()));
                assert(b =~= b.drop_last().push(b.last()));
            }
        }
    }
}

/// Distance in steps between two tiles.
pub open spec fn distance(a: (int, int), b: (int, int)) -> int {
    (if a.0 <= b.0 { b.0 - a.0 } else { a.0 - b.0 }) + (if a.1 <= b.1 { b.1 - a.1 } else {
        a.1 - b.1
    })
}

/// Distance in steps between two tiles.
pub fn manhattan(a: (usize, usize), b: (usize, usize)) -> (r: usize)
    requires
        distance(grid::pos(a), grid::pos(b)) <= usize::MAX,
    ensures
        r == distance(grid::pos(a), grid::pos(b)),
{
    let dx: usize = if a.0 <= b.0 { b.0 - a.0 } else { a.0 - b.0 };
    let dy: usize = if a.1 <= b.1 { b.1 - a.1 } else { a.1 - b.1 };
    dx + dy
}

/// The direction from a tile to the one next to it, `Nowhere` for any other tile.
pub open spec fn heading(a: (int, int), b: (int, int)) -> Direction {
    if b == neighbour(a, Direction::North) {
        Direction::North
    } else if b == neighbour(a, Direction::East) {
        Direction::East
    } else if b == neighbour(a, Direction::South) {
        Direction::South
    } else if b == neighbour(a, Direction::West) {
        Direction::West
    } else {
        Direction::Nowhere
    }
}

/// The direction from `a` to `b`, which lies next to it; `Nowhere` if it does not.
pub fn dir_between(a: (usize, usize), b: (usize, usize)) -> (r: Direction)
    ensures
        r == heading(grid::pos(a), grid::pos(b)),
{
    if b.0 == a.0 && a.1 > 0 && b.1 == a.1 - 1 {
        Direction::North
    } else if b.1 == a.1 && b.0 > 0 && a.0 == b.0 - 1 {
        Direction::East
    } else if b.0 == a.0 && b.1 > 0 && a.1 == b.1 - 1 {
        Direction::South
    } else if b.1 == a.1 && a.0 > 0 && b.0 == a.0 - 1 {
        Direction::West
    } else {
        Direction::Nowhere
    }
}

/// Whether a tile is on a board of the given shape.
pub open spec fn on_canvas(canvas: Canvas, p: (int, int)) -> bool {
    0 <= p.0 < canvas.width && 0 <= p.1 < canvas.height
}

/// One step from `from` along `d`, or `None` if that leaves the board.
pub fn step(from: (usize, usize), d: Direction, canvas: Canvas) -> (r: Option<(usize, usize)>)
    ensures
        r is Some <==> on_canvas(canvas, neighbour(grid::pos(from), d)),
        r matches Some(p) ==> grid::pos(p) == neighbour(grid::pos(from), d),
{
    let (x, y) = from;
    let (w, h) = (canvas.width, canvas.height);
    let to: Option<(usize, usize)> = match d {
        Direction::Nowhere => Some((x, y)),
        Direction::North => if y > 0 { Some((x, y - 1)) } else { None },
        Direction::East => if x < w { Some((x + 1, y)) } else { None },
        Direction::South => if y < h { Some((x, y + 1)) } else { None },
        Direction::West => if x > 0 { Some((x - 1, y)) } else { None },
    };
    match to {
        Some((x, y)) => if x < w && y < h { Some((x, y)) } else { None },
        None => None,
    }
}

/// The tile next to `p` towards `d` as a list, empty if it is off the board.
pub open spec fn neighbour_list(canvas: Canvas, p: (int, int), d: Direction) -> Seq<(int, int)> {
    if on_canvas(canvas, neighbour(p, d)) {
        seq![neighbour(p, d)]
    } else {
        seq![]
    }
}

/// The tiles next to `p` that are on the board: north, south, east, west.
pub open spec fn neighbourhood(canvas: Canvas, p: (int, int)) -> Seq<(int, int)> {
    neighbour_list(canvas, p, Direction::North) + neighbour_list(canvas, p, Direction::South)
        + neighbour_list(canvas, p, Direction::East) + neighbour_list(canvas, p, Direction::West)
}

/// The up to four tiles next to `p` that are on the board. An entity of one tile
/// offers its output to exactly these.
pub fn neighbours(p: (usize, usize), canvas: Canvas) -> (r: Vec<(usize, usize)>)
    ensures
        grid::pos_list(r@) == neighbourhood(canvas, grid::pos(p)),
{
    let mut out: Vec<(usize, usize)> = Vec::new();
    if let Some(q) = step(p, Direction::North, canvas) {
        out.push(q);
    }
    if let Some(q) = step(p, Direction::South, canvas) {
        out.push(q);
    }
    if let Some(q) = step(p, Direction::East, canvas) {
        out.push(q);
    }
    if let Some(q) = step(p, Direction::West, canvas) {
        out.push(q);
    }
    assert(grid::pos_list(out@) =~= neighbourhood(canvas, grid::pos(p)));
    out
}

/// Whether a tile lies in the footprint of whatever is stored at `anchor`.
pub open spec fn in_footprint(g: GridView, anchor: (int, int), p: (int, int)) -> bool {
    let (w, h) = g.extent_at(anchor.0, anchor.1);
    anchor.0 <= p.0 < anchor.0 + w && anchor.1 <= p.1 < anchor.1 + h
}

/// The first direction, of north, east, south and west, that leads from `from`
/// into the footprint of whatever is stored at `anchor`.
pub open spec fn toward(g: GridView, from: (int, int), anchor: (int, int)) -> Option<Direction> {
    if in_footprint(g, anchor, neighbour(from, Direction::North)) {
        Some(Direction::North)
    } else if in_footprint(g, anchor, neighbour(from, Direction::East)) {
        Some(Direction::East)
    } else if in_footprint(g, anchor, neighbour(from, Direction::South)) {
        Some(Direction::South)
    } else if in_footprint(g, anchor, neighbour(from, Direction::West)) {
        Some(Direction::West)
    } else {
        None
    }
}

/// The direction from a tile into the footprint anchored at `anchor`; `None` for
/// a tile that touches it at a corner only or not at all.
pub fn dir_toward_footprint(grid: &Grid, from: (usize, usize), anchor: (usize, usize)) -> (r: Option<
    Direction,
>)
    requires
        grid.wf(),
        grid@.inside(anchor.0 as int, anchor.1 as int),
        grid@.inside(from.0 as int, from.1 as int),
    ensures
        r == toward(grid@, grid::pos(from), grid::pos(anchor)),
{
    proof {
        grid::lemma_slot(grid@, anchor.0 as int, anchor.1 as int);
    }
    let cell = grid.get(anchor.0, anchor.1);
    let (w, h) = cell.entity.footprint(cell.direction);
    let (x, y) = (from.0 as i32, from.1 as i32);
    let (ax, ay) = (anchor.0 as i32, anchor.1 as i32);
    let (ex, ey) = (ax + w as i32, ay + h as i32);
    if ax <= x && x < ex && ay <= y - 1 && y - 1 < ey {
        Some(Direction::North)
    } else if ax <= x + 1 && x + 1 < ex && ay <= y && y < ey {
        Some(Direction::East)
    } else if ax <= x && x < ex && ay <= y + 1 && y + 1 < ey {
        Some(Direction::South)
    } else if ax <= x - 1 && x - 1 < ex && ay <= y && y < ey {
        Some(Direction::West)
    } else {
        None
    }
}

/// Whether a machine of three by three tiles can be placed at `(x, y)`.
pub open spec fn free_site(g: GridView, x: int, y: int) -> bool {
    &&& 0 <= x && x + 3 <= g.width
    &&& 0 <= y && y + 3 <= g.height
    &&& forall|tx: int, ty: int|
        x <= tx < x + 3 && y <= ty < y + 3 ==> !g.blocked(tx, ty) && #[trigger] g.anchor_of(
            tx,
            ty,
        ) is None
}

/// The detour from `source` to `sink` by way of the centre of a machine at `p`.
pub open spec fn detour(source: (int, int), sink: (int, int), p: (int, int)) -> int {
    distance(source, (p.0 + 1, p.1 + 1)) + distance((p.0 + 1, p.1 + 1), sink)
}

/// Whether site `a` comes before site `b`: by detour, then by row, then by column.
pub open spec fn site_before(
    source: (int, int),
    sink: (int, int),
    a: (int, int),
    b: (int, int),
) -> bool {
    let (da, db) = (detour(source, sink, a), detour(source, sink, b));
    da < db || da == db && (a.1 < b.1 || a.1 == b.1 && a.0 < b.0)
}

/// Whether `p` is the free site that comes before all others.
pub open spec fn is_best_site(
    g: GridView,
    source: (int, int),
    sink: (int, int),
    p: (int, int),
) -> bool {
    &&& free_site(g, p.0, p.1)
    &&& forall|q: (int, int)| #[trigger]
        free_site(g, q.0, q.1) ==> q == p || site_before(source, sink, p, q)
}

/// The free site that comes before all others, if there is a free site.
pub open spec fn best_site(g: GridView, source: (int, int), sink: (int, int)) -> Option<(int, int)> {
    if exists|p: (int, int)| #[trigger] free_site(g, p.0, p.1) {
        Some(choose|p: (int, int)| is_best_site(g, source, sink, p))
    } else {
        None
    }
}

/// Whether a machine can be placed at `(x, y)`.
fn is_free_site(task: &Grid, x: usize, y: usize) -> (r: bool)
    requires
        task.wf(),
        x + 3 <= task.width,
        y + 3 <= task.height,
    ensures
        r == free_site(task@, x as int, y as int),
{
    let ghost g = task@;
    let mut k: usize = 0;
    while k < 9
        invariant
            task.wf(),
            g == task@,
            x + 3 <= task.width,
            y + 3 <= task.height,
            k <= 9,
            forall|tx: int, ty: int|
                x <= tx < x + 3 && y <= ty < y + 3 && 3 * (ty - y) + (tx - x) < k ==> !g.blocked(
                    tx,
                    ty,
                ) && #[trigger] g.anchor_of(tx, ty) is None,
        decreases 9 - k,
    {
        let tx: usize = x + k % 3;
        let ty: usize = y + k / 3;
        proof {
            grid::lemma_slot(g, tx as int, ty as int);
        }
        if task.is_obstacle(tx, ty) || task.anchor_at(tx, ty).is_some() {
            assert(!(!g.blocked(tx as int, ty as int) && g.anchor_of(tx as int, ty as int) is None));
            return false;
        }
        assert forall|ux: int, uy: int|
            x <= ux < x + 3 && y <= uy < y + 3 && 3 * (uy - y) + (ux - x) < k + 1 implies !g.blocked(
            ux,
            uy,
        ) && #[trigger] g.anchor_of(ux, uy) is None by {
            if 3 * (uy - y) + (ux - x) == k {
                assert(ux == tx && uy == ty);
            }
        }
        k = k + 1;
    }
    true
}

/// The machine site that a task implies: the free three by three tiles whose centre
/// makes the detour from source to sink shortest, the topmost and then the
/// leftmost of several.
pub fn canonical_assembler_anchor(task: &Grid, source: (usize, usize), sink: (usize, usize)) -> (r:
    Option<(usize, usize)>)
    requires
        task.wf(),
        source.0 <= MAX_SIDE && source.1 <= MAX_SIDE,
        sink.0 <= MAX_SIDE && sink.1 <= MAX_SIDE,
    ensures
        grid::pos_option(r) == best_site(task@, grid::pos(source), grid::pos(sink)),
        r matches Some(p) ==> is_best_site(
            task@,
            grid::pos(source),
            grid::pos(sink),
            grid::pos(p),
        ),
        r is None ==> forall|p: (int, int)| !#[trigger] free_site(task@, p.0, p.1),
{
    let ghost g = task@;
    let ghost s = grid::pos(source);
    let ghost k = grid::pos(sink);
    if task.width < 3 || task.height < 3 {
        return None;
    }
    let mut best: Option<((usize, usize), u64)> = None;
    let mut y: usize = 0;
    while y <= task.height - 3
        invariant
            task.wf(),
            g == task@,
            s == grid::pos(source),
            k == grid::pos(sink),
            source.0 <= MAX_SIDE && source.1 <= MAX_SIDE,
            sink.0 <= MAX_SIDE && sink.1 <= MAX_SIDE,
                task.width >= 3,
            task.height >= 3,
            y <= task.height - 2,
            match best {
                Some((p, cost)) => {
                    &&& free_site(g, p.0 as int, p.1 as int)
                    &&& cost == detour(s, k, grid::pos(p))
                    &&& p.1 < y
                    &&& forall|q: (int, int)| #[trigger]
                        free_site(g, q.0, q.1) && q.1 < y ==> q == grid::pos(p) || site_before(
                            s,
                            k,
                            grid::pos(p),
                            q,
                        )
                },
                None => forall|q: (int, int)| q.1 < y ==> !#[trigger] free_site(g, q.0, q.1),
            },
        decreases task.height - y,
    {
        let mut x: usize = 0;
        while x <= task.width - 3
            invariant
                task.wf(),
                g == task@,
                s == grid::pos(source),
                k == grid::pos(sink),
                source.0 <= MAX_SIDE && source.1 <= MAX_SIDE,
                sink.0 <= MAX_SIDE && sink.1 <= MAX_SIDE,
                        task.width >= 3,
                task.height >= 3,
                y <= task.height - 3,
                x <= task.width - 2,
                match best {
                    Some((p, cost)) => {
                        &&& free_site(g, p.0 as int, p.1 as int)
                        &&& cost == detour(s, k, grid::pos(p))
                        &&& p.1 < y || p.1 == y && p.0 < x
                        &&& forall|q: (int, int)| #[trigger]
                            free_site(g, q.0, q.1) && (q.1 < y || q.1 == y && q.0 < x) ==> q
                                == grid::pos(p) || site_before(s, k, grid::pos(p), q)
                    },
                    None => forall|q: (int, int)|
                        (q.1 < y || q.1 == y && q.0 < x) ==> !#[trigger] free_site(g, q.0, q.1),
                },
            decreases task.width - x,
        {
            if is_free_site(task, x, y) {
                let centre = (x + 1, y + 1);
                let cost: u64 = manhattan(source, centre) as u64 + manhattan(centre, sink) as u64;
                let better = match best {
                    Some((_, least)) => cost < least,
                    None => true,
                };
                if better {
                    best = Some(((x, y), cost));
                }
            }
            x = x + 1;
        }
        y = y + 1;
    }
    match best {
        Some((p, _)) => {
            proof {
                assert(is_best_site(g, s, k, grid::pos(p)));
                assert(free_site(g, grid::pos(p).0, grid::pos(p).1));
                let c = choose|c: (int, int)| is_best_site(g, s, k, c);
                assert(free_site(g, c.0, c.1));
            }
            Some(p)
        },
        None => None,
    }
}

/// The grid with belts on the tiles that a route visits between its ends, as far as
/// the `k`-th step, each facing the next tile.
pub open spec fn belted(g: GridView, start: (int, int), moves: Seq<Direction>, k: nat) -> GridView
    decreases k,
{
    if k == 0 {
        g
    } else {
        let p = walk(start, moves.take(k as int));
        belted(g, start, moves, (k - 1) as nat).put(p.0, p.1, Cell::belt_cell(moves[k as int]))
    }
}

/// The slots of the tiles that a route visits between its ends.
pub open spec fn between(g: GridView, start: (int, int), moves: Seq<Direction>) -> Seq<int> {
    Seq::new(
        (moves.len() - 1) as nat,
        |i: int| g.slot(walk(start, moves.take(i + 1)).0, walk(start, moves.take(i + 1)).1),
    )
}

/// A part of an open walk from its start is open.
proof fn lemma_prefix_open(
    g: GridView,
    start: (int, int),
    goal: (int, int),
    avoid: Seq<(int, int)>,
    moves: Seq<Direction>,
    k: int,
)
    requires
        open_walk(g, start, goal, avoid, moves),
        0 <= k <= moves.len(),
    ensures
        open_walk(g, start, goal, avoid, moves.take(k)),
        k > 0 ==> passable(g, start, goal, avoid, walk(start, moves.take(k))) && moves[k - 1] !is Nowhere,
    decreases moves.len(),
{
    if k == moves.len() {
        assert(moves.take(k) =~= moves);
    } else {
        lemma_prefix_open(g, start, goal, avoid, moves.drop_last(), k);
        assert(moves.drop_last().take(k) =~= moves.take(k));
    }
}

/// The tile after `k + 1` steps is the neighbour of the tile after `k`.
proof fn lemma_walk_step(start: (int, int), moves: Seq<Direction>, k: int)
    requires
        0 <= k < moves.len(),
    ensures
        walk(start, moves.take(k + 1)) == neighbour(walk(start, moves.take(k)), moves[k]),
{
    assert(moves.take(k + 1).drop_last() =~= moves.take(k));
}

/// A walk that returns to a tile can leave the loop out.
proof fn lemma_shortcut(
    g: GridView,
    start: (int, int),
    goal: (int, int),
    avoid: Seq<(int, int)>,
    moves: Seq<Direction>,
    i: int,
    j: int,
    k: int,
)
    requires
        open_walk(g, start, goal, avoid, moves),
        0 <= i < j <= k <= moves.len(),
        walk(start, moves.take(i)) == walk(start, moves.take(j)),
    ensures
        open_walk(g, start, goal, avoid, moves.take(i) + moves.subrange(j, k)),
        walk(start, moves.take(i) + moves.subrange(j, k)) == walk(start, moves.take(k)),
    decreases k,
{
    let cut = moves.take(i) + moves.subrange(j, k);
    if k == j {
        assert(cut =~= moves.take(i));
        lemma_prefix_open(g, start, goal, avoid, moves, i);
    } else {
        lemma_shortcut(g, start, goal, avoid, moves, i, j, k - 1);
        assert(cut.drop_last() =~= moves.take(i) + moves.subrange(j, k - 1));
        assert(cut.last() == moves[k - 1]);
        lemma_walk_step(start, moves, k - 1);
        lemma_prefix_open(g, start, goal, avoid, moves, k);
    }
}

/// The best route visits no tile twice.
pub proof fn law_best_route_is_simple(
    g: GridView,
    start: (int, int),
    goal: (int, int),
    avoid: Seq<(int, int)>,
    moves: Seq<Direction>,
    i: int,
    j: int,
)
    requires
        is_best_route(g, start, goal, avoid, moves),
        0 <= i < j <= moves.len(),
    ensures
        walk(start, moves.take(i)) != walk(start, moves.take(j)),
{
    if walk(start, moves.take(i)) == walk(start, moves.take(j)) {
        let n = moves.len() as int;
        let cut = moves.take(i) + moves.subrange(j, n);
        lemma_shortcut(g, start, goal, avoid, moves, i, j, n);
        assert(moves.take(n) =~= moves);
        assert(is_route(g, start, goal, avoid, cut));
    }
}

/// The tiles that the best route visits between its ends are free and not among
/// those to avoid.
pub proof fn law_best_route_is_free(
    g: GridView,
    start: (int, int),
    goal: (int, int),
    avoid: Seq<(int, int)>,
    moves: Seq<Direction>,
    k: int,
)
    requires
        is_best_route(g, start, goal, avoid, moves),
        0 < k < moves.len(),
    ensures
        ({
            let p = walk(start, moves.take(k));
            &&& g.inside(p.0, p.1)
            &&& p != start
            &&& p != goal
            &&& !avoid.contains(p)
            &&& !g.blocked(p.0, p.1)
            &&& g.anchor_of(p.0, p.1) is None
        }),
        moves[k] !is Nowhere,
{
    law_best_route_is_simple(g, start, goal, avoid, moves, 0, k);
    law_best_route_is_simple(g, start, goal, avoid, moves, k, moves.len() as int);
    lemma_prefix_open(g, start, goal, avoid, moves, k);
    lemma_prefix_open(g, start, goal, avoid, moves, k + 1);
    assert(moves.take(0) =~= Seq::empty());
    assert(moves.take(moves.len() as int) =~= moves);
}

/// The first step of a route leads somewhere.
pub proof fn lemma_first_step(
    g: GridView,
    start: (int, int),
    goal: (int, int),
    avoid: Seq<(int, int)>,
    moves: Seq<Direction>,
)
    requires
        is_best_route(g, start, goal, avoid, moves),
        moves.len() > 0,
    ensures
        moves[0] !is Nowhere,
{
    lemma_prefix_open(g, start, goal, avoid, moves, 1);
}

/// Lay belts along the way from `start` to `goal`, on the tiles between the two,
/// each facing the next. Returns the slots of the belts and the direction in which
/// the way leaves `start`.
///
/// `None`, with the grid unchanged, where there is no way or where `start` and
/// `goal` are the same tile.
pub fn belt_run(
    grid: &mut Grid,
    start: (usize, usize),
    goal: (usize, usize),
    avoid: &Vec<(usize, usize)>,
) -> (r: Option<(Vec<usize>, Direction)>)
    requires
        old(grid).wf(),
        old(grid)@.inside(start.0 as int, start.1 as int),
        old(grid)@.inside(goal.0 as int, goal.1 as int),
    ensures
        final(grid).wf(),
        ({
            let best = best_route(
                old(grid)@,
                grid::pos(start),
                grid::pos(goal),
                grid::pos_list(avoid@),
            );
            match r {
                Some((belts, out)) => {
                    &&& best is Some
                    &&& best->0.len() > 0
                    &&& is_best_route(
                        old(grid)@,
                        grid::pos(start),
                        grid::pos(goal),
                        grid::pos_list(avoid@),
                        best->0,
                    )
                    &&& final(grid)@ == belted(
                        old(grid)@,
                        grid::pos(start),
                        best->0,
                        (best->0.len() - 1) as nat,
                    )
                    &&& belts@.map_values(|i: usize| i as int) == between(
                        old(grid)@,
                        grid::pos(start),
                        best->0,
                    )
                    &&& out == best->0[0]
                },
                None => {
                    &&& best is None || best->0.len() == 0
                    &&& final(grid)@ == old(grid)@
                },
            }
        }),
{
    let ghost g = grid@;
    let ghost s = grid::pos(start);
    let ghost e = grid::pos(goal);
    let ghost off = grid::pos_list(avoid@);
    let found = bfs_path(grid, start, goal, avoid);
    let path = match found {
        Some(path) => path,
        None => {
            return None;
        },
    };
    let ghost m = best_route(g, s, e, off)->0;
    assert(path.len() == m.len() + 1) by {
        assert(grid::pos_list(path@).len() == trace(s, m).len());
    }
    assert forall|i: int| 0 <= i < path.len() implies grid::pos(path@[i]) == walk(s, m.take(i)) by {
        assert(grid::pos_list(path@)[i] == trace(s, m)[i]);
    }
    if path.len() < 2 {
        return None;
    }
    proof {
        lemma_walk_step(s, m, 0);
        lemma_prefix_open(g, s, e, off, m, 1);
        assert(m.take(0) =~= Seq::empty());
    }
    let out = dir_between(start, path[1]);
    let mut belts: Vec<usize> = Vec::new();
    let mut k: usize = 1;
    while k < path.len() - 1
        invariant
            grid.wf(),
            g.width == grid.width,
            g.height == grid.height,
            is_best_route(g, s, e, off, m),
            path.len() == m.len() + 1,
            forall|i: int| 0 <= i < path.len() ==> grid::pos(#[trigger] path@[i]) == walk(
                s,
                m.take(i),
            ),
            1 <= k <= path.len() - 1,
            grid@ == belted(g, s, m, (k - 1) as nat),
            belts.len() == k - 1,
            forall|i: int|
                0 <= i < belts.len() ==> belts@[i] == g.slot(
                    walk(s, m.take(i + 1)).0,
                    walk(s, m.take(i + 1)).1,
                ),
        decreases path.len() - k,
    {
        proof {
            law_best_route_is_free(g, s, e, off, m, k as int);
            lemma_walk_step(s, m, k as int);
        }
        let at = path[k];
        proof {
            assert(grid::pos(path@[k as int]) == walk(s, m.take(k as int)));
            assert(grid::pos(path@[k as int + 1]) == walk(s, m.take(k as int + 1)));
            grid::lemma_slot(grid@, at.0 as int, at.1 as int);
            assert(grid.cells.len() <= usize::MAX);
        }
        let facing = dir_between(at, path[k + 1]);
        assert(facing == m[k as int]);
        grid.set(at.0, at.1, Cell::belt(facing));
        belts.push(grid.idx(at.0, at.1));
        k = k + 1;
    }
    assert(belts@.map_values(|i: usize| i as int) =~= between(g, s, m));
    Some((belts, out))
}

} // verus!
