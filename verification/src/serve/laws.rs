//! What holds of every request and every answer.

use vstd::prelude::*;
use crate::serve;
use crate::serve::http;
use crate::serve::{SpecError, TaskSpec};
use crate::text;
use crate::world::grid;
use crate::world::grid::GridView;
use crate::world::Entity;

verus! {

/// Whether a tile is off the board that is asked for.
pub open spec fn off_board(spec: TaskSpec, x: usize, y: usize) -> bool {
    x >= spec.width || y >= spec.height
}

/// Whether both sides are from five to thirty-two tiles long.
pub open spec fn sides_in_range(spec: TaskSpec) -> bool {
    5 <= spec.width <= 32 && 5 <= spec.height <= 32
}

/// A board is refused for its size exactly if a side is out of range, and the width is
/// named first.
pub proof fn law_sides_out_of_range_are_refused(spec: TaskSpec, side: usize)
    ensures
        spec.refusal() == Some(SpecError::Size { side }) <==> !sides_in_range(spec) && side == (if 5
            <= spec.width <= 32 {
            spec.height
        } else {
            spec.width
        }),
{
    lemma_obstacle_errors(spec, spec.obstacles@.len());
    lemma_pin_errors(spec, spec.pins@.len());
}

/// What is wrong with obstacles is never their size.
proof fn lemma_obstacle_errors(spec: TaskSpec, k: nat)
    ensures
        spec.obstacle_error(k) matches Some(e) ==> e is OutOfBounds,
    decreases k,
{
    if k > 0 {
        lemma_obstacle_errors(spec, (k - 1) as nat);
    }
}

/// What is wrong with pins is where they are.
proof fn lemma_pin_errors(spec: TaskSpec, k: nat)
    ensures
        spec.pin_error(k) matches Some(e) ==> e is OutOfBounds || e is Overlap,
    decreases k,
{
    if k > 0 {
        lemma_pin_errors(spec, (k - 1) as nat);
    }
}

/// Obstacles on the board are fine.
proof fn lemma_obstacles_fine(spec: TaskSpec, k: nat)
    requires
        k <= spec.obstacles@.len(),
        forall|i: int|
            0 <= i < k ==> !off_board(spec, (#[trigger] spec.obstacles@[i])@[0], spec.obstacles@[i]@[1]),
    ensures
        spec.obstacle_error(k) is None,
    decreases k,
{
    if k > 0 {
        lemma_obstacles_fine(spec, (k - 1) as nat);
        let o = spec.obstacles@[k - 1];
        assert(!off_board(spec, o@[0], o@[1]));
    }
}

/// Whether pin `i` is on the board and on no earlier pin.
pub open spec fn pin_is_fine(spec: TaskSpec, i: int) -> bool {
    &&& !off_board(spec, spec.pins@[i].x, spec.pins@[i].y)
    &&& forall|j: int|
        0 <= j < i ==> !((#[trigger] spec.pins@[j]).x == spec.pins@[i].x && spec.pins@[j].y
            == spec.pins@[i].y)
}

/// Pins on tiles of their own on the board are fine.
proof fn lemma_pins_fine(spec: TaskSpec, k: nat)
    requires
        k <= spec.pins@.len(),
        forall|i: int| 0 <= i < k ==> #[trigger] pin_is_fine(spec, i),
    ensures
        spec.pin_error(k) is None,
    decreases k,
{
    if k > 0 {
        lemma_pins_fine(spec, (k - 1) as nat);
        assert(pin_is_fine(spec, k - 1));
    }
}

/// The first obstacle off the board is the one that is named.
pub proof fn law_the_first_stray_obstacle_is_named(spec: TaskSpec, i: int)
    requires
        sides_in_range(spec),
        0 <= i < spec.obstacles@.len(),
        off_board(spec, spec.obstacles@[i]@[0], spec.obstacles@[i]@[1]),
        forall|j: int|
            0 <= j < i ==> !off_board(spec, (#[trigger] spec.obstacles@[j])@[0], spec.obstacles@[j]@[1]),
    ensures
        spec.refusal() == Some(
            SpecError::OutOfBounds { x: spec.obstacles@[i]@[0], y: spec.obstacles@[i]@[1] },
        ),
{
    lemma_obstacles_fine(spec, i as nat);
    serve::lemma_first_obstacle_error(spec, (i + 1) as nat, spec.obstacles@.len());
}

/// Where the obstacles are on the board, the first pin that is not, or that lies where an
/// earlier one does, is the one that is named.
pub proof fn law_the_first_stray_pin_is_named(spec: TaskSpec, i: int)
    requires
        sides_in_range(spec),
        forall|j: int|
            0 <= j < spec.obstacles@.len() ==> !off_board(
                spec,
                (#[trigger] spec.obstacles@[j])@[0],
                spec.obstacles@[j]@[1],
            ),
        0 <= i < spec.pins@.len(),
        !pin_is_fine(spec, i),
        forall|j: int| 0 <= j < i ==> #[trigger] pin_is_fine(spec, j),
    ensures
        ({
            let (x, y) = (spec.pins@[i].x, spec.pins@[i].y);
            spec.refusal() == Some(
                if off_board(spec, x, y) {
                    SpecError::OutOfBounds { x, y }
                } else {
                    SpecError::Overlap { x, y }
                },
            )
        }),
{
    lemma_obstacles_fine(spec, spec.obstacles@.len());
    lemma_pins_fine(spec, i as nat);
    serve::lemma_first_pin_error(spec, (i + 1) as nat, spec.pins@.len());
}

/// Whether an obstacle is asked for at a tile.
pub open spec fn walled(spec: TaskSpec, k: int, x: int, y: int) -> bool {
    exists|i: int|
        0 <= i < k && (#[trigger] spec.obstacles@[i])@[0] == x && spec.obstacles@[i]@[1] == y
}

/// Whether everything that is asked for lies on a board of a size that is served, each pin
/// on a tile of its own.
pub open spec fn well_placed(spec: TaskSpec) -> bool {
    &&& sides_in_range(spec)
    &&& forall|j: int|
        0 <= j < spec.obstacles@.len() ==> !off_board(
            spec,
            (#[trigger] spec.obstacles@[j])@[0],
            spec.obstacles@[j]@[1],
        )
    &&& forall|j: int| 0 <= j < spec.pins@.len() ==> #[trigger] pin_is_fine(spec, j)
}

proof fn lemma_terrain_tile(spec: TaskSpec, k: nat, x: int, y: int)
    requires
        well_placed(spec),
        k <= spec.obstacles@.len(),
        0 <= x < spec.width && 0 <= y < spec.height,
    ensures
        spec.terrain(k).valid(),
        (spec.terrain(k).width, spec.terrain(k).height) == (
            spec.width as nat,
            spec.height as nat,
        ),
        spec.terrain(k).at(x, y).entity is Empty,
        spec.terrain(k).blocked(x, y) <==> walled(spec, k as int, x, y),
    decreases k,
{
    broadcast use {grid::lemma_slot, grid::lemma_blank_at, grid::lemma_block_at};

    if k > 0 {
        lemma_terrain_tile(spec, (k - 1) as nat, x, y);
        let o = spec.obstacles@[k - 1];
        assert(!off_board(spec, o@[0], o@[1]));
        if walled(spec, k - 1, x, y) {
            let i = choose|i: int|
                0 <= i < k - 1 && (#[trigger] spec.obstacles@[i])@[0] == x && spec.obstacles@[i]@[1]
                    == y;
            assert(spec.obstacles@[i]@[0] == x);
        }
        if walled(spec, k as int, x, y) && !(o@[0] == x && o@[1] == y) {
            let i = choose|i: int|
                0 <= i < k && (#[trigger] spec.obstacles@[i])@[0] == x && spec.obstacles@[i]@[1]
                    == y;
            assert(walled(spec, k - 1, x, y));
        }
    } else {
        let g = spec.terrain(0);
        assert(g == GridView::blank(spec.width as nat, spec.height as nat));
        assert(g.inside(x, y));
    }
}

proof fn lemma_painted_tile(spec: TaskSpec, k: nat, x: int, y: int)
    requires
        well_placed(spec),
        k <= spec.pins@.len(),
        0 <= x < spec.width && 0 <= y < spec.height,
    ensures
        spec.painted(k).valid(),
        (spec.painted(k).width, spec.painted(k).height) == (
            spec.width as nat,
            spec.height as nat,
        ),
        spec.painted(k).blocked(x, y) <==> walled(spec, spec.obstacles@.len() as int, x, y),
        forall|i: int|
            0 <= i < k && (#[trigger] spec.pins@[i]).x == x && spec.pins@[i].y == y
                ==> spec.painted(k).at(x, y) == spec.pins@[i].holds(),
        (forall|i: int|
            0 <= i < k ==> !((#[trigger] spec.pins@[i]).x == x && spec.pins@[i].y == y))
            ==> spec.painted(k).at(x, y).entity is Empty,
    decreases k,
{
    broadcast use {grid::lemma_slot, grid::lemma_put_at};

    if k > 0 {
        lemma_painted_tile(spec, (k - 1) as nat, x, y);
        assert(pin_is_fine(spec, k - 1));
        let p = spec.pins@[k - 1];
        let before = spec.painted((k - 1) as nat);
        assert(before.inside(p.x as int, p.y as int) && before.inside(x, y));
    } else {
        lemma_terrain_tile(spec, spec.obstacles@.len(), x, y);
    }
}

/// The task's board has a wall exactly where an obstacle is asked for, what is pinned at
/// each pin, and nothing anywhere else.
pub proof fn law_the_board_shows_what_is_asked_for(spec: TaskSpec, x: int, y: int)
    requires
        well_placed(spec),
        0 <= x < spec.width && 0 <= y < spec.height,
    ensures
        spec.grid().valid(),
        (spec.grid().width, spec.grid().height) == (spec.width as nat, spec.height as nat),
        spec.grid().blocked(x, y) <==> walled(spec, spec.obstacles@.len() as int, x, y),
        forall|i: int|
            0 <= i < spec.pins@.len() && (#[trigger] spec.pins@[i]).x == x && spec.pins@[i].y == y
                ==> {
                let (c, p) = (spec.grid().at(x, y), spec.pins@[i]);
                c.entity == p.entity && c.direction == p.direction && c.item == p.item && c.misc
                    == p.misc
            },
        (forall|i: int|
            0 <= i < spec.pins@.len() ==> !((#[trigger] spec.pins@[i]).x == x && spec.pins@[i].y
                == y)) ==> spec.grid().at(x, y).entity is Empty,
{
    lemma_painted_tile(spec, spec.pins@.len(), x, y);
}

/// Whether some pin is of a kind.
pub open spec fn pins_a(spec: TaskSpec, e: Entity) -> bool {
    exists|i: int| 0 <= i < spec.pins@.len() && (#[trigger] spec.pins@[i]).entity == e
}

proof fn lemma_has(spec: TaskSpec, e: Entity)
    requires
        well_placed(spec),
        e !is Empty,
    ensures
        spec.has(e) <==> pins_a(spec, e),
{
    let g = spec.grid();
    assert(pin_is_fine(spec, 0) || spec.pins@.len() == 0);
    law_the_board_shows_what_is_asked_for(spec, 0, 0);
    if spec.has(e) {
        let s = choose|s: int| 0 <= s < g.cells.len() && (#[trigger] g.cells[s]).entity == e;
        grid::lemma_slot_surjective(g, s);
        let (x, y) = (s % (g.width as int), s / (g.width as int));
        assert(g.at(x, y) == g.cells[s]);
        law_the_board_shows_what_is_asked_for(spec, x, y);
        let i = choose|i: int|
            0 <= i < spec.pins@.len() && (#[trigger] spec.pins@[i]).x == x && spec.pins@[i].y == y;
        assert(spec.pins@[i].entity == e);
    }
    if pins_a(spec, e) {
        let i = choose|i: int| 0 <= i < spec.pins@.len() && (#[trigger] spec.pins@[i]).entity == e;
        assert(pin_is_fine(spec, i));
        let (x, y) = (spec.pins@[i].x as int, spec.pins@[i].y as int);
        law_the_board_shows_what_is_asked_for(spec, x, y);
        grid::lemma_slot(g, x, y);
        assert(g.cells[g.slot(x, y)].entity == e);
    }
}

/// A task whose parts are well placed is refused where no source is pinned, else where no
/// sink is, else where the pins cannot all stand, and otherwise it is accepted.
pub proof fn law_a_task_needs_a_source_and_a_sink(spec: TaskSpec)
    requires
        well_placed(spec),
    ensures
        spec.refusal() == (if !pins_a(spec, Entity::Source) {
            Some(SpecError::NoSource)
        } else if !pins_a(spec, Entity::Sink) {
            Some(SpecError::NoSink)
        } else if !spec.grid().legal() {
            Some(SpecError::Unbuildable)
        } else {
            None
        }),
{
    lemma_obstacles_fine(spec, spec.obstacles@.len());
    lemma_pins_fine(spec, spec.pins@.len());
    lemma_has(spec, Entity::Source);
    lemma_has(spec, Entity::Sink);
}

/// A cell is given exactly if it is pinned.
pub proof fn law_a_tile_is_given_if_it_is_pinned(spec: TaskSpec, x: int, y: int)
    requires
        well_placed(spec),
        0 <= x < spec.width && 0 <= y < spec.height,
    ensures
        spec.given().len() == spec.width * spec.height,
        spec.given()[y * spec.width + x] <==> exists|i: int|
            0 <= i < spec.pins@.len() && (#[trigger] spec.pins@[i]).x == x && spec.pins@[i].y == y,
{
    let g = GridView::blank(spec.width as nat, spec.height as nat);
    grid::lemma_slot(g, x, y);
    let s = g.slot(x, y);
    if spec.given()[s] {
        let i = choose|i: int| 0 <= i < spec.pins@.len() && spec.slot_of(i) == s;
        assert(pin_is_fine(spec, i));
        let p = spec.pins@[i];
        grid::lemma_slot_injective(g, x, y, p.x as int, p.y as int);
        assert(spec.pins@[i].x == x);
    }
    if exists|i: int|
        0 <= i < spec.pins@.len() && (#[trigger] spec.pins@[i]).x == x && spec.pins@[i].y == y {
        let i = choose|i: int|
            0 <= i < spec.pins@.len() && (#[trigger] spec.pins@[i]).x == x && spec.pins@[i].y == y;
        assert(spec.slot_of(i) == s);
    }
}

/// A number that is brought into range is the nearest one in it.
pub proof fn law_a_number_is_brought_into_range(n: usize, max: usize)
    requires
        max >= 1,
    ensures
        1 <= serve::clamped(n, max) <= max,
        1 <= n <= max ==> serve::clamped(n, max) == n,
        n < 1 ==> serve::clamped(n, max) == 1,
        n > max ==> serve::clamped(n, max) == max,
{
}

/// The frame of a round shows the cells that were committed by then, and the walls; every
/// other cell reads as empty.
pub proof fn law_a_frame_shows_what_is_committed(
    g: GridView,
    reveal_step: Seq<usize>,
    round: int,
    i: int,
)
    requires
        reveal_step.len() == g.cells.len(),
        0 <= i < g.cells.len(),
    ensures
        ({
            let f = serve::frame(g, reveal_step, round);
            &&& (f.width, f.height, f.obstacle) == (g.width, g.height, g.obstacle)
            &&& f.cells.len() == g.cells.len()
            &&& reveal_step[i] <= round ==> f.cells[i] == g.cells[i]
            &&& reveal_step[i] > round ==> f.cells[i].entity is Empty && f.cells[i].consistent()
        }),
{
}

/// The last round is one in which a cell is committed, if there is any, and none is
/// committed later.
pub proof fn law_the_last_round_is_the_latest(reveal_step: Seq<usize>)
    ensures
        forall|i: int|
            0 <= i < reveal_step.len() ==> #[trigger] reveal_step[i] <= serve::last_round(
                reveal_step,
            ),
        serve::last_round(reveal_step) > 0 ==> exists|i: int|
            0 <= i < reveal_step.len() && #[trigger] reveal_step[i] == serve::last_round(
                reveal_step,
            ),
    decreases reveal_step.len(),
{
    serve::lemma_last_round(reveal_step);
    if reveal_step.len() > 0 {
        let before = reveal_step.drop_last();
        law_the_last_round_is_the_latest(before);
        if serve::last_round(reveal_step) > 0 {
            if reveal_step.last() > serve::last_round(before) {
                assert(reveal_step[reveal_step.len() - 1] == serve::last_round(reveal_step));
            } else {
                let i = choose|i: int|
                    0 <= i < before.len() && #[trigger] before[i] == serve::last_round(before);
                assert(reveal_step[i] == serve::last_round(reveal_step));
            }
        }
    }
}

/// Whether a text holds white space only.
pub open spec fn all_space(s: Seq<char>) -> bool {
    forall|i: int| 0 <= i < s.len() ==> http::white_space(#[trigger] s[i])
}

/// Whether a text holds no white space.
pub open spec fn no_space(s: Seq<char>) -> bool {
    forall|i: int| 0 <= i < s.len() ==> !http::white_space(#[trigger] s[i])
}

proof fn lemma_word_start(s: Seq<char>, from: int, to: int)
    requires
        0 <= from <= to <= s.len(),
        forall|i: int| from <= i < to ==> http::white_space(#[trigger] s[i]),
        to < s.len() ==> !http::white_space(s[to]),
    ensures
        http::word_start(s, from) == to,
    decreases to - from,
{
    if from < to {
        assert(http::white_space(s[from]));
        lemma_word_start(s, from + 1, to);
    }
}

proof fn lemma_word_end(s: Seq<char>, from: int, to: int)
    requires
        0 <= from <= to <= s.len(),
        forall|i: int| from <= i < to ==> !http::white_space(#[trigger] s[i]),
        to < s.len() ==> http::white_space(s[to]),
    ensures
        http::word_end(s, from) == to,
    decreases to - from,
{
    if from < to {
        assert(!http::white_space(s[from]));
        lemma_word_end(s, from + 1, to);
    }
}

/// A request line gives its first two words, whatever white space stands before, between
/// and after them, and whatever follows that.
pub proof fn law_a_request_line_gives_method_and_path(
    before: Seq<char>,
    method: Seq<char>,
    gap: Seq<char>,
    path: Seq<char>,
    after: Seq<char>,
)
    requires
        all_space(before),
        no_space(method) && method.len() > 0,
        all_space(gap) && gap.len() > 0,
        no_space(path) && path.len() > 0,
        after.len() > 0 ==> http::white_space(after[0]),
    ensures
        http::first_words(before + method + gap + path + after) == Some((method, path)),
{
    let s = before + method + gap + path + after;
    let a = before.len() as int;
    let b = a + method.len();
    let c = b + gap.len();
    let d = c + path.len();
    assert(forall|i: int| 0 <= i < a ==> s[i] == before[i]);
    assert(forall|i: int| a <= i < b ==> s[i] == method[i - a]);
    assert(forall|i: int| b <= i < c ==> s[i] == gap[i - b]);
    assert(forall|i: int| c <= i < d ==> s[i] == path[i - c]);
    assert(d < s.len() ==> s[d] == after[0]);
    assert(s[a] == method[0] && s[b] == gap[0] && s[c] == path[0]);
    lemma_word_start(s, 0, a);
    lemma_word_end(s, a, b);
    lemma_word_start(s, b, c);
    lemma_word_end(s, c, d);
    assert(s.subrange(a, b) =~= method);
    assert(s.subrange(c, d) =~= path);
}

/// A line of fewer than two words gives neither.
pub proof fn law_a_single_word_is_no_request(
    before: Seq<char>,
    word: Seq<char>,
    after: Seq<char>,
)
    requires
        all_space(before),
        no_space(word),
        all_space(after),
    ensures
        http::first_words(before + word + after) is None,
{
    let s = before + word + after;
    let a = before.len() as int;
    let b = a + word.len();
    assert(forall|i: int| 0 <= i < a ==> s[i] == before[i]);
    assert(forall|i: int| a <= i < b ==> s[i] == word[i - a]);
    assert(forall|i: int| b <= i < s.len() ==> s[i] == after[i - b]);
    if word.len() > 0 {
        assert(s[a] == word[0]);
        lemma_word_start(s, 0, a);
        if after.len() > 0 {
            assert(s[b] == after[0]);
        }
        lemma_word_end(s, a, b);
        lemma_word_start(s, b, s.len() as int);
    } else {
        lemma_word_start(s, 0, s.len() as int);
    }
}

/// A number in decimal holds digits only, reads as the number, and starts with a zero only
/// if it is one.
pub proof fn law_a_number_survives_being_written(n: nat)
    ensures
        http::digits_value(text::decimal(n)) == Some(n),
        text::decimal(n).len() > 0,
        n > 0 ==> text::decimal(n)[0] != '0',
        forall|i: int|
            0 <= i < text::decimal(n).len() ==> '0' <= #[trigger] text::decimal(n)[i] <= '9',
    decreases n,
{
    let s = text::decimal(n);
    if n < 10 {
        assert(s.drop_last() =~= Seq::empty());
        assert(http::digits_value(s.drop_last()) == Some(0nat));
    } else {
        law_a_number_survives_being_written(n / 10);
        let before = text::decimal(n / 10);
        assert(s.drop_last() =~= before);
        assert(n == (n / 10) * 10 + n % 10);
    }
}

/// The length of a body reads as the number that is written, with or without a plus sign;
/// a number too large for a machine word, or no number, reads as zero.
pub proof fn law_a_written_length_is_read(n: nat, s: Seq<char>)
    ensures
        n <= usize::MAX ==> http::length_of(text::decimal(n)) == n,
        n <= usize::MAX ==> http::length_of(seq!['+'] + text::decimal(n)) == n,
        n > usize::MAX ==> http::length_of(text::decimal(n)) == 0,
        (exists|i: int| 0 < i < s.len() && !('0' <= #[trigger] s[i] <= '9')) ==> http::length_of(s)
            == 0,
        s.len() == 0 ==> http::length_of(s) == 0,
{
    law_a_number_survives_being_written(n);
    let d = text::decimal(n);
    let p = seq!['+'] + d;
    assert(p.subrange(1, p.len() as int) =~= d);
    assert('0' <= d[0] <= '9');
    assert(http::without_plus(d) == d);
    if exists|i: int| 0 < i < s.len() && !('0' <= #[trigger] s[i] <= '9') {
        let i = choose|i: int| 0 < i < s.len() && !('0' <= #[trigger] s[i] <= '9');
        let digits = http::without_plus(s);
        if s[0] == '+' {
            assert(digits[i - 1] == s[i]);
            lemma_no_number(digits, i - 1);
        } else {
            lemma_no_number(digits, i);
        }
    }
}

proof fn lemma_no_number(s: Seq<char>, i: int)
    requires
        0 <= i < s.len(),
        !('0' <= s[i] <= '9'),
    ensures
        http::digits_value(s) is None,
    decreases s.len(),
{
    if i < s.len() - 1 {
        assert(s.drop_last()[i] == s[i]);
        lemma_no_number(s.drop_last(), i);
    }
}

/// The page is served for its path, a design is made for a body below one mebibyte, and
/// anything else is not found.
pub proof fn law_where_requests_go(method: Seq<char>, path: Seq<char>, body_len: nat)
    ensures
        ({
            let page = method == "GET"@ && path == "/"@;
            let design = method == "POST"@ && path == "/api/design"@;
            let to = http::route_of(method, path, body_len);
            &&& to is Page <==> page
            &&& to is Design <==> design && body_len < 1_048_576
            &&& to is TooLarge <==> design && body_len >= 1_048_576
            &&& to is NotFound <==> !page && !design
        }),
{
    reveal_strlit("GET");
    reveal_strlit("POST");
    assert("GET"@.len() == 3 && "POST"@.len() == 4);
}

/// A header line of white space alone ends the headers.
pub proof fn law_a_blank_line_ends_the_headers(line: Seq<char>)
    requires
        all_space(line),
    ensures
        http::header_of(line) is End,
{
    lemma_trimmed(line, line.len() as int, 0);
    assert(line.subrange(0, 0).len() == 0);
}

proof fn lemma_trimmed(s: Seq<char>, k: int, to: int)
    requires
        0 <= to <= k <= s.len(),
        forall|i: int| to <= i < k ==> http::white_space(#[trigger] s[i]),
        to > 0 ==> !http::white_space(s[to - 1]),
    ensures
        http::trimmed_end(s, k) == to,
    decreases k,
{
    if k > to {
        assert(http::white_space(s[k - 1]));
        lemma_trimmed(s, k - 1, to);
    }
}

proof fn lemma_colon(s: Seq<char>, from: int, to: int)
    requires
        0 <= from <= to < s.len(),
        s[to] == ':',
        forall|i: int| from <= i < to ==> #[trigger] s[i] != ':',
    ensures
        http::colon_from(s, from) == to,
    decreases to - from,
{
    if from < to {
        assert(s[from] != ':');
        lemma_colon(s, from + 1, to);
    }
}

/// A header under the name of the body's length, in letters of either case, gives the
/// number behind its colon, whatever white space stands before and after that.
pub proof fn law_a_length_header_gives_its_number(
    name: Seq<char>,
    gap: Seq<char>,
    n: nat,
    after: Seq<char>,
)
    requires
        http::same_but_case(name, "content-length"@),
        all_space(gap),
        all_space(after),
        n <= usize::MAX,
    ensures
        http::header_of(name + seq![':'] + gap + text::decimal(n) + after) == http::Header::Length(
            n as usize,
        ),
{
    let d = text::decimal(n);
    law_a_number_survives_being_written(n);
    law_a_written_length_is_read(n, d);
    let line = name + seq![':'] + gap + d + after;
    let colon = name.len() as int;
    let start = colon + 1 + gap.len();
    let end = start + d.len();
    assert(forall|i: int| 0 <= i < colon ==> line[i] == name[i]);
    assert(line[colon] == ':');
    assert(forall|i: int| colon + 1 <= i < start ==> line[i] == gap[i - colon - 1]);
    assert(forall|i: int| start <= i < end ==> line[i] == d[i - start]);
    assert(forall|i: int| end <= i < line.len() ==> line[i] == after[i - end]);
    assert(line[end - 1] == d[d.len() - 1]);
    lemma_trimmed(line, line.len() as int, end);
    let s = line.subrange(0, end);
    assert forall|i: int| 0 <= i < colon implies #[trigger] s[i] != ':' by {
        lemma_no_colon(name, i);
        assert(s[i] == name[i]);
    }
    lemma_colon(s, 0, colon);
    assert(s.subrange(0, colon) =~= name);
    let rest = s.subrange(colon + 1, s.len() as int);
    assert(rest =~= gap + d);
    assert(forall|i: int| 0 <= i < gap.len() ==> rest[i] == gap[i]);
    assert(rest[gap.len() as int] == d[0]);
    lemma_word_start(rest, 0, gap.len() as int);
    assert(rest.subrange(gap.len() as int, rest.len() as int) =~= d);
}

/// The name of the header holds no colon.
proof fn lemma_no_colon(name: Seq<char>, i: int)
    requires
        http::same_but_case(name, "content-length"@),
        0 <= i < name.len(),
    ensures
        name[i] != ':',
{
    let want = "content-length"@;
    reveal_strlit("content-length");
    assert(want.len() == 14);
    assert(text::lowercase(name[i]) == text::lowercase(want[i]));
    assert(text::lowercase(':') == ':');
    assert(text::lowercase(want[i]) != ':');
}

/// Lower case changes the letters from A to Z, each to the one of its own, and nothing else.
pub proof fn law_lower_case(c: char)
    ensures
        'A' <= c <= 'Z' ==> 'a' <= text::lowercase(c) <= 'z' && text::lowercase(c) as int - 'a' as int
            == c as int - 'A' as int,
        !('A' <= c <= 'Z') ==> text::lowercase(c) == c,
{
}

/// Why a task is refused, in words: the side or the tile that is at fault is named.
pub proof fn law_refusals_name_what_is_at_fault(e: SpecError)
    ensures
        e matches SpecError::Size { side } ==> e.words() == "grid sides must be 5..=32 tiles, got "@
            + text::decimal(side as nat),
        e matches SpecError::OutOfBounds { x, y } ==> e.words() == "("@ + text::decimal(x as nat)
            + ", "@ + text::decimal(y as nat) + ") is outside the grid"@,
        e matches SpecError::Overlap { x, y } ==> e.words() == "("@ + text::decimal(x as nat) + ", "@
            + text::decimal(y as nat) + ") is pinned twice"@,
        e is NoSource ==> e.words() == "pin at least one Source: the model needs an input"@,
        e is NoSink ==> e.words()
            == "pin at least one Sink: the model needs somewhere to deliver"@,
        e is Unbuildable ==> e.words()
            == "the pinned cells overlap each other's footprints, so no legal factory contains them"@,
{
}

/// The head of a response names its status, the type and the length of its body, and ends
/// with an empty line.
pub proof fn law_what_the_head_of_a_response_says(
    status: Seq<char>,
    content_type: Seq<char>,
    len: nat,
)
    ensures
        http::head_text(status, content_type, len) == "HTTP/1.1 "@ + status
            + "\r\nContent-Type: "@ + content_type + "\r\nContent-Length: "@ + text::decimal(len)
            + "\r\nCache-Control: no-store\r\nConnection: close\r\n\r\n"@,
        "\r\n\r\n"@.is_suffix_of(http::head_text(status, content_type, len)),
{
    reveal_strlit("\r\n\r\n");
    reveal_strlit("\r\nCache-Control: no-store\r\nConnection: close\r\n\r\n");
}

} // verus!
