//! The parts of a report: panels that show a factory, and text made safe to embed.

use vstd::prelude::*;
use crate::text;
use crate::textual;
use crate::textual::glyph;
use crate::viewer;
use crate::viewer::grid_to_svg;
use crate::world::grid::GridView;
use crate::world::{Cell, Grid};

verus! {

/// Why a card cannot be written.
#[derive(Debug, Clone, Copy, PartialEq, Eq, Structural)]
pub enum CardError {
    /// The grids do not have the same number of cells.
    RaggedGrid,
    /// A diagnostic map does not have one value for every cell.
    MapLength,
}

impl CardError {
    /// The reason in words.
    pub open spec fn words(self) -> Seq<char> {
        match self {
            CardError::RaggedGrid => "ragged report grid"@,
            CardError::MapLength => "diagnostic map length does not match grid"@,
        }
    }

    /// The reason in words.
    pub fn message(&self) -> (r: &'static str)
        ensures
            r@ == self.words(),
    {
        match *self {
            CardError::RaggedGrid => "ragged report grid",
            CardError::MapLength => "diagnostic map length does not match grid",
        }
    }
}

/// A character as HTML shows it.
pub open spec fn escaped(c: char) -> Seq<char> {
    if c == '&' {
        "&amp;"@
    } else if c == '<' {
        "&lt;"@
    } else if c == '>' {
        "&gt;"@
    } else if c == '"' {
        "&quot;"@
    } else {
        seq![c]
    }
}

/// A text as HTML shows it.
pub open spec fn escaped_text(s: Seq<char>) -> Seq<char>
    decreases s.len(),
{
    if s.len() == 0 {
        seq![]
    } else {
        escaped_text(s.drop_last()) + escaped(s.last())
    }
}

/// Data with every `</` written as `<\/`, so that it cannot close the element it is
/// embedded in.
pub open spec fn embedded(s: Seq<char>, k: nat) -> Seq<char>
    decreases k,
{
    if k == 0 {
        seq![]
    } else {
        let before = embedded(s, (k - 1) as nat);
        if k > 1 && s[k - 2] == '<' && s[k - 1] == '/' {
            before.push('\\').push('/')
        } else {
            before.push(s[k - 1])
        }
    }
}

/// A panel with the drawing of a factory.
pub open spec fn drawing_panel(title: Seq<char>, g: GridView) -> Seq<char> {
    "<div><h3>"@ + title + "</h3>"@ + viewer::drawing(g) + "</div>"@
}

/// The cell of a glyph panel.
pub open spec fn glyph_cell(g: GridView, x: int, y: int) -> Seq<char> {
    "<i>"@ + escaped(textual::tile_glyph(g, x, y)) + "</i>"@
}

/// A panel with the glyphs of a factory.
pub open spec fn glyph_panel(title: Seq<char>, g: GridView) -> Seq<char> {
    "<div><h3>"@ + title + "</h3><div class=\"grid glyphs\" style=\"--w:"@ + text::decimal(g.width)
        + "\">"@ + text::along_rows(|x: int, y: int| glyph_cell(g, x, y), g.width, g.height)
        + "</div></div>"@
}

/// One card of a report: a factory as it was given, as it was rebuilt and as it was
/// meant, drawn and as glyphs, beside the heatmaps.
pub open spec fn card_text(
    label: Seq<char>,
    input: GridView,
    prediction: GridView,
    target: GridView,
    heatmaps: Seq<char>,
) -> Seq<char> {
    "<section class=\"sample\"><h2>"@ + escaped_text(label) + "</h2><div class=\"panels\">"@
        + drawing_panel("Given"@, input) + drawing_panel("Model's factory"@, prediction)
        + drawing_panel("Ground truth"@, target) + "</div><div class=\"panels\">"@ + glyph_panel(
        "Masked input"@,
        input,
    ) + glyph_panel("Prediction"@, prediction) + glyph_panel("Ground truth"@, target) + heatmaps
        + "</div></section>"@
}

/// Whether a masked cell was rebuilt wrongly.
pub open spec fn wrong(prediction: Seq<Cell>, target: Seq<Cell>, observed: Seq<bool>, i: int) -> bool {
    !observed[i] && prediction[i] != target[i]
}

fn push_escaped(out: &mut String, c: char)
    ensures
        final(out)@ == old(out)@ + escaped(c),
{
    let ghost before = out@;
    if c == '&' {
        text::push(out, "&amp;");
    } else if c == '<' {
        text::push(out, "&lt;");
    } else if c == '>' {
        text::push(out, "&gt;");
    } else if c == '"' {
        text::push(out, "&quot;");
    } else {
        out.push(c);
        assert(out@ =~= before + escaped(c));
    }
}

/// A text as HTML shows it.
pub fn escape_html(value: &str) -> (r: String)
    ensures
        r@ == escaped_text(value@),
{
    let s = text::characters(value);
    let mut out = String::new();
    let mut i: usize = 0;
    while i < s.len()
        invariant
            i <= s@.len(),
            out@ == escaped_text(s@.take(i as int)),
        decreases s@.len() - i,
    {
        proof {
            let now = s@.take(i + 1);
            assert(now.drop_last() =~= s@.take(i as int));
            assert(now.last() == s@[i as int]);
        }
        push_escaped(&mut out, s[i]);
        i = i + 1;
    }
    assert(s@.take(i as int) =~= s@);
    out
}

/// Data that can be embedded in a script element.
pub fn embed_data(payload: &str) -> (r: String)
    ensures
        r@ == embedded(payload@, payload@.len()),
{
    let s = text::characters(payload);
    let mut out = String::new();
    let mut i: usize = 0;
    while i < s.len()
        invariant
            i <= s@.len(),
            out@ == embedded(s@, i as nat),
        decreases s@.len() - i,
    {
        if i > 0 && s[i - 1] == '<' && s[i] == '/' {
            out.push('\\');
        }
        out.push(s[i]);
        i = i + 1;
    }
    out
}

/// The picture of a factory, under a title.
pub fn svg_panel(title: &str, grid: &Grid) -> (r: String)
    requires
        grid.wf(),
        viewer::drawable(grid@),
    ensures
        r@ == drawing_panel(title@, grid@),
{
    let mut s = text::begin("<div><h3>");
    text::push(&mut s, title);
    text::push(&mut s, "</h3>");
    let picture = grid_to_svg(grid);
    text::push(&mut s, picture.as_str());
    text::push(&mut s, "</div>");
    s
}

fn glyph_cells(grid: &Grid) -> (r: String)
    requires
        grid.wf(),
    ensures
        r@ == text::along_rows(
            |x: int, y: int| glyph_cell(grid@, x, y),
            grid@.width,
            grid@.height,
        ),
{
    let ghost g = grid@;
    let ghost f = |x: int, y: int| glyph_cell(g, x, y);
    let mut s = String::new();
    let mut y: usize = 0;
    while y < grid.height
        invariant
            grid.wf(),
            g == grid@,
            f == (|x: int, y: int| glyph_cell(g, x, y)),
            y <= grid.height,
            s@ == text::along_rows(f, g.width, y as nat),
        decreases grid.height - y,
    {
        let ghost above = s@;
        assert(s@ =~= above + text::along_row(f, y as int, 0));
        let mut x: usize = 0;
        while x < grid.width
            invariant
                grid.wf(),
                g == grid@,
                f == (|x: int, y: int| glyph_cell(g, x, y)),
                y < grid.height,
                x <= grid.width,
                s@ == above + text::along_row(f, y as int, x as nat),
            decreases grid.width - x,
        {
            text::push(&mut s, "<i>");
            push_escaped(&mut s, glyph(grid, x, y));
            text::push(&mut s, "</i>");
            assert(s@ =~= above + text::along_row(f, y as int, x as nat + 1));
            x = x + 1;
        }
        y = y + 1;
    }
    s
}

/// The glyphs of a factory, under a title.
pub fn grid_panel(title: &str, grid: &Grid) -> (r: String)
    requires
        grid.wf(),
    ensures
        r@ == glyph_panel(title@, grid@),
{
    let mut s = text::begin("<div><h3>");
    text::push(&mut s, title);
    text::push(&mut s, "</h3><div class=\"grid glyphs\" style=\"--w:");
    text::push_number(&mut s, grid.width);
    text::push(&mut s, "\">");
    let cells = glyph_cells(grid);
    text::push(&mut s, cells.as_str());
    text::push(&mut s, "</div></div>");
    s
}

/// Whether a card can be written: the grids have as many cells as the input, and so has
/// every diagnostic map.
pub fn check_card(
    input: &Grid,
    prediction: &Grid,
    target: &Grid,
    observed: usize,
    confidence: usize,
    entropy: usize,
    reveal_step: usize,
) -> (r: Result<(), CardError>)
    ensures
        ({
            let n = input@.cells.len();
            let ragged = prediction@.cells.len() != n || target@.cells.len() != n;
            let short = observed != n || confidence != n || entropy != n || reveal_step != n;
            r == if ragged {
                Err::<(), CardError>(CardError::RaggedGrid)
            } else if short {
                Err::<(), CardError>(CardError::MapLength)
            } else {
                Ok::<(), CardError>(())
            }
        }),
{
    let n = input.len();
    if prediction.len() != n || target.len() != n {
        return Err(CardError::RaggedGrid);
    }
    if observed != n || confidence != n || entropy != n || reveal_step != n {
        return Err(CardError::MapLength);
    }
    Ok(())
}

/// Which masked cells were rebuilt wrongly. Given cells are never wrong.
pub fn error_map(prediction: &Grid, target: &Grid, observed: &Vec<bool>) -> (r: Vec<bool>)
    requires
        prediction@.cells.len() == observed@.len(),
        target@.cells.len() == observed@.len(),
    ensures
        r@ == Seq::new(
            observed@.len(),
            |i: int| wrong(prediction@.cells, target@.cells, observed@, i),
        ),
{
    let mut r: Vec<bool> = Vec::new();
    let mut i: usize = 0;
    while i < observed.len()
        invariant
            prediction@.cells.len() == observed@.len(),
            target@.cells.len() == observed@.len(),
            i <= observed@.len(),
            r@.len() == i,
            forall|j: int|
                0 <= j < i ==> #[trigger] r@[j] == wrong(
                    prediction@.cells,
                    target@.cells,
                    observed@,
                    j,
                ),
        decreases observed@.len() - i,
    {
        r.push(!observed[i] && prediction.cells[i] != target.cells[i]);
        i = i + 1;
    }
    assert(r@ =~= Seq::new(
        observed@.len(),
        |i: int| wrong(prediction@.cells, target@.cells, observed@, i),
    ));
    r
}

/// One card of a report.
pub fn sample_card(
    label: &str,
    input: &Grid,
    prediction: &Grid,
    target: &Grid,
    heatmaps: &str,
) -> (r: String)
    requires
        input.wf(),
        prediction.wf(),
        target.wf(),
        viewer::drawable(input@),
        viewer::drawable(prediction@),
        viewer::drawable(target@),
    ensures
        r@ == card_text(label@, input@, prediction@, target@, heatmaps@),
{
    let mut s = text::begin("<section class=\"sample\"><h2>");
    let name = escape_html(label);
    text::push(&mut s, name.as_str());
    text::push(&mut s, "</h2><div class=\"panels\">");
    let given = svg_panel("Given", input);
    text::push(&mut s, given.as_str());
    let built = svg_panel("Model's factory", prediction);
    text::push(&mut s, built.as_str());
    let meant = svg_panel("Ground truth", target);
    text::push(&mut s, meant.as_str());
    text::push(&mut s, "</div><div class=\"panels\">");
    let masked = grid_panel("Masked input", input);
    text::push(&mut s, masked.as_str());
    let predicted = grid_panel("Prediction", prediction);
    text::push(&mut s, predicted.as_str());
    let truth = grid_panel("Ground truth", target);
    text::push(&mut s, truth.as_str());
    text::push(&mut s, heatmaps);
    text::push(&mut s, "</div></section>");
    s
}

/// Escaped text holds no character that HTML reads as markup.
pub proof fn law_escaped_text_holds_no_markup(s: Seq<char>)
    ensures
        forall|i: int|
            0 <= i < escaped_text(s).len() ==> {
                let c = #[trigger] escaped_text(s)[i];
                c != '<' && c != '>' && c != '"'
            },
    decreases s.len(),
{
    reveal_strlit("&amp;");
    reveal_strlit("&lt;");
    reveal_strlit("&gt;");
    reveal_strlit("&quot;");
    if s.len() > 0 {
        law_escaped_text_holds_no_markup(s.drop_last());
        let before = escaped_text(s.drop_last());
        let now = escaped_text(s);
        assert forall|i: int| 0 <= i < now.len() implies {
            let c = #[trigger] now[i];
            c != '<' && c != '>' && c != '"'
        } by {
            if i < before.len() {
                assert(now[i] == before[i]);
            } else {
                assert(now[i] == escaped(s.last())[i - before.len()]);
            }
        }
    }
}

/// Embedded data never closes the element it stands in.
pub proof fn law_embedded_data_closes_nothing(s: Seq<char>, k: nat)
    requires
        k <= s.len(),
    ensures
        forall|i: int|
            0 < i < embedded(s, k).len() ==> !(embedded(s, k)[i - 1] == '<' && #[trigger] embedded(
                s,
                k,
            )[i] == '/'),
        k > 0 ==> embedded(s, k).len() > 0 && embedded(s, k).last() == s[k - 1],
    decreases k,
{
    if k > 0 {
        law_embedded_data_closes_nothing(s, (k - 1) as nat);
        let before = embedded(s, (k - 1) as nat);
        let now = embedded(s, k);
        assert forall|i: int| 0 < i < now.len() implies !(now[i - 1] == '<' && #[trigger] now[i]
            == '/') by {
            if i < before.len() {
                assert(now[i] == before[i] && now[i - 1] == before[i - 1]);
            }
        }
    }
}

/// The four characters that mark up HTML are written as references; every other character
/// stands for itself.
pub proof fn law_what_is_escaped(c: char)
    ensures
        c == '&' ==> escaped(c) == "&amp;"@,
        c == '<' ==> escaped(c) == "&lt;"@,
        c == '>' ==> escaped(c) == "&gt;"@,
        c == '"' ==> escaped(c) == "&quot;"@,
        c != '&' && c != '<' && c != '>' && c != '"' ==> escaped(c) == seq![c],
{
}

/// A text is escaped part by part.
pub proof fn law_texts_are_escaped_part_by_part(a: Seq<char>, b: Seq<char>)
    ensures
        escaped_text(a + b) == escaped_text(a) + escaped_text(b),
        a.len() == 1 ==> escaped_text(a) == escaped(a[0]),
    decreases b.len(),
{
    if b.len() == 0 {
        assert(a + b =~= a);
        assert(escaped_text(b) =~= Seq::empty());
        assert(escaped_text(a) + escaped_text(b) =~= escaped_text(a));
    } else {
        law_texts_are_escaped_part_by_part(a, b.drop_last());
        assert((a + b).drop_last() =~= a + b.drop_last());
        assert(escaped_text(a) + (escaped_text(b.drop_last()) + escaped(b.last())) =~= (
        escaped_text(a) + escaped_text(b.drop_last())) + escaped(b.last()));
    }
    if a.len() == 1 {
        assert(a.drop_last() =~= Seq::empty());
        assert(escaped_text(a.drop_last()) + escaped(a.last()) =~= escaped(a[0]));
    }
}

/// Data that closes nothing is embedded as it is.
pub proof fn law_harmless_data_is_embedded_as_it_is(s: Seq<char>, k: nat)
    requires
        k <= s.len(),
        forall|i: int| 0 <= i < k - 1 ==> !(#[trigger] s[i] == '<' && s[i + 1] == '/'),
    ensures
        embedded(s, k) == s.take(k as int),
    decreases k,
{
    if k > 0 {
        law_harmless_data_is_embedded_as_it_is(s, (k - 1) as nat);
        if k > 1 {
            assert(!(s[k - 2] == '<' && s[k - 2 + 1] == '/'));
        }
        assert(s.take(k - 1).push(s[k - 1]) =~= s.take(k as int));
    } else {
        assert(s.take(0) =~= Seq::empty());
    }
}

/// A cell counts as wrong exactly if it was masked and differs on some channel.
pub proof fn law_a_wrong_cell_differs_on_a_channel(
    prediction: Seq<Cell>,
    target: Seq<Cell>,
    observed: Seq<bool>,
    i: int,
)
    ensures
        wrong(prediction, target, observed, i) <==> !observed[i] && (prediction[i].entity
            != target[i].entity || prediction[i].direction != target[i].direction
            || prediction[i].item != target[i].item || prediction[i].misc != target[i].misc),
{
}

/// A panel shows its title and then its factory.
pub proof fn law_a_panel_shows_its_factory(title: Seq<char>, g: GridView)
    ensures
        drawing_panel(title, g) == "<div><h3>"@ + title + "</h3>"@ + viewer::drawing(g) + "</div>"@,
        ("<div><h3>"@ + title + "</h3><div class=\"grid glyphs\" style=\"--w:"@ + text::decimal(
            g.width,
        )).is_prefix_of(glyph_panel(title, g)),
{
}

/// The cell of a glyph panel shows the glyph of its tile, safely.
pub proof fn law_a_glyph_panel_shows_the_glyphs(g: GridView, title: Seq<char>, x: int, y: int)
    requires
        g.inside(x, y),
    ensures
        glyph_cell(g, x, y) == "<i>"@ + escaped(textual::tile_glyph(g, x, y)) + "</i>"@,
        viewer::shows(glyph_panel(title, g), glyph_cell(g, x, y)),
{
    let f = |x: int, y: int| glyph_cell(g, x, y);
    let cells = text::along_rows(f, g.width, g.height);
    text::law_tiles_are_written_in_row_order(f, g.width, g.height, x, y);
    let a = text::along_rows(f, g.width, y as nat) + text::along_row(f, y, x as nat);
    let after = cells.subrange((a + f(x, y)).len() as int, cells.len() as int);
    assert(cells =~= a + f(x, y) + after);
    let head = "<div><h3>"@ + title + "</h3><div class=\"grid glyphs\" style=\"--w:"@
        + text::decimal(g.width) + "\">"@;
    let all = glyph_panel(title, g);
    assert(all == head + cells + "</div></div>"@);
    assert(all =~= (head + a) + f(x, y) + (after + "</div></div>"@));
}

/// A card shows its label, safely, then what was given, what was built and what was meant,
/// first drawn and then as glyphs, and the heatmaps.
pub proof fn law_what_a_card_shows(
    label: Seq<char>,
    input: GridView,
    prediction: GridView,
    target: GridView,
    heatmaps: Seq<char>,
)
    ensures
        ({
            let card = card_text(label, input, prediction, target, heatmaps);
            &&& ("<section class=\"sample\"><h2>"@ + escaped_text(label)
                + "</h2><div class=\"panels\">"@ + drawing_panel("Given"@, input)
                + drawing_panel("Model's factory"@, prediction) + drawing_panel(
                "Ground truth"@,
                target,
            )).is_prefix_of(card)
            &&& (glyph_panel("Masked input"@, input) + glyph_panel("Prediction"@, prediction)
                + glyph_panel("Ground truth"@, target) + heatmaps
                + "</div></section>"@).is_suffix_of(card)
        }),
{
    let card = card_text(label, input, prediction, target, heatmaps);
    let head = "<section class=\"sample\"><h2>"@ + escaped_text(label)
        + "</h2><div class=\"panels\">"@ + drawing_panel("Given"@, input) + drawing_panel(
        "Model's factory"@,
        prediction,
    ) + drawing_panel("Ground truth"@, target);
    let tail = glyph_panel("Masked input"@, input) + glyph_panel("Prediction"@, prediction)
        + glyph_panel("Ground truth"@, target) + heatmaps + "</div></section>"@;
    assert(card =~= head + "</div><div class=\"panels\">"@ + tail);
}

/// Why a card is refused, in words.
pub proof fn law_why_a_card_is_refused(e: CardError)
    ensures
        e is RaggedGrid ==> e.words() == "ragged report grid"@,
        e is MapLength ==> e.words() == "diagnostic map length does not match grid"@,
{
}

} // verus!
