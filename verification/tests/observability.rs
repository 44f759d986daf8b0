use diffusion_factorio::observability::{
    check_card, embed_data, error_map, escape_html, grid_panel, sample_card, svg_panel, CardError,
};
use diffusion_factorio::viewer::grid_to_svg;
use diffusion_factorio::world::{Cell, Direction, Grid};

#[test]
fn spatial_report_contains_the_panels_and_the_heatmaps() {
    let mut target = Grid::new(2, 1);
    target.set(0, 0, Cell::belt(Direction::East));
    let input = Grid::new(2, 1);
    let prediction = target.clone();
    let html = sample_card(
        "routing <sample>",
        &input,
        &prediction,
        &target,
        "<div><h3>Confidence</h3></div>",
    );
    assert!(html.contains("Confidence"));
    assert!(html.contains("routing &lt;sample&gt;"));
    assert!(html.contains("Masked input"));
    assert!(html.starts_with("<section class=\"sample\"><h2>"));
    assert!(html.ends_with("</div></section>"));
    assert_eq!(html.matches("<svg").count(), 3);
}

#[test]
fn text_is_escaped() {
    assert_eq!(
        escape_html("a & b < c > \"d\" &lt;"),
        "a &amp; b &lt; c &gt; &quot;d&quot; &amp;lt;"
    );
    assert_eq!(escape_html(""), "");
}

#[test]
fn embedded_data_cannot_close_its_element() {
    assert_eq!(
        embed_data("{\"a\":\"</script><//\"}"),
        "{\"a\":\"<\\/script><\\//\"}"
    );
    assert_eq!(embed_data("a/b<c"), "a/b<c");
}

#[test]
fn a_glyph_panel_shows_every_tile() {
    let mut g = Grid::new(2, 2);
    g.set(0, 0, Cell::belt(Direction::East));
    g.set(1, 1, Cell::belt(Direction::West));
    assert_eq!(
        grid_panel("Prediction", &g),
        "<div><h3>Prediction</h3><div class=\"grid glyphs\" style=\"--w:2\">\
         <i>&gt;</i><i>.</i><i>.</i><i>&lt;</i></div></div>"
    );
}

#[test]
fn a_drawing_panel_holds_the_drawing() {
    let g = Grid::new(2, 2);
    assert_eq!(
        svg_panel("Given", &g),
        format!("<div><h3>Given</h3>{}</div>", grid_to_svg(&g))
    );
}

#[test]
fn a_card_needs_a_value_for_every_cell() {
    let g = Grid::new(2, 2);
    let wide = Grid::new(3, 2);
    assert_eq!(check_card(&g, &g, &g, 4, 4, 4, 4), Ok(()));
    assert_eq!(
        check_card(&g, &wide, &g, 4, 4, 4, 4),
        Err(CardError::RaggedGrid)
    );
    assert_eq!(
        check_card(&g, &g, &wide, 4, 4, 4, 4),
        Err(CardError::RaggedGrid)
    );
    assert_eq!(
        check_card(&g, &g, &g, 4, 3, 4, 4),
        Err(CardError::MapLength)
    );
    assert_eq!(CardError::RaggedGrid.message(), "ragged report grid");
    assert_eq!(
        CardError::MapLength.message(),
        "diagnostic map length does not match grid"
    );
}

#[test]
fn given_cells_are_never_wrong() {
    let mut target = Grid::new(3, 1);
    target.set(0, 0, Cell::belt(Direction::East));
    target.set(1, 0, Cell::belt(Direction::East));
    let prediction = Grid::new(3, 1);
    assert_eq!(
        error_map(&prediction, &target, &vec![true, false, false]),
        vec![false, true, false]
    );
}
