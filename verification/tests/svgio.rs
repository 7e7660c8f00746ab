use sticker_packer::svgio::SegKind::{Close, CubicTo, LineTo, MoveTo, QuadTo};
use sticker_packer::svgio::{flatten_rings, inner_svg_bounds, load_inner_svg_str, viewbox_fields, viewbox_numbers, CURVE_STEPS};

fn strings(v: &[&str]) -> Vec<String> {
    v.iter().map(|s| s.to_string()).collect()
}

#[test]
fn inner_markup_is_between_root_tags() {
    let s = "<?xml version=\"1.0\"?>\n<svg viewBox=\"0 0 1 1\">\n  <path d=\"M0 0\"/>\n</svg>\n";
    assert_eq!(load_inner_svg_str(s), Ok("<path d=\"M0 0\"/>".to_string()));
}

#[test]
fn inner_markup_tags_ignore_case() {
    let s = "<SVG a='1'><g><svg></svg></g></SvG>";
    assert_eq!(load_inner_svg_str(s), Ok("<g><svg></svg></g>".to_string()));
}

#[test]
fn inner_markup_errors() {
    assert_eq!(load_inner_svg_str("<html></html>"), Err("no <svg>".to_string()));
    assert_eq!(load_inner_svg_str("<svg"), Err("malformed <svg>".to_string()));
    assert_eq!(load_inner_svg_str("<svg>"), Err("no </svg>".to_string()));
}

#[test]
fn inner_bounds_are_character_positions() {
    assert_eq!(inner_svg_bounds("é<svg>ab</svg>"), Ok((6, 8)));
    assert_eq!(inner_svg_bounds("</svg><svg>"), Ok((11, 0)));
}

#[test]
fn viewbox_numbers_are_read_from_the_root_tag() {
    let s = "<svg xmlns=\"http://www.w3.org/2000/svg\" viewBox=\"0 0 100 50\"><g/></svg>";
    assert_eq!(viewbox_fields(s), Ok(strings(&["0", "0", "100", "50"])));
}

#[test]
fn viewbox_separators_and_quotes() {
    let s = "<SVG VIEWBOX = ' -1.5,2e1,\t30 , 40 '>";
    assert_eq!(viewbox_fields(s), Ok(strings(&["-1.5", "2e1", "30", "40"])));
    assert_eq!(viewbox_fields("<svg viewBox=\"\">"), Ok(vec![]));
}

#[test]
fn viewbox_errors() {
    assert_eq!(viewbox_fields("<g viewBox=\"0 0 1 1\">"), Err("no <svg> element".to_string()));
    assert_eq!(viewbox_fields("<svg viewBox=\"0 0 1 1\""), Err("malformed <svg>".to_string()));
    assert_eq!(
        viewbox_fields("<svg width=\"1\">"),
        Err("SVG has no viewBox attribute (both SVGs need one to align)".to_string())
    );
    assert_eq!(viewbox_fields("<svg viewBox>"), Err("malformed viewBox".to_string()));
    assert_eq!(viewbox_fields("<svg viewBox=0 0 1 1>"), Err("malformed viewBox".to_string()));
    assert_eq!(viewbox_fields("<svg viewBox=\"0 0 1 1>"), Err("unterminated viewBox".to_string()));
}

#[test]
fn a_closed_square_is_one_ring() {
    assert_eq!(flatten_rings(&[MoveTo, LineTo, LineTo, LineTo, Close]), vec![(0, 4)]);
}

#[test]
fn curves_add_sixteen_points() {
    assert_eq!(CURVE_STEPS, 16);
    // 1 + 16 + 16 points, then a second subpath of 1 + 1 + 16
    assert_eq!(
        flatten_rings(&[MoveTo, QuadTo, CubicTo, Close, MoveTo, LineTo, QuadTo]),
        vec![(0, 33), (33, 18)]
    );
}

#[test]
fn rings_of_fewer_than_three_points_are_dropped() {
    // a lone move, a two-point line, then a triangle
    assert_eq!(
        flatten_rings(&[MoveTo, MoveTo, LineTo, Close, MoveTo, LineTo, LineTo]),
        vec![(3, 3)]
    );
    assert_eq!(flatten_rings(&[]), vec![]);
}

#[test]
fn a_move_ends_the_ring_being_built() {
    // no close between the two subpaths: the move alone cuts them apart
    assert_eq!(
        flatten_rings(&[MoveTo, LineTo, LineTo, MoveTo, LineTo, LineTo, LineTo]),
        vec![(0, 3), (3, 4)]
    );
}

#[test]
fn points_after_a_close_start_a_new_ring() {
    // lines after a close, without a move, build a ring of their own
    assert_eq!(
        flatten_rings(&[MoveTo, LineTo, LineTo, Close, LineTo, LineTo, LineTo]),
        vec![(0, 3), (3, 3)]
    );
}

#[test]
fn viewbox_numbers_need_four_numbers() {
    assert_eq!(viewbox_numbers(&vec![Some(0), Some(0), Some(10), Some(20)]), Ok((0, 0, 10, 20)));
    assert_eq!(
        viewbox_numbers(&vec![Some(0), Some(0), Some(10)]),
        Err("viewBox must have 4 numbers".to_string())
    );
    assert_eq!(viewbox_numbers::<i32>(&vec![]), Err("viewBox must have 4 numbers".to_string()));
}

#[test]
fn a_non_numeric_field_is_reported_before_the_count() {
    assert_eq!(
        viewbox_numbers(&vec![Some(0.5), None, Some(1.0)]),
        Err("non-numeric viewBox".to_string())
    );
}
