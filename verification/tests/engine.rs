use sticker_packer::engine::{
    contour_spans, data_uri, image_kind, page_preset, parse_join_style, parse_method, pdf_of,
    ImageKind, Method,
};
use sticker_packer::geom::JoinStyle;

#[test]
fn join_styles_parse() {
    assert_eq!(parse_join_style("external"), Ok(JoinStyle::RoundExternal));
    assert_eq!(parse_join_style("all"), Ok(JoinStyle::RoundAll));
    assert_eq!(parse_join_style("sharp"), Ok(JoinStyle::SharpAll));
}

#[test]
fn unknown_join_style_is_refused() {
    assert_eq!(
        parse_join_style("Sharp"),
        Err("unknown outline style 'Sharp' (external|all|sharp)".to_string())
    );
    assert_eq!(parse_join_style(""), Err("unknown outline style '' (external|all|sharp)".to_string()));
}

#[test]
fn page_presets_in_tenths_of_mm() {
    assert_eq!(page_preset("a4"), Some((2100, 2970)));
    assert_eq!(page_preset("a3"), Some((2970, 4200)));
    assert_eq!(page_preset("a5"), Some((1480, 2100)));
    assert_eq!(page_preset("a6"), Some((1050, 1480)));
    assert_eq!(page_preset("letter"), Some((2159, 2794)));
    assert_eq!(page_preset("legal"), Some((2159, 3556)));
    assert_eq!(page_preset("tabloid"), Some((2794, 4318)));
    assert_eq!(page_preset("ledger"), Some((2794, 4318)));
}

#[test]
fn page_preset_ignores_case_and_space() {
    assert_eq!(page_preset("  A4\n"), Some((2100, 2970)));
    assert_eq!(page_preset("LeTTeR"), page_preset("letter"));
    assert_eq!(page_preset("\tTabloid "), page_preset("ledger"));
}

#[test]
fn unknown_page_preset_is_none() {
    assert_eq!(page_preset("a7"), None);
    assert_eq!(page_preset(""), None);
    assert_eq!(page_preset("a 4"), None);
}

#[test]
fn image_kinds_by_extension() {
    assert_eq!(image_kind(""), Ok(ImageKind::BorderArt));
    assert_eq!(image_kind("  "), Ok(ImageKind::BorderArt));
    assert_eq!(image_kind("."), Ok(ImageKind::BorderArt));
    assert_eq!(image_kind("svg"), Ok(ImageKind::Svg));
    assert_eq!(image_kind(" .SVG "), Ok(ImageKind::Svg));
    assert_eq!(image_kind("png"), Ok(ImageKind::Raster("image/png".to_string())));
    assert_eq!(image_kind(".PNG"), Ok(ImageKind::Raster("image/png".to_string())));
    assert_eq!(image_kind("jpg"), Ok(ImageKind::Raster("image/jpeg".to_string())));
    assert_eq!(image_kind("JPEG"), Ok(ImageKind::Raster("image/jpeg".to_string())));
    assert_eq!(image_kind("bmp"), Ok(ImageKind::Raster("image/bmp".to_string())));
    assert_eq!(image_kind("gif"), Ok(ImageKind::Raster("image/gif".to_string())));
    assert_eq!(image_kind("..webp"), Ok(ImageKind::Raster("image/webp".to_string())));
}

#[test]
fn unsupported_image_type_names_the_lowercased_extension() {
    assert_eq!(image_kind(" .TIFF"), Err("unsupported image type: .tiff".to_string()));
    assert_eq!(image_kind("pn g"), Err("unsupported image type: .pn g".to_string()));
}

#[test]
fn methods_parse() {
    assert_eq!(parse_method("greedy"), Ok(Method::Greedy));
    assert_eq!(parse_method("lattice"), Ok(Method::Lattice));
    assert_eq!(parse_method("both"), Ok(Method::Both));
    assert_eq!(parse_method("best"), Err("unknown method 'best' (both|greedy|lattice)".to_string()));
}

#[test]
fn contour_spans_split_points() {
    // a triangle (3 points), a 2-point stroke (skipped), a square (4 points)
    let lengths = [3u32, 2, 4];
    let n = 2 * (3 + 2 + 4);
    assert_eq!(contour_spans(&lengths, n), Ok(vec![(0, 3), (10, 4)]));
}

#[test]
fn contour_spans_stop_at_missing_points() {
    // the second contour claims more points than remain: reading stops there
    assert_eq!(contour_spans(&[3, 5, 3], 12), Ok(vec![(0, 3)]));
}

#[test]
fn contour_spans_need_a_contour() {
    let err = Err("need at least one silhouette contour".to_string());
    assert_eq!(contour_spans(&[], 10), err);
    assert_eq!(contour_spans(&[2, 1], 6), err);
    assert_eq!(contour_spans(&[3], 5), err);
}

#[test]
fn data_uri_is_standard_base64() {
    assert_eq!(data_uri("image/png", b"Man"), "data:image/png;base64,TWFu");
    assert_eq!(data_uri("image/png", b"Ma"), "data:image/png;base64,TWE=");
    assert_eq!(data_uri("image/gif", b"M"), "data:image/gif;base64,TQ==");
    assert_eq!(data_uri("image/bmp", b""), "data:image/bmp;base64,");
    assert_eq!(data_uri("x", &[0xfb, 0xff, 0xbf]), "data:x;base64,+/+/");
}

#[test]
fn pdf_of_reports_unparsable_svg() {
    let err = pdf_of("this is not svg").unwrap_err();
    assert!(err.starts_with("pdf parse: "), "{err}");
}

#[test]
fn pdf_of_makes_a_pdf() {
    let svg = "<svg xmlns=\"http://www.w3.org/2000/svg\" width=\"10\" height=\"10\" viewBox=\"0 0 10 10\"><rect width=\"5\" height=\"5\"/></svg>";
    let pdf = pdf_of(svg).unwrap();
    assert!(pdf.starts_with(b"%PDF"));
}
