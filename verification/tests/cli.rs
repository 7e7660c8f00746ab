use sticker_packer::cli::{output_base, output_paths, page_flag, path_extension};

#[test]
fn output_base_prefers_the_given_name() {
    assert_eq!(output_base(Some("sheet".to_string()), "art/border.svg"), "sheet");
}

#[test]
fn output_base_drops_the_last_extension_of_the_border() {
    assert_eq!(output_base(None, "art/border.svg"), "art/border");
    assert_eq!(output_base(None, "border.final.svg"), "border.final");
    assert_eq!(output_base(None, "border"), "border");
    // the last dot may sit in a directory name, as with any split at the last dot
    assert_eq!(output_base(None, "v1.2/border"), "v1");
}

#[test]
fn path_extension_is_what_follows_the_last_dot() {
    assert_eq!(path_extension("art/photo.PNG"), "PNG");
    assert_eq!(path_extension("a.tar.gz"), "gz");
    assert_eq!(path_extension("noext"), "");
    assert_eq!(path_extension("trailing."), "");
}

#[test]
fn output_paths_name_svgs_then_pdfs() {
    assert_eq!(
        output_paths("out/s", true),
        vec!["out/s_content.svg", "out/s_outline.svg", "out/s_content.pdf", "out/s_outline.pdf"]
    );
    assert_eq!(output_paths("s", false), vec!["s_content.svg", "s_outline.svg"]);
}

#[test]
fn page_flag_reads_presets_and_refuses_others() {
    assert_eq!(page_flag("a4"), Ok((2100, 2970)));
    assert_eq!(page_flag(" Letter "), Ok((2159, 2794)));
    assert_eq!(
        page_flag("b5"),
        Err("unknown --page 'b5' (a3|a4|a5|a6|letter|legal|tabloid)".to_string())
    );
}
