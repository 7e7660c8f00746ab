// The content PDF tessellates one raster across many placements. svg2pdf expands every <use> into
// its own image XObject, so without dedup the raster is embedded once per sticker; these guard that
// identical image streams collapse back to a single shared object.
use sticker_packer::output::{dedupe_read, finish_pdf, svg_to_pdf};
use sticker_packer::pdfobj::PdfValue;

// A 4x4 opaque RGB PNG (no alpha -> no soft mask), embedded as a data URI.
const TINY_PNG_B64: &str = "iVBORw0KGgoAAAANSUhEUgAAAAQAAAAECAIAAAAmkwkpAAAAKUlEQVR4nA3HMQEAAAzCMIRVGGdFIXDLlyQSGxcTBIvjU6mt62cyOzcPp2MTQTYdST8AAAAASUVORK5CYII=";

fn count(haystack: &[u8], needle: &[u8]) -> usize {
    haystack.windows(needle.len()).filter(|w| *w == needle).count()
}

fn svg_with_images(n: usize) -> String {
    let imgs: String = (0..n)
        .map(|i| format!("<image x=\"{}\" y=\"0\" width=\"20\" height=\"20\" xlink:href=\"data:image/png;base64,{TINY_PNG_B64}\"/>", i * 25))
        .collect();
    format!(
        "<svg xmlns=\"http://www.w3.org/2000/svg\" xmlns:xlink=\"http://www.w3.org/1999/xlink\" width=\"500\" height=\"20\" viewBox=\"0 0 500 20\">{imgs}</svg>"
    )
}

#[test]
fn identical_rasters_collapse_to_one_image() {
    let pdf = svg_to_pdf(&svg_with_images(6)).expect("pdf");
    let images = count(&pdf, b"/Subtype/Image") + count(&pdf, b"/Subtype /Image");
    assert_eq!(images, 1, "6 identical rasters should share one image XObject, found {images}");
}

#[test]
fn dedup_shrinks_the_file() {
    // Ten copies must not cost ten images' worth of bytes.
    let one = svg_to_pdf(&svg_with_images(1)).unwrap().len();
    let ten = svg_to_pdf(&svg_with_images(10)).unwrap().len();
    assert!(ten < one * 3, "10 copies ({ten} B) ballooned vs 1 copy ({one} B) -- dedup not applied");
}

#[test]
fn unreadable_pdf_bytes_are_kept() {
    let junk = b"not a pdf at all".to_vec();
    assert_eq!(sticker_packer::output::dedupe_streams(junk.clone()), junk);
}

#[test]
fn unparsable_svg_is_a_parse_error() {
    let err = svg_to_pdf("<svg").unwrap_err();
    assert!(err.starts_with("pdf parse: "), "{err}");
}

#[test]
fn nothing_read_keeps_the_bytes() {
    let pdf = svg_to_pdf(&svg_with_images(1)).unwrap();
    assert_eq!(dedupe_read(pdf.clone(), None), pdf);
}

#[test]
fn unwritable_documents_keep_the_bytes() {
    // the model is written back into the document read from the bytes; junk cannot be read
    let junk = b"%PDF-1.7 nothing else".to_vec();
    let read = Some((vec![((1, 0), PdfValue::Integer(7))], vec![]));
    assert_eq!(dedupe_read(junk.clone(), read), junk);
}

#[test]
fn the_model_read_is_what_is_written_back() {
    let pdf = svg_to_pdf(&svg_with_images(1)).unwrap();
    // a model without objects: the file written back holds no image any more
    let out = dedupe_read(pdf.clone(), Some((vec![], vec![])));
    assert!(out.starts_with(b"%PDF"));
    assert_ne!(out, pdf);
    assert_eq!(count(&out, b"/Subtype/Image") + count(&out, b"/Subtype /Image"), 0);
}

#[test]
fn finishing_passes_errors_on_unchanged() {
    assert_eq!(finish_pdf(Err("pdf convert: boom".to_string())), Err("pdf convert: boom".to_string()));
}

#[test]
fn finishing_merges_the_streams_of_the_pdf() {
    let junk = b"not a pdf".to_vec();
    assert_eq!(finish_pdf(Ok(junk.clone())), Ok(junk));
    let six = svg_to_pdf(&svg_with_images(6)).unwrap();
    let finished = finish_pdf(Ok(six.clone())).unwrap();
    assert_eq!(count(&finished, b"/Subtype/Image") + count(&finished, b"/Subtype /Image"), 1);
}
