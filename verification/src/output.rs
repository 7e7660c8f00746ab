use vstd::prelude::*;
use crate::pdfobj::{dedupe_objects, deduped, dict_view, distinct_ids, objs_view, pdf_load, pdf_readable, pdf_rewritten, pdf_store, ObjId, PdfValue, PdfView};

verus! {

/// An error text of the SVG to PDF conversion: it begins `pdf parse: ` or `pdf convert: `.
pub open spec fn pdf_error(e: Seq<char>) -> bool {
    "pdf parse: "@.is_prefix_of(e) || "pdf convert: "@.is_prefix_of(e)
}

/// `pdf` is a PDF that svg2pdf makes of the SVG text `svg` at `dpi` dots per inch (with usvg's
/// default options and svg2pdf's default conversion options), the images that the SVG names by
/// path being as they are found on disk at the time.
pub uninterp spec fn svg_rendered(svg: Seq<char>, dpi: u16, pdf: Seq<u8>) -> bool;

/// `svg2pdf::usvg::Tree::from_str` then `svg2pdf::to_pdf`, at `dpi` dots per inch. Claimed: a
/// PDF returned is `svg_rendered` of the SVG text and the resolution, and an error text begins
/// `pdf parse: ` or `pdf convert: `. The PDF is not claimed to be a function of the SVG text:
/// with its default options usvg reads images that the SVG names by path from disk. Left
/// unsaid: svg2pdf unwraps a transformed bounding box and an image size; no condition on the
/// SVG text is known under which these fail, so no `requires` excludes such input.
#[verifier::external_body]
fn render_pdf(svg: &str, dpi: u16) -> (r: Result<Vec<u8>, String>)
    ensures
        r matches Ok(b) ==> svg_rendered(svg@, dpi, b@),
        r matches Err(e) ==> pdf_error(e@),
{
    let tree = svg2pdf::usvg::Tree::from_str(svg, &svg2pdf::usvg::Options::default())
        .map_err(|e| format!("pdf parse: {e}"))?;
    let page = svg2pdf::PageOptions { dpi: dpi.into() };
    svg2pdf::to_pdf(&tree, svg2pdf::ConversionOptions::default(), page).map_err(
        |e| format!("pdf convert: {e}"),
    )
}

/// A document as read into the model: its objects and trailer entries.
pub open spec fn read_view(read: Option<(Vec<(ObjId, PdfValue)>, Vec<(Vec<u8>, PdfValue)>)>) -> Option<
    (Seq<(ObjId, PdfView)>, Seq<(Seq<u8>, PdfView)>),
> {
    match read {
        Some(d) => Some((objs_view(d.0@), dict_view(d.1@))),
        None => None,
    }
}

/// `read` is what lopdf may read of `bytes`: something exactly when the file is readable, with
/// distinct object numbers.
pub open spec fn possible_read(bytes: Seq<u8>, read: Option<(Seq<(ObjId, PdfView)>, Seq<(Seq<u8>, PdfView)>)>) -> bool {
    &&& (read is Some <==> pdf_readable(bytes))
    &&& (read matches Some(d) ==> distinct_ids(d.0))
}

/// `x` is the file that deduplicating the streams of `bytes` gives, for some possible read.
pub open spec fn deduped_from(bytes: Seq<u8>, x: Seq<u8>) -> bool {
    exists|read: Option<(Seq<(ObjId, PdfView)>, Seq<(Seq<u8>, PdfView)>)>|
        possible_read(bytes, read) && x == #[trigger] deduped_file(bytes, read)
}

/// The PDF file `bytes` after stream deduplication, given what was read of it: the file
/// unchanged when nothing could be read, or when `lopdf` cannot write the result back.
pub open spec fn deduped_file(bytes: Seq<u8>, read: Option<(Seq<(ObjId, PdfView)>, Seq<(Seq<u8>, PdfView)>)>) -> Seq<u8> {
    match read {
        None => bytes,
        Some((objs, trailer)) => match pdf_rewritten(
            bytes,
            deduped(objs, trailer).0,
            deduped(objs, trailer).1,
        ) {
            Some(out) => out,
            None => bytes,
        },
    }
}

/// Deduplicates the streams of the document `bytes`, given its objects and trailer as read
/// (None when it could not be read), and writes it back; the bytes unchanged on any failure.
pub fn dedupe_read(bytes: Vec<u8>, read: Option<(Vec<(ObjId, PdfValue)>, Vec<(Vec<u8>, PdfValue)>)>) -> (r: Vec<u8>)
    ensures
        r@ == deduped_file(bytes@, read_view(read)),
{
    match read {
        None => bytes,
        Some((objs, trailer)) => {
            let (objs, trailer) = dedupe_objects(objs, trailer);
            match pdf_store(&bytes, &objs, &trailer) {
                Some(out) => out,
                None => bytes,
            }
        },
    }
}

/// Collapse duplicate stream objects (identical images / soft-masks that svg2pdf duplicated per
/// placement) into a single shared object and repoint every reference. Purely a size optimization:
/// merging value-identical objects cannot change what the PDF renders. On any parse/write failure
/// the original bytes are returned unchanged. The result is `deduped_file` of the bytes and of
/// what lopdf read of them: a model with distinct object numbers whenever the file is readable.
pub fn dedupe_streams(bytes: Vec<u8>) -> (r: Vec<u8>)
    ensures
        deduped_from(bytes@, r@),
{
    let ghost b = bytes@;
    let read = pdf_load(&bytes);
    let ghost rv = read_view(read);
    let r = dedupe_read(bytes, read);
    assert(possible_read(b, rv));
    r
}

/// What the SVG to PDF conversion gives once its PDF comes back: the PDF with duplicate streams
/// merged, or the conversion's error unchanged.
pub fn finish_pdf(rendered: Result<Vec<u8>, String>) -> (r: Result<Vec<u8>, String>)
    ensures
        match rendered {
            Ok(b) => r matches Ok(x) && deduped_from(b@, x@),
            Err(e) => r == Err::<Vec<u8>, String>(e),
        },
{
    match rendered {
        Ok(b) => Ok(dedupe_streams(b)),
        Err(e) => Err(e),
    }
}

/// Render an SVG string to a PDF (dpi=96 so mm -> pt yields exact physical A4), with duplicate
/// streams merged. An error text begins `pdf parse: ` or `pdf convert: `; a PDF is what
/// deduplicating the streams of a PDF that svg2pdf renders of this SVG at 96 dpi gives.
pub fn svg_to_pdf(svg: &str) -> (r: Result<Vec<u8>, String>)
    ensures
        r matches Err(e) ==> pdf_error(e@),
        r matches Ok(x) ==> exists|b: Seq<u8>| svg_rendered(svg@, 96, b) && #[trigger] deduped_from(b, x@),
{
    finish_pdf(render_pdf(svg, 96))
}

}
