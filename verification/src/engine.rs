use vstd::prelude::*;
use crate::geom::JoinStyle;
use crate::svgio::res_view;
use crate::text::{chars_of, lower, lower_vec, skip_ws_back_exec, skip_ws_exec, spells, trimmed};

verus! {

/// The outline style named by `s`: `external`, `all` or `sharp`.
pub open spec fn join_style_named(s: Seq<char>) -> Option<JoinStyle> {
    if s == "external"@ {
        Some(JoinStyle::RoundExternal)
    } else if s == "all"@ {
        Some(JoinStyle::RoundAll)
    } else if s == "sharp"@ {
        Some(JoinStyle::SharpAll)
    } else {
        None
    }
}

pub fn parse_join_style(s: &str) -> (r: Result<JoinStyle, String>)
    ensures
        match join_style_named(s@) {
            Some(j) => r == Ok::<JoinStyle, String>(j),
            None => r matches Err(e) && e@ == "unknown outline style '"@ + s@
                + "' (external|all|sharp)"@,
        },
{
    let h = chars_of(s);
    if spells(&h, "external") {
        Ok(JoinStyle::RoundExternal)
    } else if spells(&h, "all") {
        Ok(JoinStyle::RoundAll)
    } else if spells(&h, "sharp") {
        Ok(JoinStyle::SharpAll)
    } else {
        Err(String::from_str("unknown outline style '").concat(s).concat("' (external|all|sharp)"))
    }
}

/// The page presets, portrait, in tenths of a millimetre (A4 = 2100 x 2970), by lower-case name.
pub open spec fn preset_named(key: Seq<char>) -> Option<(u32, u32)> {
    if key == "a3"@ {
        Some((2970u32, 4200u32))
    } else if key == "a4"@ {
        Some((2100u32, 2970u32))
    } else if key == "a5"@ {
        Some((1480u32, 2100u32))
    } else if key == "a6"@ {
        Some((1050u32, 1480u32))
    } else if key == "letter"@ {
        Some((2159u32, 2794u32))
    } else if key == "legal"@ {
        Some((2159u32, 3556u32))
    } else if key == "tabloid"@ || key == "ledger"@ {
        Some((2794u32, 4318u32))
    } else {
        None
    }
}

/// Common page presets (portrait), as (width, height) in tenths of a millimetre. The name is
/// matched ignoring surrounding white space and ASCII case. Returns None for unknown names.
pub fn page_preset(name: &str) -> (r: Option<(u32, u32)>)
    ensures
        r == preset_named(lower(trimmed(name@, 0, name@.len() as int))),
{
    let h = chars_of(name);
    let a = skip_ws_exec(&h, 0, h.len());
    let b = skip_ws_back_exec(&h, a, h.len());
    let key = lower_vec(&h, a, b);
    if spells(&key, "a3") {
        Some((2970, 4200))
    } else if spells(&key, "a4") {
        Some((2100, 2970))
    } else if spells(&key, "a5") {
        Some((1480, 2100))
    } else if spells(&key, "a6") {
        Some((1050, 1480))
    } else if spells(&key, "letter") {
        Some((2159, 2794))
    } else if spells(&key, "legal") {
        Some((2159, 3556))
    } else if spells(&key, "tabloid") || spells(&key, "ledger") {
        Some((2794, 4318))
    } else {
        None
    }
}

}

verus! {

/// What the artwork of a sticker is, by the image's file extension.
#[derive(PartialEq, Eq, Debug)]
pub enum ImageKind {
    /// No separate image: the border itself is the art.
    BorderArt,
    /// An SVG image, inlined (it must share the border's viewBox).
    Svg,
    /// A raster image of the given MIME type, covering the whole artboard.
    Raster(String),
}

/// The MIME type that a result names, if it is a raster.
pub open spec fn raster_of(r: Result<ImageKind, String>) -> Option<Seq<char>> {
    match r {
        Ok(ImageKind::Raster(m)) => Some(m@),
        _ => None,
    }
}

/// First index in `[lo, hi)` whose character is not `.`, or `hi`.
pub open spec fn skip_dots(s: Seq<char>, lo: int, hi: int) -> int
    decreases hi - lo,
{
    if lo >= hi {
        hi
    } else if s[lo] == '.' {
        skip_dots(s, lo + 1, hi)
    } else {
        lo
    }
}

/// The extension as it is matched: white space trimmed, leading dots removed, ASCII lower case.
pub open spec fn ext_key(e: Seq<char>) -> Seq<char> {
    let a = crate::text::skip_ws(e, 0, e.len() as int);
    let b = crate::text::skip_ws_back(e, a, e.len() as int);
    lower(e.subrange(skip_dots(e, a, b), b))
}

/// The MIME type of a supported raster extension.
pub open spec fn raster_mime(key: Seq<char>) -> Option<Seq<char>> {
    if key == "png"@ {
        Some("image/png"@)
    } else if key == "jpg"@ || key == "jpeg"@ {
        Some("image/jpeg"@)
    } else if key == "bmp"@ {
        Some("image/bmp"@)
    } else if key == "gif"@ {
        Some("image/gif"@)
    } else if key == "webp"@ {
        Some("image/webp"@)
    } else {
        None
    }
}

fn skip_dots_exec(s: &Vec<char>, lo: usize, hi: usize) -> (r: usize)
    requires
        lo <= hi <= s.len(),
    ensures
        r == skip_dots(s@, lo as int, hi as int),
        lo <= r <= hi,
    decreases hi - lo,
{
    if lo >= hi {
        hi
    } else if s[lo] == '.' {
        skip_dots_exec(s, lo + 1, hi)
    } else {
        lo
    }
}

/// The kind of artwork an image file extension names (`""` = the border is the art; `svg`;
/// `png`, `jpg`/`jpeg`, `bmp`, `gif`, `webp` rasters), or the error for any other extension.
pub fn image_kind(image_ext: &str) -> (r: Result<ImageKind, String>)
    ensures
        ext_key(image_ext@) == Seq::<char>::empty() ==> r == Ok::<ImageKind, String>(ImageKind::BorderArt),
        ext_key(image_ext@) == "svg"@ ==> r == Ok::<ImageKind, String>(ImageKind::Svg),
        raster_mime(ext_key(image_ext@)) is Some ==> raster_of(r) == raster_mime(ext_key(image_ext@)),
        ext_key(image_ext@) != Seq::<char>::empty() && ext_key(image_ext@) != "svg"@
            && raster_mime(ext_key(image_ext@)) is None ==> (r matches Err(e) && e@
            == "unsupported image type: ."@ + ext_key(image_ext@)),
{
    let h = chars_of(image_ext);
    let a = skip_ws_exec(&h, 0, h.len());
    let b = skip_ws_back_exec(&h, a, h.len());
    let d = skip_dots_exec(&h, a, b);
    let key = lower_vec(&h, d, b);
    proof {
        reveal_strlit("svg");
        reveal_strlit("png");
        reveal_strlit("jpg");
        reveal_strlit("jpeg");
        reveal_strlit("bmp");
        reveal_strlit("gif");
        reveal_strlit("webp");
    }
    if key.len() == 0 {
        proof {
            assert(key@ =~= Seq::<char>::empty());
        }
        Ok(ImageKind::BorderArt)
    } else if spells(&key, "svg") {
        proof {
            assert(key@[0] == 's' && "png"@[0] == 'p' && "jpg"@[0] == 'j' && "bmp"@[0] == 'b'
                && "gif"@[0] == 'g');
        }
        Ok(ImageKind::Svg)
    } else if spells(&key, "png") {
        Ok(ImageKind::Raster(String::from_str("image/png")))
    } else if spells(&key, "jpg") || spells(&key, "jpeg") {
        Ok(ImageKind::Raster(String::from_str("image/jpeg")))
    } else if spells(&key, "bmp") {
        Ok(ImageKind::Raster(String::from_str("image/bmp")))
    } else if spells(&key, "gif") {
        Ok(ImageKind::Raster(String::from_str("image/gif")))
    } else if spells(&key, "webp") {
        Ok(ImageKind::Raster(String::from_str("image/webp")))
    } else {
        let other = crate::text::ascii_lowercase(crate::text::sub_string(image_ext, d, b).as_str());
        Err(String::from_str("unsupported image type: .").concat(other.as_str()))
    }
}

/// The packing method: `greedy`, `lattice`, or `both` (the better of the two).
#[derive(Clone, Copy, PartialEq, Eq, Structural, Debug)]
pub enum Method {
    Greedy,
    Lattice,
    Both,
}

pub open spec fn method_named(s: Seq<char>) -> Option<Method> {
    if s == "greedy"@ {
        Some(Method::Greedy)
    } else if s == "lattice"@ {
        Some(Method::Lattice)
    } else if s == "both"@ {
        Some(Method::Both)
    } else {
        None
    }
}

/// The packing method that `s` names, or the error for any other name.
pub fn parse_method(s: &str) -> (r: Result<Method, String>)
    ensures
        match method_named(s@) {
            Some(m) => r == Ok::<Method, String>(m),
            None => r matches Err(e) && e@ == "unknown method '"@ + s@ + "' (both|greedy|lattice)"@,
        },
{
    let h = chars_of(s);
    if spells(&h, "greedy") {
        Ok(Method::Greedy)
    } else if spells(&h, "lattice") {
        Ok(Method::Lattice)
    } else if spells(&h, "both") {
        Ok(Method::Both)
    } else {
        Err(String::from_str("unknown method '").concat(s).concat("' (both|greedy|lattice)"))
    }
}

}

verus! {

/// The silhouette contours of flattened `x,y` point data: contour `k` takes the next
/// `2 * lengths[k]` numbers; reading stops at the first contour that would run past the `n`
/// numbers there are, and contours of fewer than 3 points are skipped. Each span is
/// (index of its first number, its point count).
pub open spec fn spans_from(lengths: Seq<u32>, n: int, k: int, idx: int) -> Seq<(int, int)>
    decreases lengths.len() - k,
{
    if k < 0 || k >= lengths.len() || idx + 2 * lengths[k] > n {
        seq![]
    } else if lengths[k] >= 3 {
        seq![(idx, lengths[k] as int)] + spans_from(lengths, n, k + 1, idx + 2 * lengths[k])
    } else {
        spans_from(lengths, n, k + 1, idx + 2 * lengths[k])
    }
}

pub open spec fn spans_view(v: Seq<(usize, usize)>) -> Seq<(int, int)> {
    v.map_values(|p: (usize, usize)| (p.0 as int, p.1 as int))
}

/// The points of the first `k` contours, all told.
pub open spec fn points_before(lengths: Seq<u32>, k: int) -> int
    decreases k,
{
    if k <= 0 {
        0
    } else {
        points_before(lengths, k - 1) + lengths[k - 1]
    }
}

proof fn lemma_points_before_grows(lengths: Seq<u32>, j: int, k: int)
    requires
        0 <= j <= k,
    ensures
        points_before(lengths, j) <= points_before(lengths, k),
    decreases k - j,
{
    if j < k {
        lemma_points_before_grows(lengths, j, k - 1);
    }
}

proof fn lemma_contour_kept_from(lengths: Seq<u32>, n: int, j: int, k: int)
    requires
        0 <= j <= k < lengths.len(),
        2 * points_before(lengths, k + 1) <= n,
        lengths[k] >= 3,
    ensures
        spans_from(lengths, n, j, 2 * points_before(lengths, j)).contains(
            (2 * points_before(lengths, k), lengths[k] as int),
        ),
    decreases k - j,
{
    let idx = 2 * points_before(lengths, j);
    lemma_points_before_grows(lengths, j + 1, k + 1);
    assert(idx + 2 * lengths[j] == 2 * points_before(lengths, j + 1));
    let here = spans_from(lengths, n, j, idx);
    if j == k {
        assert(here[0] == (idx, lengths[k] as int));
    } else {
        lemma_contour_kept_from(lengths, n, j + 1, k);
        let rest = spans_from(lengths, n, j + 1, idx + 2 * lengths[j]);
        let x = (2 * points_before(lengths, k), lengths[k] as int);
        let t = choose|t: int| 0 <= t < rest.len() && rest[t] == x;
        if lengths[j] >= 3 {
            assert(here == seq![(idx, lengths[j] as int)] + rest);
            assert(here[t + 1] == x);
        } else {
            assert(here[t] == x);
        }
    }
}

/// Every contour that fits in the numbers there are, with all the contours before it, and has
/// at least 3 points gives a span: its first number is twice the points before it, and its
/// point count is its length.
pub proof fn lemma_every_fitting_contour_is_kept(lengths: Seq<u32>, n: int, k: int)
    requires
        0 <= k < lengths.len(),
        2 * points_before(lengths, k + 1) <= n,
        lengths[k] >= 3,
    ensures
        spans_from(lengths, n, 0, 0).contains((2 * points_before(lengths, k), lengths[k] as int)),
{
    lemma_contour_kept_from(lengths, n, 0, k);
}

/// Splits flattened silhouette point data (`n_points` numbers, `x,y` pairs) into contours of
/// `lengths[k]` points each, as (first number, point count) spans; errors when no contour of at
/// least 3 points is there.
pub fn contour_spans(lengths: &[u32], n_points: usize) -> (r: Result<Vec<(usize, usize)>, String>)
    ensures
        spans_from(lengths@, n_points as int, 0, 0).len() == 0 ==> (r matches Err(e) && e@
            == "need at least one silhouette contour"@),
        spans_from(lengths@, n_points as int, 0, 0).len() > 0 ==> (r matches Ok(v) && spans_view(v@)
            == spans_from(lengths@, n_points as int, 0, 0)),
        r matches Ok(v) ==> forall|j: int|
            0 <= j < v@.len() ==> 3 <= (#[trigger] v@[j]).1 && v@[j].0 + 2 * v@[j].1 <= n_points,
{
    let mut out: Vec<(usize, usize)> = Vec::new();
    let mut idx: usize = 0;
    let mut k: usize = 0;
    let ghost all = spans_from(lengths@, n_points as int, 0, 0);
    proof {
        assert(spans_view(out@) =~= seq![]);
        assert(all =~= spans_view(out@) + spans_from(lengths@, n_points as int, 0, 0));
    }
    while k < lengths.len()
        invariant
            idx <= n_points,
            k <= lengths.len(),
            all == spans_from(lengths@, n_points as int, 0, 0),
            all == spans_view(out@) + spans_from(lengths@, n_points as int, k as int, idx as int),
            forall|j: int|
                0 <= j < out.len() ==> 3 <= (#[trigger] out@[j]).1 && out@[j].0 + 2 * out@[j].1 <= n_points,
        ensures
            all == spans_view(out@),
        decreases lengths.len() - k,
    {
        let l = lengths[k];
        if (l as u64) * 2 > (n_points - idx) as u64 {
            proof {
                assert(all =~= spans_view(out@));
            }
            break;
        }
        let l2: usize = (l as usize) * 2;
        let ghost rest = spans_from(lengths@, n_points as int, k + 1, idx + l2);
        assert(spans_from(lengths@, n_points as int, k as int, idx as int) == if l >= 3 {
            seq![(idx as int, l as int)] + rest
        } else {
            rest
        });
        if l >= 3 {
            let ghost before = out@;
            out.push((idx, l as usize));
            proof {
                assert(spans_view(out@) =~= spans_view(before) + seq![(idx as int, l as int)]);
            }
        }
        idx = idx + l2;
        k += 1;
        proof {
            assert(all =~= spans_view(out@) + rest);
            if k >= lengths.len() {
                assert(rest =~= seq![]);
                assert(all =~= spans_view(out@));
            }
        }
    }
    if out.len() == 0 {
        Err(String::from_str("need at least one silhouette contour"))
    } else {
        Ok(out)
    }
}

/// The four outputs of a pack: how many stickers were placed, the content and outline sheets as
/// SVG, and each as PDF (empty when PDF output was not asked for).
pub struct Outputs {
    pub count: usize,
    pub content_svg: String,
    pub outline_svg: String,
    pub content_pdf: Vec<u8>,
    pub outline_pdf: Vec<u8>,
}

}

verus! {

/// The PDF of a sheet's SVG (see `svg_to_pdf`).
pub fn pdf_of(svg: &str) -> (r: Result<Vec<u8>, String>)
    ensures
        r matches Err(e) ==> crate::output::pdf_error(e@),
        r matches Ok(x) ==> exists|b: Seq<u8>|
            crate::output::svg_rendered(svg@, 96, b) && #[trigger] crate::output::deduped_from(b, x@),
{
    crate::output::svg_to_pdf(svg)
}

}

verus! {

/// The base64 alphabet of RFC 4648 (`A-Z`, `a-z`, `0-9`, `+`, `/`).
pub open spec fn b64_char(x: int) -> char {
    if x < 26 {
        ('A' as int + x) as char
    } else if x < 52 {
        ('a' as int + (x - 26)) as char
    } else if x < 62 {
        ('0' as int + (x - 52)) as char
    } else if x == 62 {
        '+'
    } else {
        '/'
    }
}

/// Standard base64 with `=` padding (RFC 4648): each 3 bytes become 4 characters of 6 bits
/// each, a last group of 1 or 2 bytes is padded.
pub open spec fn b64(s: Seq<u8>) -> Seq<char>
    decreases s.len(),
{
    if s.len() == 0 {
        seq![]
    } else if s.len() == 1 {
        let a = s[0] as int;
        seq![b64_char(a / 4), b64_char((a % 4) * 16), '=', '=']
    } else if s.len() == 2 {
        let (a, b) = (s[0] as int, s[1] as int);
        seq![b64_char(a / 4), b64_char((a % 4) * 16 + b / 16), b64_char((b % 16) * 4), '=']
    } else {
        let (a, b, c) = (s[0] as int, s[1] as int, s[2] as int);
        seq![
            b64_char(a / 4),
            b64_char((a % 4) * 16 + b / 16),
            b64_char((b % 16) * 4 + c / 64),
            b64_char(c % 64),
        ] + b64(s.subrange(3, s.len() as int))
    }
}

/// `base64::engine::general_purpose::STANDARD.encode`: the standard alphabet with padding, as
/// RFC 4648 defines it (claimed: the result is `b64` of the bytes).
#[verifier::external_body]
fn base64_standard(bytes: &[u8]) -> (r: String)
    ensures
        r@ == b64(bytes@),
{
    base64::Engine::encode(&base64::engine::general_purpose::STANDARD, bytes)
}

/// The `data:` URI that embeds an image of the given MIME type.
pub fn data_uri(mime: &str, bytes: &[u8]) -> (r: String)
    ensures
        r@ == "data:"@ + mime@ + ";base64,"@ + b64(bytes@),
{
    let encoded = base64_standard(bytes);
    String::from_str("data:").concat(mime).concat(";base64,").concat(encoded.as_str())
}

}

verus! {

/// A page preset name is matched whatever the ASCII case of its letters.
pub proof fn lemma_page_preset_ignores_case(name: Seq<char>)
    ensures
        preset_named(lower(trimmed(lower(name), 0, lower(name).len() as int))) == preset_named(
            lower(trimmed(name, 0, name.len() as int)),
        ),
{
    crate::text::lemma_lower_trimmed_ignores_case(name);
}

}

verus! {

proof fn lemma_skip_dots_lower(s: Seq<char>, lo: int, hi: int)
    requires
        0 <= lo,
        hi <= s.len(),
    ensures
        skip_dots(lower(s), lo, hi) == skip_dots(s, lo, hi),
        lo <= hi ==> lo <= skip_dots(s, lo, hi) <= hi,
    decreases hi - lo,
{
    if lo < hi {
        lemma_skip_dots_lower(s, lo + 1, hi);
    }
}

/// An image extension is matched whatever the ASCII case of its letters (`.PNG` is `.png`).
pub proof fn lemma_image_kind_ignores_case(e: Seq<char>)
    ensures
        ext_key(lower(e)) == ext_key(e),
{
    let n = e.len() as int;
    crate::text::lemma_skip_ws_lower(e, 0, n);
    crate::text::lemma_skip_ws_lower_bounds(e, 0, n);
    let a = crate::text::skip_ws(e, 0, n);
    crate::text::lemma_skip_ws_back_lower(e, a, n);
    crate::text::lemma_skip_ws_back_bounds(e, a, n);
    let b = crate::text::skip_ws_back(e, a, n);
    lemma_skip_dots_lower(e, a, b);
    assert(ext_key(lower(e)) =~= ext_key(e));
}

}
