use vstd::prelude::*;
use crate::text::{is_white, is_ws, occurs_at, chars_of, slice_vec, skip_ws, find_char, find_ci, find_from, lower, rfind, rfind_ci, skip_ws_back_exec, skip_ws_exec, sub_string, trimmed};

verus! {

/// The view of a text result.
pub open spec fn res_view(r: Result<String, String>) -> Result<Seq<char>, Seq<char>> {
    match r {
        Ok(s) => Ok(s@),
        Err(e) => Err(e@),
    }
}

/// Where the inner markup of an SVG lies: the root `<svg` tag (found case-insensitively), the
/// first `>` after it, and the last `</svg>` (case-insensitively).
pub open spec fn inner_bounds(s: Seq<char>) -> Result<(int, int), Seq<char>> {
    let l = lower(s);
    match find_from(l, "<svg"@, 0) {
        None => Err("no <svg>"@),
        Some(start) => match find_from(s, seq!['>'], start) {
            None => Err("malformed <svg>"@),
            Some(gt) => match rfind(l, "</svg>"@) {
                None => Err("no </svg>"@),
                Some(close) => Ok((gt + 1, close)),
            },
        },
    }
}

/// The inner markup of an SVG: everything between the root `<svg ...>` and the last `</svg>`,
/// with surrounding white space removed.
pub open spec fn inner_svg(s: Seq<char>) -> Result<Seq<char>, Seq<char>> {
    match inner_bounds(s) {
        Ok((a, b)) => Ok(trimmed(s, a, b)),
        Err(e) => Err(e),
    }
}

/// Where the inner markup of an SVG lies (see `inner_bounds`), as character positions: one past
/// the `>` closing the root tag, and the start of the last `</svg>`.
pub fn inner_svg_bounds(s: &str) -> (r: Result<(usize, usize), String>)
    ensures
        match inner_bounds(s@) {
            Ok((a, b)) => r matches Ok(p) && p.0 == a && p.1 == b,
            Err(e) => r matches Err(x) && x@ == e,
        },
        r matches Ok(p) ==> p.0 <= s@.len() && p.1 <= s@.len(),
{
    let h = chars_of(s);
    let open_tag = chars_of("<svg");
    let close_tag = chars_of("</svg>");
    proof {
        reveal_strlit("<svg");
        reveal_strlit("</svg>");
    }
    let start = match find_ci(&h, &open_tag, 0) {
        Some(i) => i,
        None => return Err(String::from_str("no <svg>")),
    };
    let gt = match find_char(&h, '>', start) {
        Some(i) => i,
        None => return Err(String::from_str("malformed <svg>")),
    };
    let close = match rfind_ci(&h, &close_tag) {
        Some(i) => i,
        None => return Err(String::from_str("no </svg>")),
    };
    Ok((gt + 1, close))
}

/// The raw inner markup of an SVG (everything between the root `<svg ...>` and `</svg>`), in
/// viewBox user-units. Inlined verbatim into an output group so all artwork fidelity
/// (gradients, clips, rasters) is preserved.
pub fn load_inner_svg_str(s: &str) -> (r: Result<String, String>)
    requires
        inner_bounds(s@) matches Ok((a, b)) ==> a <= b,
    ensures
        res_view(r) == inner_svg(s@),
{
    let (open_end, close) = inner_svg_bounds(s)?;
    let h = chars_of(s);
    let a = skip_ws_exec(&h, open_end, close);
    let b = skip_ws_back_exec(&h, a, close);
    Ok(sub_string(s, a, b))
}

}

verus! {

/// A separator between the numbers of a `viewBox`.
pub open spec fn is_sep(c: char) -> bool {
    is_ws(c) || c == ','
}

/// Splitting `s[i..]` at separators, dropping empty pieces, given the piece `cur` in progress
/// and the pieces `acc` already complete.
pub open spec fn split_fields(s: Seq<char>, i: int, cur: Seq<char>, acc: Seq<Seq<char>>) -> Seq<
    Seq<char>,
>
    decreases s.len() - i,
{
    if i < 0 || i >= s.len() {
        if cur.len() > 0 {
            acc.push(cur)
        } else {
            acc
        }
    } else if is_sep(s[i]) {
        split_fields(s, i + 1, seq![], if cur.len() > 0 { acc.push(cur) } else { acc })
    } else {
        split_fields(s, i + 1, cur.push(s[i]), acc)
    }
}

/// The non-empty pieces of `s` between separators, in order.
pub open spec fn fields(s: Seq<char>) -> Seq<Seq<char>> {
    split_fields(s, 0, seq![], seq![])
}

pub open spec fn strings_view(v: Seq<String>) -> Seq<Seq<char>> {
    v.map_values(|x: String| x@)
}

/// The number texts of the `viewBox="minx miny w h"` attribute of an SVG's root element, or
/// why it cannot be read.
pub open spec fn viewbox_text(s: Seq<char>) -> Result<Seq<Seq<char>>, Seq<char>> {
    match find_from(lower(s), "<svg"@, 0) {
        None => Err("no <svg> element"@),
        Some(start) => match find_from(s, seq!['>'], start) {
            None => Err("malformed <svg>"@),
            Some(end) => {
                let tag = s.subrange(start, end);
                match find_from(lower(tag), "viewbox"@, 0) {
                    None => Err("SVG has no viewBox attribute (both SVGs need one to align)"@),
                    Some(vb) => match find_from(tag, seq!['='], vb) {
                        None => Err("malformed viewBox"@),
                        Some(eq) => {
                            let q = skip_ws(tag, eq + 1, tag.len() as int);
                            if q >= tag.len() || !(tag[q] == '"' || tag[q] == '\'') {
                                Err("malformed viewBox"@)
                            } else {
                                match find_from(tag, seq![tag[q]], q + 1) {
                                    None => Err("unterminated viewBox"@),
                                    Some(close) => Ok(fields(tag.subrange(q + 1, close))),
                                }
                            }
                        },
                    },
                }
            },
        },
    }
}

/// Splits `s[lo..hi]` (character positions) into its non-empty separator-delimited pieces.
fn split_range(s: &str, h: &Vec<char>, lo: usize, hi: usize) -> (r: Vec<String>)
    requires
        h@ == s@,
        lo <= hi <= h.len(),
    ensures
        strings_view(r@) == fields(s@.subrange(lo as int, hi as int)),
{
    let ghost t = s@.subrange(lo as int, hi as int);
    let mut acc: Vec<String> = Vec::new();
    let mut cs: usize = lo;
    let mut i: usize = lo;
    proof {
        assert(s@.subrange(cs as int, i as int) =~= seq![]);
        assert(strings_view(acc@) =~= seq![]);
    }
    while i < hi
        invariant
            h@ == s@,
            lo <= cs <= i <= hi <= h.len(),
            t == s@.subrange(lo as int, hi as int),
            fields(t) == split_fields(
                t,
                i - lo,
                s@.subrange(cs as int, i as int),
                strings_view(acc@),
            ),
        decreases hi - i,
    {
        let ghost cur = s@.subrange(cs as int, i as int);
        proof {
            assert(t[i - lo] == h@[i as int]);
        }
        if is_white(h[i]) || h[i] == ',' {
            if cs < i {
                let ghost before = acc@;
                let piece = sub_string(s, cs, i);
                acc.push(piece);
                proof {
                    assert(strings_view(acc@) =~= strings_view(before).push(cur));
                }
            }
            i += 1;
            cs = i;
            proof {
                assert(s@.subrange(cs as int, i as int) =~= seq![]);
            }
        } else {
            i += 1;
            proof {
                assert(s@.subrange(cs as int, i as int) =~= cur.push(h@[i - 1]));
            }
        }
    }
    if cs < i {
        let ghost cur = s@.subrange(cs as int, i as int);
        let ghost before = acc@;
        let piece = sub_string(s, cs, i);
        acc.push(piece);
        proof {
            assert(strings_view(acc@) =~= strings_view(before).push(cur));
        }
    }
    acc
}

}

verus! {

pub open spec fn fields_res_view(r: Result<Vec<String>, String>) -> Result<Seq<Seq<char>>, Seq<char>> {
    match r {
        Ok(v) => Ok(strings_view(v@)),
        Err(e) => Err(e@),
    }
}

/// The number texts of the `viewBox="minx miny w h"` attribute of an SVG's root element (the
/// shared coordinate frame), read straight from the XML: the `<svg` tag is found ignoring
/// ASCII case, the attribute name too, and its quoted value is split at white space and commas.
pub fn viewbox_fields(s: &str) -> (r: Result<Vec<String>, String>)
    ensures
        fields_res_view(r) == viewbox_text(s@),
{
    let h = chars_of(s);
    let open_tag = chars_of("<svg");
    let attr = chars_of("viewbox");
    proof {
        reveal_strlit("<svg");
        reveal_strlit("viewbox");
    }
    let start = match find_ci(&h, &open_tag, 0) {
        Some(i) => i,
        None => return Err(String::from_str("no <svg> element")),
    };
    let end = match find_char(&h, '>', start) {
        Some(i) => i,
        None => return Err(String::from_str("malformed <svg>")),
    };
    let tag = slice_vec(&h, start, end);
    let vb = match find_ci(&tag, &attr, 0) {
        Some(i) => i,
        None => return Err(String::from_str("SVG has no viewBox attribute (both SVGs need one to align)")),
    };
    let eq = match find_char(&tag, '=', vb) {
        Some(i) => i,
        None => return Err(String::from_str("malformed viewBox")),
    };
    let q = skip_ws_exec(&tag, eq + 1, tag.len());
    if q >= tag.len() || !(tag[q] == '"' || tag[q] == '\'') {
        return Err(String::from_str("malformed viewBox"));
    }
    let close = match find_char(&tag, tag[q], q + 1) {
        Some(i) => i,
        None => return Err(String::from_str("unterminated viewBox")),
    };
    proof {
        assert(s@.subrange(start + q + 1, start + close) =~= tag@.subrange(q + 1, close as int));
    }
    Ok(split_range(s, &h, start + q + 1, start + close))
}

}

verus! {

/// The kind of one path segment, as far as cutting a path into rings goes.
#[derive(Clone, Copy, PartialEq, Eq, Structural, Debug)]
pub enum SegKind {
    MoveTo,
    LineTo,
    QuadTo,
    CubicTo,
    Close,
}

/// Points a curve segment is flattened into.
pub const CURVE_STEPS: usize = 16;

/// Points a segment adds to the ring being built.
pub open spec fn seg_points(k: SegKind) -> int {
    match k {
        SegKind::MoveTo | SegKind::LineTo => 1,
        SegKind::QuadTo | SegKind::CubicTo => CURVE_STEPS as int,
        SegKind::Close => 0,
    }
}

/// Points the segments from `i` on add, all told.
pub open spec fn points_from(kinds: Seq<SegKind>, i: int) -> int
    decreases kinds.len() - i,
{
    if i < 0 || i >= kinds.len() {
        0
    } else {
        seg_points(kinds[i]) + points_from(kinds, i + 1)
    }
}

/// A finished ring is kept when it has three points or more.
pub open spec fn kept(start: int, len: int) -> Seq<(int, int)> {
    if len >= 3 {
        seq![(start, len)]
    } else {
        Seq::empty()
    }
}

/// The rings, as (first point, number of points) in the stream of the segments' points, that
/// the segments from `i` on finish, the ring being built starting at point `start` with `len`
/// points so far. A move starts a new ring and a close ends one; the end of the path ends the last.
pub open spec fn ring_spans(kinds: Seq<SegKind>, i: int, start: int, len: int) -> Seq<(int, int)>
    decreases kinds.len() - i,
{
    if i < 0 || i >= kinds.len() {
        kept(start, len)
    } else {
        match kinds[i] {
            SegKind::MoveTo => kept(start, len) + ring_spans(kinds, i + 1, start + len, 1),
            SegKind::Close => kept(start, len) + ring_spans(kinds, i + 1, start + len, 0),
            _ => ring_spans(kinds, i + 1, start, len + seg_points(kinds[i])),
        }
    }
}

pub open spec fn spans_int(v: Seq<(usize, usize)>) -> Seq<(int, int)> {
    v.map_values(|p: (usize, usize)| (p.0 as int, p.1 as int))
}

proof fn lemma_points_from_nonneg(kinds: Seq<SegKind>, i: int)
    ensures
        points_from(kinds, i) >= 0,
    decreases kinds.len() - i,
{
    if 0 <= i < kinds.len() {
        lemma_points_from_nonneg(kinds, i + 1);
    }
}

/// Every ring has three points or more, lies within the stream, and comes after the one before.
pub proof fn lemma_ring_spans_shape(kinds: Seq<SegKind>, i: int, start: int, len: int)
    requires
        0 <= i <= kinds.len(),
        0 <= start,
        0 <= len,
    ensures
        forall|k: int|
            0 <= k < ring_spans(kinds, i, start, len).len() ==> {
                let s = #[trigger] ring_spans(kinds, i, start, len)[k];
                &&& s.1 >= 3
                &&& start <= s.0
                &&& s.0 + s.1 <= start + len + points_from(kinds, i)
            },
        forall|k: int|
            0 <= k < ring_spans(kinds, i, start, len).len() - 1 ==> ring_spans(kinds, i, start, len)[k].0
                + ring_spans(kinds, i, start, len)[k].1 <= #[trigger] ring_spans(kinds, i, start, len)[k
                + 1].0,
    decreases kinds.len() - i,
{
    let s = ring_spans(kinds, i, start, len);
    if i < kinds.len() {
        let k0 = kinds[i];
        if k0 == SegKind::MoveTo || k0 == SegKind::Close {
            let p: int = if k0 == SegKind::MoveTo { 1 } else { 0 };
            let kp = kept(start, len);
            let rest = ring_spans(kinds, i + 1, start + len, p);
            lemma_ring_spans_shape(kinds, i + 1, start + len, p);
            lemma_points_from_nonneg(kinds, i + 1);
            assert(points_from(kinds, i) == p + points_from(kinds, i + 1));
            assert(s == kp + rest);
            assert forall|k: int| 0 <= k < s.len() implies {
                let t = #[trigger] s[k];
                &&& t.1 >= 3
                &&& start <= t.0
                &&& t.0 + t.1 <= start + len + points_from(kinds, i)
            } by {
                if k >= kp.len() {
                    assert(s[k] == rest[k - kp.len()]);
                } else {
                    assert(s[k] == (start, len));
                }
            }
            assert forall|k: int| 0 <= k < s.len() - 1 implies s[k].0 + s[k].1 <= #[trigger] s[k + 1].0 by {
                if k >= kp.len() {
                    let m = k - kp.len();
                    assert(s[k] == rest[m]);
                    assert(s[k + 1] == rest[m + 1]);
                    assert(rest[m].0 + rest[m].1 <= rest[m + 1].0);
                } else {
                    assert(s[k] == (start, len));
                    assert(s[k + 1] == rest[0]);
                    assert(start + len <= rest[0].0);
                }
            }
        } else {
            lemma_ring_spans_shape(kinds, i + 1, start, len + seg_points(k0));
            assert(s == ring_spans(kinds, i + 1, start, len + seg_points(k0)));
        }
    }
}

/// The points that segments `a..b` add, all told.
pub open spec fn points_between(kinds: Seq<SegKind>, a: int, b: int) -> int
    decreases b - a,
{
    if b <= a {
        0
    } else {
        points_between(kinds, a, b - 1) + seg_points(kinds[b - 1])
    }
}

/// A ring may start at segment `i`: the path's start, a move, or the segment after a close.
pub open spec fn ring_starts(kinds: Seq<SegKind>, i: int) -> bool {
    i == 0 || kinds[i] == SegKind::MoveTo || kinds[i - 1] == SegKind::Close
}

/// A ring ends before segment `j`: the path's end, a move or a close.
pub open spec fn ring_ends(kinds: Seq<SegKind>, j: int) -> bool {
    j == kinds.len() || kinds[j] == SegKind::MoveTo || kinds[j] == SegKind::Close
}

/// Segments `i..j` hold no move but at `i`, and no close.
pub open spec fn uncut(kinds: Seq<SegKind>, i: int, j: int) -> bool {
    &&& forall|t: int| i < t < j ==> #[trigger] kinds[t] != SegKind::MoveTo
    &&& forall|t: int| i <= t < j ==> #[trigger] kinds[t] != SegKind::Close
}

proof fn lemma_points_between_split(kinds: Seq<SegKind>, a: int, b: int, c: int)
    requires
        a <= b <= c,
    ensures
        points_between(kinds, a, b) + points_between(kinds, b, c) == points_between(kinds, a, c),
    decreases c - b,
{
    if b < c {
        lemma_points_between_split(kinds, a, b, c - 1);
    }
}

proof fn lemma_ring_spans_keeps(kinds: Seq<SegKind>, q: int, i0: int, i: int, j: int)
    requires
        0 <= i0 <= q <= kinds.len(),
        ring_starts(kinds, i0),
        uncut(kinds, i0, q),
        i0 <= i <= j <= kinds.len(),
        q <= j,
        ring_starts(kinds, i),
        ring_ends(kinds, j),
        uncut(kinds, i, j),
        points_between(kinds, i, j) >= 3,
    ensures
        ring_spans(kinds, q, points_between(kinds, 0, i0), points_between(kinds, i0, q)).contains(
            (points_between(kinds, 0, i), points_between(kinds, i, j)),
        ),
    decreases kinds.len() - q,
{
    let start = points_between(kinds, 0, i0);
    let len = points_between(kinds, i0, q);
    let x = (points_between(kinds, 0, i), points_between(kinds, i, j));
    let here = ring_spans(kinds, q, start, len);
    lemma_points_between_split(kinds, 0, i0, q);
    if i > i0 && i < q {
        assert(kinds[i] != SegKind::MoveTo);
        assert(kinds[i - 1] != SegKind::Close);
    }
    if q == kinds.len() {
        if i == q {
            assert(points_between(kinds, i, j) == 0);
        }
        assert(here[0] == x);
    } else {
        let k0 = kinds[q];
        assert(points_between(kinds, q, q) == 0);
        assert(points_between(kinds, q, q + 1) == seg_points(k0));
        assert(points_between(kinds, q + 1, q + 1) == 0);
        if k0 == SegKind::MoveTo || k0 == SegKind::Close {
            let kp = kept(start, len);
            let p0: int = if k0 == SegKind::MoveTo { 1 } else { 0 };
            assert(here == kp + ring_spans(kinds, q + 1, start + len, p0));
            if i == i0 && i < q {
                assert(j == q);
                assert(here[0] == x);
            } else if i == i0 && k0 == SegKind::MoveTo {
                if j == q {
                    assert(points_between(kinds, i, j) == 0);
                }
                lemma_ring_spans_keeps(kinds, q + 1, q, i, j);
                let rest = ring_spans(kinds, q + 1, start + len, 1);
                let t = choose|t: int| 0 <= t < rest.len() && rest[t] == x;
                assert(here[kp.len() + t] == x);
            } else if i == q {
                if k0 == SegKind::Close || j == q {
                    if j > q {
                        assert(kinds[q] != SegKind::Close);
                    }
                    assert(points_between(kinds, i, j) == 0);
                } else {
                    lemma_ring_spans_keeps(kinds, q + 1, q, i, j);
                    let rest = ring_spans(kinds, q + 1, start + len, 1);
                    let t = choose|t: int| 0 <= t < rest.len() && rest[t] == x;
                    assert(here[kp.len() + t] == x);
                }
            } else if i == i0 {
                assert(k0 == SegKind::Close);
                if j > q {
                    assert(kinds[q] != SegKind::Close);
                }
                assert(points_between(kinds, i, j) == 0);
            } else {
                assert(i > q);
                let p: int = if k0 == SegKind::MoveTo { 1 } else { 0 };
                let i1: int = if k0 == SegKind::MoveTo { q } else { q + 1 };
                if k0 == SegKind::MoveTo {
                    assert(kinds[i] != SegKind::MoveTo ==> kinds[i - 1] == SegKind::Close);
                }
                lemma_ring_spans_keeps(kinds, q + 1, i1, i, j);
                assert(points_between(kinds, i1, q + 1) == p);
                let rest = ring_spans(kinds, q + 1, start + len, p);
                let t = choose|t: int| 0 <= t < rest.len() && rest[t] == x;
                assert(here[kp.len() + t] == x);
            }
        } else {
            if j == q {
                assert(false);
            }
            if i == q && i > i0 {
                assert(kinds[q - 1] != SegKind::Close);
            }
            lemma_ring_spans_keeps(kinds, q + 1, i0, i, j);
        }
    }
}

/// Every ring of the path, with at least 3 points, is cut: for segments `i..j` that start a
/// ring (at the path's start, a move, or after a close), end it (at the path's end, a move or
/// a close) and hold no move or close between, the ring (points before `i`, points of `i..j`)
/// is in the result, however many points it has.
pub proof fn lemma_every_ring_is_cut(kinds: Seq<SegKind>, i: int, j: int)
    requires
        0 <= i <= j <= kinds.len(),
        ring_starts(kinds, i),
        ring_ends(kinds, j),
        uncut(kinds, i, j),
        points_between(kinds, i, j) >= 3,
    ensures
        ring_spans(kinds, 0, 0, 0).contains((points_between(kinds, 0, i), points_between(kinds, i, j))),
{
    lemma_ring_spans_keeps(kinds, 0, 0, i, j);
}

/// Cuts the points that a path's segments flatten into (one per move or line, `CURVE_STEPS`
/// per curve, none for a close) into rings: each move starts a ring and each close ends one,
/// and rings of fewer than three points are dropped. Each ring is (first point, number of points).
pub fn flatten_rings(kinds: &[SegKind]) -> (r: Vec<(usize, usize)>)
    requires
        kinds.len() <= usize::MAX / CURVE_STEPS,
    ensures
        spans_int(r@) == ring_spans(kinds@, 0, 0, 0),
        forall|k: int|
            0 <= k < r.len() ==> (#[trigger] r@[k]).1 >= 3 && r@[k].0 + r@[k].1 <= points_from(kinds@, 0),
        forall|k: int| 0 <= k < r.len() - 1 ==> r@[k].0 + r@[k].1 <= #[trigger] r@[k + 1].0,
{
    let n = kinds.len();
    let mut r: Vec<(usize, usize)> = Vec::new();
    let mut start: usize = 0;
    let mut len: usize = 0;
    let mut i: usize = 0;
    while i < n
        invariant
            n == kinds.len(),
            n <= usize::MAX / CURVE_STEPS,
            i <= n,
            start + len <= CURVE_STEPS * i,
            spans_int(r@) + ring_spans(kinds@, i as int, start as int, len as int) == ring_spans(
                kinds@,
                0,
                0,
                0,
            ),
        decreases n - i,
    {
        let ghost before = spans_int(r@);
        let ghost (s0, l0) = (start as int, len as int);
        match kinds[i] {
            SegKind::MoveTo | SegKind::Close => {
                if len >= 3 {
                    r.push((start, len));
                }
                start = start + len;
                len = if kinds[i] == SegKind::MoveTo { 1 } else { 0 };
                proof {
                    assert(spans_int(r@) =~= before + kept(s0, l0));
                }
            },
            SegKind::LineTo => {
                len = len + 1;
            },
            SegKind::QuadTo | SegKind::CubicTo => {
                len = len + CURVE_STEPS;
            },
        }
        proof {
            assert(spans_int(r@) + ring_spans(kinds@, i + 1, start as int, len as int) =~= before
                + ring_spans(kinds@, i as int, s0, l0));
        }
        i += 1;
    }
    let ghost before = spans_int(r@);
    if len >= 3 {
        r.push((start, len));
    }
    proof {
        assert(spans_int(r@) =~= before + kept(start as int, len as int));
        assert(spans_int(r@) =~= ring_spans(kinds@, 0, 0, 0));
        lemma_ring_spans_shape(kinds@, 0, 0, 0);
        assert forall|k: int| 0 <= k < r.len() implies (#[trigger] r@[k]).1 >= 3 && r@[k].0 + r@[k].1
            <= points_from(kinds@, 0) by {
            assert(spans_int(r@)[k] == ring_spans(kinds@, 0, 0, 0)[k]);
        }
        assert forall|k: int| 0 <= k < r.len() - 1 implies r@[k].0 + r@[k].1 <= #[trigger] r@[k + 1].0 by {
            assert(spans_int(r@)[k] == ring_spans(kinds@, 0, 0, 0)[k]);
            assert(spans_int(r@)[k + 1] == ring_spans(kinds@, 0, 0, 0)[k + 1]);
        }
    }
    r
}

}

verus! {

/// The four viewBox numbers, from the fields as parsed (None where a field is no number): the
/// error `non-numeric viewBox` when any field is no number, else `viewBox must have 4 numbers`
/// unless there are exactly four.
pub fn viewbox_numbers<T: Copy>(parsed: &Vec<Option<T>>) -> (r: Result<(T, T, T, T), String>)
    ensures
        (exists|i: int| 0 <= i < parsed@.len() && #[trigger] parsed@[i] is None) ==> (r matches Err(e)
            && e@ == "non-numeric viewBox"@),
        (forall|i: int| 0 <= i < parsed@.len() ==> #[trigger] parsed@[i] is Some) && parsed@.len() != 4
            ==> (r matches Err(e) && e@ == "viewBox must have 4 numbers"@),
        (forall|i: int| 0 <= i < parsed@.len() ==> #[trigger] parsed@[i] is Some) && parsed@.len() == 4
            ==> r == Ok::<(T, T, T, T), String>(
            (parsed@[0]->Some_0, parsed@[1]->Some_0, parsed@[2]->Some_0, parsed@[3]->Some_0),
        ),
{
    let mut i: usize = 0;
    while i < parsed.len()
        invariant
            i <= parsed.len(),
            forall|j: int| 0 <= j < i ==> #[trigger] parsed@[j] is Some,
        decreases parsed.len() - i,
    {
        if parsed[i].is_none() {
            return Err(String::from_str("non-numeric viewBox"));
        }
        i += 1;
    }
    if parsed.len() != 4 {
        return Err(String::from_str("viewBox must have 4 numbers"));
    }
    match (parsed[0], parsed[1], parsed[2], parsed[3]) {
        (Some(a), Some(b), Some(c), Some(d)) => Ok((a, b, c, d)),
        _ => Err(String::from_str("viewBox must have 4 numbers")),
    }
}

}

verus! {

proof fn lemma_find_from_found(s: Seq<char>, p: Seq<char>, from: int)
    requires
        0 <= from,
        find_from(s, p, from) is Some,
    ensures
        ({
            let i = find_from(s, p, from)->Some_0;
            &&& from <= i < s.len()
            &&& occurs_at(s, p, i)
            &&& forall|t: int| from <= t < i ==> !occurs_at(s, p, t)
        }),
    decreases s.len() - from,
{
    if from < s.len() && !occurs_at(s, p, from) {
        lemma_find_from_found(s, p, from + 1);
    }
}

proof fn lemma_occurs_char(s: Seq<char>, c: char, t: int)
    requires
        0 <= t < s.len(),
    ensures
        occurs_at(s, seq![c], t) <==> s[t] == c,
{
    if s[t] == c {
        assert(s.subrange(t, t + 1) =~= seq![c]);
    } else {
        assert(s.subrange(t, t + 1)[0] == s[t]);
    }
}

proof fn lemma_skip_ws_spans(s: Seq<char>, lo: int, hi: int)
    requires
        0 <= lo <= hi <= s.len(),
    ensures
        lo <= skip_ws(s, lo, hi) <= hi,
        forall|t: int| lo <= t < skip_ws(s, lo, hi) ==> is_ws(#[trigger] s[t]),
        skip_ws(s, lo, hi) < hi ==> !is_ws(s[skip_ws(s, lo, hi)]),
    decreases hi - lo,
{
    if lo < hi && is_ws(s[lo]) {
        lemma_skip_ws_spans(s, lo + 1, hi);
    }
}

/// Where the viewBox is read from, in plain terms: `start` is the first `<svg` (any case),
/// `end` the first `>` after it, `p` the first `viewbox` (any case) within that tag, `e` the
/// first `=` from there, then white space up to the quote before `a`, and `b` the next such
/// quote, still within the tag.
pub open spec fn viewbox_found_at(s: Seq<char>, w: (int, int, int, int, int, int)) -> bool {
    let (start, end, p, e, a, b) = w;
    &&& 0 <= start && occurs_at(lower(s), "<svg"@, start)
    &&& forall|t: int| 0 <= t < start ==> !occurs_at(lower(s), "<svg"@, t)
    &&& start < end < s.len() && s[end] == '>'
    &&& forall|t: int| start <= t < end ==> s[t] != '>'
    &&& start <= p && p + 7 <= end && occurs_at(lower(s), "viewbox"@, p)
    &&& forall|t: int| start <= t < p ==> !occurs_at(lower(s), "viewbox"@, t)
    &&& p <= e < a - 1 && s[e] == '='
    &&& forall|t: int| p <= t < e ==> s[t] != '='
    &&& forall|t: int| e < t < a - 1 ==> is_ws(s[t])
    &&& (s[a - 1] == '"' || s[a - 1] == '\'')
    &&& a <= b < end && s[b] == s[a - 1]
    &&& forall|t: int| a <= t < b ==> #[trigger] s[t] != s[a - 1]
}

/// The viewBox read is the root element's: the attribute is the first `viewBox` between the
/// root's `<svg` and the first `>` after it, and the number texts are the pieces of its quoted
/// value.
pub proof fn lemma_viewbox_in_root_tag(s: Seq<char>)
    requires
        viewbox_text(s) is Ok,
    ensures
        exists|w: (int, int, int, int, int, int)|
            #[trigger] viewbox_found_at(s, w) && viewbox_text(s) == Ok::<Seq<Seq<char>>, Seq<char>>(
                fields(s.subrange(w.4, w.5)),
            ),
{
    reveal_strlit("viewbox");
    let ls = lower(s);
    lemma_find_from_found(ls, "<svg"@, 0);
    let start = find_from(ls, "<svg"@, 0)->Some_0;
    lemma_find_from_found(s, seq!['>'], start);
    let end = find_from(s, seq!['>'], start)->Some_0;
    lemma_occurs_char(s, '>', end);
    assert forall|t: int| start <= t < end implies s[t] != '>' by {
        lemma_occurs_char(s, '>', t);
    }
    let tag = s.subrange(start, end);
    let lt = lower(tag);
    assert(lt =~= ls.subrange(start, end));
    lemma_find_from_found(lt, "viewbox"@, 0);
    let vb = find_from(lt, "viewbox"@, 0)->Some_0;
    let p = start + vb;
    assert(lt.subrange(vb, vb + 7) =~= ls.subrange(p, p + 7));
    assert forall|t: int| start <= t < p implies !occurs_at(ls, "viewbox"@, t) by {
        assert(!occurs_at(lt, "viewbox"@, t - start));
        assert(lt.subrange(t - start, t - start + 7) =~= ls.subrange(t, t + 7));
    }
    lemma_find_from_found(tag, seq!['='], vb);
    let eq = find_from(tag, seq!['='], vb)->Some_0;
    lemma_occurs_char(tag, '=', eq);
    assert forall|t: int| p <= t < start + eq implies s[t] != '=' by {
        lemma_occurs_char(tag, '=', t - start);
    }
    let q = skip_ws(tag, eq + 1, tag.len() as int);
    lemma_skip_ws_spans(tag, eq + 1, tag.len() as int);
    let quote = tag[q];
    lemma_find_from_found(tag, seq![quote], q + 1);
    let close = find_from(tag, seq![quote], q + 1)->Some_0;
    lemma_occurs_char(tag, quote, close);
    assert forall|t: int| start + q + 1 <= t < start + close implies #[trigger] s[t] != s[start + q] by {
        lemma_occurs_char(tag, quote, t - start);
    }
    assert forall|t: int| start + eq < t < start + q implies is_ws(s[t]) by {
        assert(is_ws(tag[t - start]));
    }
    let w = (start, end, p, start + eq, start + q + 1, start + close);
    assert(tag.subrange(q + 1, close) =~= s.subrange(start + q + 1, start + close));
    assert(viewbox_found_at(s, w));
}

}
