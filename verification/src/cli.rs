use vstd::prelude::*;
use crate::engine::{page_preset, preset_named};
use crate::text::{chars_of, lower, rfind, rfind_char, sub_string, trimmed};

verus! {

/// `s` split at its last dot: the text before it and the text after it.
pub open spec fn split_last_dot(s: Seq<char>) -> Option<(Seq<char>, Seq<char>)> {
    match rfind(s, seq!['.']) {
        Some(i) => Some((s.subrange(0, i), s.subrange(i + 1, s.len() as int))),
        None => None,
    }
}

/// The basename of the output files: `out` when it is given, else the border's path without
/// its last extension (the whole path when it has no dot).
pub fn output_base(out: Option<String>, border: &str) -> (r: String)
    ensures
        r@ == match out {
            Some(o) => o@,
            None => match split_last_dot(border@) {
                Some((b, _)) => b,
                None => border@,
            },
        },
{
    match out {
        Some(o) => o,
        None => {
            let h = chars_of(border);
            match rfind_char(&h, '.') {
                Some(i) => sub_string(border, 0, i),
                None => String::from_str(border),
            }
        },
    }
}

/// The extension of an image path: what follows its last dot, empty when it has none.
pub fn path_extension(path: &str) -> (r: String)
    ensures
        r@ == match split_last_dot(path@) {
            Some((_, e)) => e,
            None => Seq::<char>::empty(),
        },
{
    let h = chars_of(path);
    match rfind_char(&h, '.') {
        Some(i) => sub_string(path, i + 1, h.len()),
        None => String::new(),
    }
}

/// The files written for a basename, in the order written: the content and outline SVGs, then,
/// unless only SVGs are wanted, the content and outline PDFs.
pub fn output_paths(base: &str, with_pdf: bool) -> (r: Vec<String>)
    ensures
        r@.len() == if with_pdf { 4int } else { 2int },
        r@[0]@ == base@ + "_content.svg"@,
        r@[1]@ == base@ + "_outline.svg"@,
        with_pdf ==> r@[2]@ == base@ + "_content.pdf"@,
        with_pdf ==> r@[3]@ == base@ + "_outline.pdf"@,
{
    let mut r: Vec<String> = Vec::new();
    r.push(String::from_str(base).concat("_content.svg"));
    r.push(String::from_str(base).concat("_outline.svg"));
    if with_pdf {
        r.push(String::from_str(base).concat("_content.pdf"));
        r.push(String::from_str(base).concat("_outline.pdf"));
    }
    r
}

/// The page that `--page` names, in tenths of a millimetre (portrait), or the error for an
/// unknown name.
pub fn page_flag(name: &str) -> (r: Result<(u32, u32), String>)
    ensures
        match preset_named(lower(trimmed(name@, 0, name@.len() as int))) {
            Some(d) => r == Ok::<(u32, u32), String>(d),
            None => r matches Err(e) && e@ == "unknown --page '"@ + name@
                + "' (a3|a4|a5|a6|letter|legal|tabloid)"@,
        },
{
    match page_preset(name) {
        Some(d) => Ok(d),
        None => Err(String::from_str("unknown --page '").concat(name).concat("' (a3|a4|a5|a6|letter|legal|tabloid)")),
    }
}

}
