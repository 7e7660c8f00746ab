use sticker_packer::pdfobj::{dedupe_objects, same_value, PdfValue, StrFormat};

fn name(s: &str) -> PdfValue {
    PdfValue::Name(s.as_bytes().to_vec())
}

fn entry(k: &str, v: PdfValue) -> (Vec<u8>, PdfValue) {
    (k.as_bytes().to_vec(), v)
}

fn image(content: &[u8], smask: Option<(u32, u16)>) -> PdfValue {
    let mut d = vec![entry("Subtype", name("Image"))];
    if let Some((n, g)) = smask {
        d.push(entry("SMask", PdfValue::Reference(n, g)));
    }
    PdfValue::Stream(d, content.to_vec(), true)
}

fn refs(v: &PdfValue) -> Vec<(u32, u16)> {
    match v {
        PdfValue::Reference(n, g) => vec![(*n, *g)],
        PdfValue::Array(a) => a.iter().flat_map(refs).collect(),
        PdfValue::Dictionary(d) | PdfValue::Stream(d, _, _) => d.iter().flat_map(|(_, v)| refs(v)).collect(),
        _ => vec![],
    }
}

#[test]
fn same_values_ignore_dictionary_order_and_string_notation() {
    let a = PdfValue::Dictionary(vec![entry("A", PdfValue::Integer(1)), entry("B", name("x"))]);
    let b = PdfValue::Dictionary(vec![entry("B", name("x")), entry("A", PdfValue::Integer(1))]);
    assert!(same_value(&a, &b));
    let s1 = PdfValue::Str(b"hi".to_vec(), StrFormat::Literal);
    let s2 = PdfValue::Str(b"hi".to_vec(), StrFormat::Hexadecimal);
    assert!(same_value(&s1, &s2));
    assert!(!same_value(&PdfValue::Integer(1), &PdfValue::Integer(2)));
    assert!(!same_value(&image(b"ab", None), &image(b"ac", None)));
    assert!(!same_value(&PdfValue::Reference(1, 0), &PdfValue::Reference(1, 1)));
    assert!(!same_value(
        &PdfValue::Array(vec![PdfValue::Null]),
        &PdfValue::Array(vec![PdfValue::Null, PdfValue::Null])
    ));
}

#[test]
fn duplicate_stream_collapses_into_the_first() {
    let objs = vec![
        ((1, 0), image(b"pixels", None)),
        ((2, 0), image(b"pixels", None)),
        ((3, 0), PdfValue::Array(vec![PdfValue::Reference(1, 0), PdfValue::Reference(2, 0)])),
    ];
    let trailer = vec![entry("Root", PdfValue::Reference(2, 0))];
    let (objs, trailer) = dedupe_objects(objs, trailer);
    let ids: Vec<(u32, u16)> = objs.iter().map(|(id, _)| *id).collect();
    assert_eq!(ids, vec![(1, 0), (3, 0)]);
    assert_eq!(refs(&objs[1].1), vec![(1, 0), (1, 0)]);
    assert_eq!(refs(&PdfValue::Dictionary(trailer)), vec![(1, 0)]);
}

#[test]
fn merging_masks_lets_their_images_merge_next() {
    // two identical masks (1, 2) and two images that differ only in which mask they name
    let objs = vec![
        ((1, 0), image(b"mask", None)),
        ((2, 0), image(b"mask", None)),
        ((4, 0), image(b"rgb", Some((1, 0)))),
        ((5, 0), image(b"rgb", Some((2, 0)))),
        ((6, 0), PdfValue::Array(vec![PdfValue::Reference(4, 0), PdfValue::Reference(5, 0)])),
    ];
    let (objs, _) = dedupe_objects(objs, vec![]);
    let ids: Vec<(u32, u16)> = objs.iter().map(|(id, _)| *id).collect();
    assert_eq!(ids, vec![(1, 0), (4, 0), (6, 0)]);
    assert_eq!(refs(&objs[2].1), vec![(4, 0), (4, 0)]);
}

#[test]
fn dictionaries_that_are_not_streams_stay() {
    let d = PdfValue::Dictionary(vec![entry("K", PdfValue::Boolean(true))]);
    let objs = vec![((1, 0), d), ((2, 0), PdfValue::Dictionary(vec![entry("K", PdfValue::Boolean(true))]))];
    let (objs, _) = dedupe_objects(objs, vec![]);
    assert_eq!(objs.len(), 2);
}

#[test]
fn deduplicating_twice_changes_nothing() {
    let objs = vec![
        ((1, 0), image(b"x", None)),
        ((2, 0), image(b"x", None)),
        ((3, 0), image(b"y", Some((2, 0)))),
    ];
    let (once, t1) = dedupe_objects(objs, vec![entry("R", PdfValue::Reference(3, 0))]);
    let n = once.len();
    let ids: Vec<(u32, u16)> = once.iter().map(|(id, _)| *id).collect();
    let (twice, _) = dedupe_objects(once, t1);
    assert_eq!(twice.len(), n);
    assert_eq!(twice.iter().map(|(id, _)| *id).collect::<Vec<_>>(), ids);
}
