use vstd::prelude::*;

verus! {

/// A PDF object number with its generation number.
pub type ObjId = (u32, u16);

#[verifier::external_type_specification]
#[verifier::external_body]
pub struct ExPdfObject(lopdf::Object);

/// How a string is written in the file: as `(...)` or as `<...>`.
#[derive(Clone, Copy, PartialEq, Eq, Structural, Debug)]
pub enum StrFormat {
    Literal,
    Hexadecimal,
}

/// A real number of a PDF document: its bit pattern, beside the number as it was read (so that
/// it is written back unchanged).
pub struct PdfReal {
    bits: u32,
    raw: lopdf::Object,
}

impl PdfReal {
    pub closed spec fn bits_view(&self) -> u32 {
        self.bits
    }

    pub fn bits(&self) -> (r: u32)
        ensures
            r == self.bits_view(),
    {
        self.bits
    }
}

/// A PDF object, as the deduplication reads it.
pub enum PdfValue {
    Null,
    Boolean(bool),
    Integer(i64),
    Real(PdfReal),
    Name(Vec<u8>),
    /// A string's bytes, and how it is written.
    Str(Vec<u8>, StrFormat),
    Array(Vec<PdfValue>),
    /// A dictionary's entries, in their order in the file.
    Dictionary(Vec<(Vec<u8>, PdfValue)>),
    /// A stream's dictionary entries, its content, and whether it may be compressed.
    Stream(Vec<(Vec<u8>, PdfValue)>, Vec<u8>, bool),
    Reference(u32, u16),
}

/// The mathematical model of a PDF object: a real number is its bit pattern.
pub enum PdfView {
    Null,
    Boolean(bool),
    Integer(i64),
    Real(u32),
    Name(Seq<u8>),
    Str(Seq<u8>, StrFormat),
    Array(Seq<PdfView>),
    Dictionary(Seq<(Seq<u8>, PdfView)>),
    Stream(Seq<(Seq<u8>, PdfView)>, Seq<u8>, bool),
    Reference(u32, u16),
}

pub open spec fn pv(v: PdfValue) -> PdfView
    decreases v,
{
    match v {
        PdfValue::Null => PdfView::Null,
        PdfValue::Boolean(b) => PdfView::Boolean(b),
        PdfValue::Integer(i) => PdfView::Integer(i),
        PdfValue::Real(r) => PdfView::Real(r.bits_view()),
        PdfValue::Name(n) => PdfView::Name(n@),
        PdfValue::Str(s, h) => PdfView::Str(s@, h),
        PdfValue::Array(xs) => PdfView::Array(
            Seq::new(
                xs.len() as nat,
                |i: int|
                    if 0 <= i < xs.len() {
                        pv(xs@[i])
                    } else {
                        PdfView::Null
                    },
            ),
        ),
        PdfValue::Dictionary(d) => PdfView::Dictionary(
            Seq::new(
                d.len() as nat,
                |i: int|
                    if 0 <= i < d.len() {
                        (d@[i].0@, pv(d@[i].1))
                    } else {
                        (Seq::empty(), PdfView::Null)
                    },
            ),
        ),
        PdfValue::Stream(d, c, f) => PdfView::Stream(
            Seq::new(
                d.len() as nat,
                |i: int|
                    if 0 <= i < d.len() {
                        (d@[i].0@, pv(d@[i].1))
                    } else {
                        (Seq::empty(), PdfView::Null)
                    },
            ),
            c@,
            f,
        ),
        PdfValue::Reference(n, g) => PdfView::Reference(n, g),
    }
}

impl View for PdfValue {
    type V = PdfView;

    open spec fn view(&self) -> PdfView {
        pv(*self)
    }
}

/// The model of a list of dictionary entries.
pub open spec fn dict_view(d: Seq<(Vec<u8>, PdfValue)>) -> Seq<(Seq<u8>, PdfView)> {
    d.map_values(|e: (Vec<u8>, PdfValue)| (e.0@, e.1@))
}

/// The model of a list of numbered objects.
pub open spec fn objs_view(o: Seq<(ObjId, PdfValue)>) -> Seq<(ObjId, PdfView)> {
    o.map_values(|e: (ObjId, PdfValue)| (e.0, e.1@))
}

/// The value of the first entry of `e`, at or after position `j`, whose key is `k`.
pub open spec fn value_from(e: Seq<(Seq<u8>, PdfView)>, k: Seq<u8>, j: int) -> Option<PdfView>
    decreases e.len() - j,
{
    if j < 0 || j >= e.len() {
        None
    } else if e[j].0 == k {
        Some(e[j].1)
    } else {
        value_from(e, k, j + 1)
    }
}

/// The value that the dictionary entries `e` give the key `k`.
pub open spec fn value_of(e: Seq<(Seq<u8>, PdfView)>, k: Seq<u8>) -> Option<PdfView> {
    value_from(e, k, 0)
}

/// Two PDF values are the same value: equal numbers (reals by bit pattern), names, string
/// bytes (whatever their notation), references and stream contents; arrays equal item by item;
/// dictionaries (and stream dictionaries) with as many entries, the key of each entry of the
/// first giving the same value in the second.
pub open spec fn same(a: PdfView, b: PdfView) -> bool
    decreases a,
{
    match (a, b) {
        (PdfView::Null, PdfView::Null) => true,
        (PdfView::Boolean(x), PdfView::Boolean(y)) => x == y,
        (PdfView::Integer(x), PdfView::Integer(y)) => x == y,
        (PdfView::Real(x), PdfView::Real(y)) => x == y,
        (PdfView::Name(x), PdfView::Name(y)) => x == y,
        (PdfView::Str(x, _), PdfView::Str(y, _)) => x == y,
        (PdfView::Array(xs), PdfView::Array(ys)) => xs.len() == ys.len() && forall|i: int|
            0 <= i < xs.len() ==> same(xs[i], #[trigger] ys[i]),
        (PdfView::Dictionary(d), PdfView::Dictionary(e)) => d.len() == e.len() && forall|i: int|
            0 <= i < d.len() ==> value_of(e, #[trigger] d[i].0) is Some && same(
                d[i].1,
                value_of(e, d[i].0)->Some_0,
            ),
        (PdfView::Stream(d, c, _), PdfView::Stream(e, c2, _)) => c == c2 && d.len() == e.len()
            && forall|i: int|
            0 <= i < d.len() ==> value_of(e, #[trigger] d[i].0) is Some && same(
                d[i].1,
                value_of(e, d[i].0)->Some_0,
            ),
        (PdfView::Reference(x, g), PdfView::Reference(y, h)) => x == y && g == h,
        _ => false,
    }
}


}

verus! {

/// Entry by entry, `d` and `e` hold the same dictionary (see `same`).
pub open spec fn same_entries(d: Seq<(Seq<u8>, PdfView)>, e: Seq<(Seq<u8>, PdfView)>) -> bool {
    d.len() == e.len() && forall|i: int|
        0 <= i < d.len() ==> value_of(e, #[trigger] d[i].0) is Some && same(
            d[i].1,
            value_of(e, d[i].0)->Some_0,
        )
}

proof fn lemma_value_from_skip(e: Seq<(Seq<u8>, PdfView)>, k: Seq<u8>, from: int, to: int)
    requires
        0 <= from <= to,
        forall|j: int| from <= j < to ==> e[j].0 != k,
    ensures
        value_from(e, k, from) == value_from(e, k, to),
    decreases to - from,
{
    if from < to {
        lemma_value_from_skip(e, k, from + 1, to);
    }
}

pub fn bytes_eq(a: &Vec<u8>, b: &Vec<u8>) -> (r: bool)
    ensures
        r == (a@ == b@),
{
    if a.len() != b.len() {
        return false;
    }
    let mut i: usize = 0;
    while i < a.len()
        invariant
            a.len() == b.len(),
            i <= a.len(),
            forall|j: int| 0 <= j < i ==> a@[j] == b@[j],
        decreases a.len() - i,
    {
        if a[i] != b[i] {
            return false;
        }
        i += 1;
    }
    proof {
        assert(a@ =~= b@);
    }
    true
}

proof fn lemma_dict_view(d: Vec<(Vec<u8>, PdfValue)>, c: Vec<u8>, f: bool)
    ensures
        pv(PdfValue::Dictionary(d)) == PdfView::Dictionary(dict_view(d@)),
        pv(PdfValue::Stream(d, c, f)) == PdfView::Stream(dict_view(d@), c@, f),
{
    assert(pv(PdfValue::Dictionary(d))->Dictionary_0 =~= dict_view(d@));
    assert(pv(PdfValue::Stream(d, c, f))->Stream_0 =~= dict_view(d@));
}

/// Whether two dictionaries' entries hold the same dictionary.
pub fn entries_same(d: &Vec<(Vec<u8>, PdfValue)>, e: &Vec<(Vec<u8>, PdfValue)>) -> (r: bool)
    ensures
        r == same_entries(dict_view(d@), dict_view(e@)),
    decreases d, 0nat,
{
    let ghost dv = dict_view(d@);
    let ghost ev = dict_view(e@);
    if d.len() != e.len() {
        return false;
    }
    let mut i: usize = 0;
    while i < d.len()
        invariant
            d.len() == e.len(),
            i <= d.len(),
            dv == dict_view(d@),
            ev == dict_view(e@),
            forall|k: int|
                0 <= k < i ==> value_of(ev, #[trigger] dv[k].0) is Some && same(
                    dv[k].1,
                    value_of(ev, dv[k].0)->Some_0,
                ),
        decreases d.len() - i,
    {
        let mut j: usize = 0;
        while j < e.len() && !bytes_eq(&e[j].0, &d[i].0)
            invariant
                d.len() == e.len(),
                i < d.len(),
                j <= e.len(),
                dv == dict_view(d@),
                ev == dict_view(e@),
                forall|t: int| 0 <= t < j ==> (#[trigger] ev[t]).0 != dv[i as int].0,
            decreases e.len() - j,
        {
            j += 1;
        }
        proof {
            lemma_value_from_skip(ev, dv[i as int].0, 0, j as int);
        }
        if j == e.len() {
            proof {
                assert(!(value_of(ev, dv[i as int].0) is Some));
                assert(!same_entries(dv, ev)) by {
                    assert(dv[i as int].0 == dv[i as int].0);
                }
            }
            return false;
        }
        proof {
            assert(decreases_to!(d => d@));
            assert(decreases_to!(d@ => d@[i as int]));
            assert(decreases_to!(d@[i as int] => d@[i as int].1));
            assert(value_of(ev, dv[i as int].0) == Some(ev[j as int].1));
        }
        if !same_value(&d[i].1, &e[j].1) {
            proof {
                assert(!same_entries(dv, ev)) by {
                    assert(dv[i as int].0 == dv[i as int].0);
                }
            }
            return false;
        }
        i += 1;
    }
    true
}

/// Whether `a` and `b` are the same value (see `same`).
pub fn same_value(a: &PdfValue, b: &PdfValue) -> (r: bool)
    ensures
        r == same(a@, b@),
    decreases a, 1nat,
{
    match a {
        PdfValue::Null => match b {
            PdfValue::Null => true,
            _ => false,
        },
        PdfValue::Boolean(x) => match b {
            PdfValue::Boolean(y) => *x == *y,
            _ => false,
        },
        PdfValue::Integer(x) => match b {
            PdfValue::Integer(y) => *x == *y,
            _ => false,
        },
        PdfValue::Real(x) => match b {
            PdfValue::Real(y) => x.bits() == y.bits(),
            _ => false,
        },
        PdfValue::Name(x) => match b {
            PdfValue::Name(y) => bytes_eq(x, y),
            _ => false,
        },
        PdfValue::Str(x, _) => match b {
            PdfValue::Str(y, _) => bytes_eq(x, y),
            _ => false,
        },
        PdfValue::Reference(x, g) => match b {
            PdfValue::Reference(y, h) => *x == *y && *g == *h,
            _ => false,
        },
        PdfValue::Array(xs) => match b {
            PdfValue::Array(ys) => {
                if xs.len() != ys.len() {
                    return false;
                }
                let mut i: usize = 0;
                while i < xs.len()
                    invariant
                        *a == PdfValue::Array(*xs),
                        *b == PdfValue::Array(*ys),
                        xs.len() == ys.len(),
                        i <= xs.len(),
                        forall|k: int| 0 <= k < i ==> same(pv(xs@[k]), pv(ys@[k])),
                    decreases xs.len() - i,
                {
                    proof {
                        assert(decreases_to!(*a => a->Array_0));
                        assert(decreases_to!(a->Array_0 => a->Array_0@));
                        assert(decreases_to!(a->Array_0@ => a->Array_0@[i as int]));
                    }
                    if !same_value(&xs[i], &ys[i]) {
                        proof {
                            assert(a@->Array_0[i as int] == pv(xs@[i as int]));
                            assert(b@->Array_0[i as int] == pv(ys@[i as int]));
                        }
                        return false;
                    }
                    i += 1;
                }
                proof {
                    assert forall|k: int| 0 <= k < xs.len() implies same(
                        a@->Array_0[k],
                        #[trigger] b@->Array_0[k],
                    ) by {
                        assert(a@->Array_0[k] == pv(xs@[k]));
                        assert(b@->Array_0[k] == pv(ys@[k]));
                    }
                }
                true
            },
            _ => false,
        },
        PdfValue::Dictionary(d) => match b {
            PdfValue::Dictionary(e) => {
                proof {
                    lemma_dict_view(*d, vstd::pervasive::arbitrary(), true);
                    lemma_dict_view(*e, vstd::pervasive::arbitrary(), true);
                    assert(decreases_to!(*a => a->Dictionary_0));
                }
                entries_same(d, e)
            },
            _ => false,
        },
        PdfValue::Stream(d, c, _) => match b {
            PdfValue::Stream(e, c2, _) => {
                proof {
                    lemma_dict_view(*d, *c, a->Stream_2);
                    lemma_dict_view(*e, *c2, b->Stream_2);
                    assert(decreases_to!(*a => a->Stream_0));
                }
                bytes_eq(c, c2) && entries_same(d, e)
            },
            _ => false,
        },
    }
}

}

verus! {

/// Where the redirections `m` send the object `id`: the target of its first entry, or `id`
/// itself when none names it (looking from position `k` on).
pub open spec fn target_from(m: Seq<(ObjId, ObjId)>, id: ObjId, k: int) -> ObjId
    decreases m.len() - k,
{
    if k < 0 || k >= m.len() {
        id
    } else if m[k].0 == id {
        m[k].1
    } else {
        target_from(m, id, k + 1)
    }
}

pub open spec fn target(m: Seq<(ObjId, ObjId)>, id: ObjId) -> ObjId {
    target_from(m, id, 0)
}

/// `v` with every reference redirected by `m`.
pub open spec fn remap(v: PdfView, m: Seq<(ObjId, ObjId)>) -> PdfView
    decreases v,
{
    match v {
        PdfView::Reference(n, g) => PdfView::Reference(target(m, (n, g)).0, target(m, (n, g)).1),
        PdfView::Array(xs) => PdfView::Array(
            Seq::new(xs.len(), |i: int| if 0 <= i < xs.len() { remap(xs[i], m) } else { PdfView::Null }),
        ),
        PdfView::Dictionary(d) => PdfView::Dictionary(
            Seq::new(
                d.len(),
                |i: int|
                    if 0 <= i < d.len() {
                        (d[i].0, remap(d[i].1, m))
                    } else {
                        (Seq::empty(), PdfView::Null)
                    },
            ),
        ),
        PdfView::Stream(d, c, f) => PdfView::Stream(
            Seq::new(
                d.len(),
                |i: int|
                    if 0 <= i < d.len() {
                        (d[i].0, remap(d[i].1, m))
                    } else {
                        (Seq::empty(), PdfView::Null)
                    },
            ),
            c,
            f,
        ),
        _ => v,
    }
}

/// Dictionary entries with every reference redirected by `m`.
pub open spec fn remap_entries(d: Seq<(Seq<u8>, PdfView)>, m: Seq<(ObjId, ObjId)>) -> Seq<
    (Seq<u8>, PdfView),
> {
    d.map_values(|e: (Seq<u8>, PdfView)| (e.0, remap(e.1, m)))
}

proof fn lemma_remap_dict(d: Seq<(Seq<u8>, PdfView)>, c: Seq<u8>, f: bool, m: Seq<(ObjId, ObjId)>)
    ensures
        remap(PdfView::Dictionary(d), m) == PdfView::Dictionary(remap_entries(d, m)),
        remap(PdfView::Stream(d, c, f), m) == PdfView::Stream(remap_entries(d, m), c, f),
{
    assert(remap(PdfView::Dictionary(d), m)->Dictionary_0 =~= remap_entries(d, m));
    assert(remap(PdfView::Stream(d, c, f), m)->Stream_0 =~= remap_entries(d, m));
}

/// Where the redirections `m` send `id`.
pub fn lookup(m: &Vec<(ObjId, ObjId)>, id: ObjId) -> (r: ObjId)
    ensures
        r == target(m@, id),
{
    let mut k: usize = 0;
    while k < m.len()
        invariant
            k <= m.len(),
            target(m@, id) == target_from(m@, id, k as int),
        decreases m.len() - k,
    {
        if m[k].0.0 == id.0 && m[k].0.1 == id.1 {
            return m[k].1;
        }
        k += 1;
    }
    id
}

pub fn copy_bytes(v: &Vec<u8>) -> (r: Vec<u8>)
    ensures
        r@ == v@,
{
    let mut r: Vec<u8> = Vec::new();
    let mut i: usize = 0;
    while i < v.len()
        invariant
            i <= v.len(),
            r@ == v@.subrange(0, i as int),
        decreases v.len() - i,
    {
        r.push(v[i]);
        i += 1;
        proof {
            assert(r@ =~= v@.subrange(0, i as int));
        }
    }
    proof {
        assert(r@ =~= v@);
    }
    r
}

/// `lopdf::Object::clone` (derived): a copy of the object. Nothing is claimed of the copy; a
/// `PdfReal` keeps its own bit pattern beside it.
#[verifier::external_body]
fn clone_object(o: &lopdf::Object) -> lopdf::Object {
    o.clone()
}

impl PdfReal {
    pub fn copy(&self) -> (r: PdfReal)
        ensures
            r.bits_view() == self.bits_view(),
    {
        PdfReal { bits: self.bits, raw: clone_object(&self.raw) }
    }
}

/// Dictionary entries with every reference redirected by `m`.
pub fn remapped_entries(d: &Vec<(Vec<u8>, PdfValue)>, m: &Vec<(ObjId, ObjId)>) -> (r: Vec<
    (Vec<u8>, PdfValue),
>)
    ensures
        dict_view(r@) == remap_entries(dict_view(d@), m@),
    decreases d, 0nat,
{
    let mut r: Vec<(Vec<u8>, PdfValue)> = Vec::new();
    let mut i: usize = 0;
    while i < d.len()
        invariant
            i <= d.len(),
            dict_view(r@) == remap_entries(dict_view(d@), m@).subrange(0, i as int),
        decreases d.len() - i,
    {
        proof {
            assert(decreases_to!(d => d@));
            assert(decreases_to!(d@ => d@[i as int]));
            assert(decreases_to!(d@[i as int] => d@[i as int].1));
        }
        let key = copy_bytes(&d[i].0);
        let val = remapped(&d[i].1, m);
        let ghost before = r@;
        let ghost kv = (key@, val@);
        proof {
            assert(kv == remap_entries(dict_view(d@), m@)[i as int]);
        }
        r.push((key, val));
        i += 1;
        proof {
            assert(dict_view(r@) =~= dict_view(before).push(kv));
            assert(dict_view(r@) =~= remap_entries(dict_view(d@), m@).subrange(0, i as int));
        }
    }
    proof {
        assert(dict_view(r@) =~= remap_entries(dict_view(d@), m@));
    }
    r
}

/// `v` with every reference redirected by `m`.
pub fn remapped(v: &PdfValue, m: &Vec<(ObjId, ObjId)>) -> (r: PdfValue)
    ensures
        r@ == remap(v@, m@),
    decreases v, 1nat,
{
    match v {
        PdfValue::Null => PdfValue::Null,
        PdfValue::Boolean(b) => PdfValue::Boolean(*b),
        PdfValue::Integer(i) => PdfValue::Integer(*i),
        PdfValue::Real(x) => PdfValue::Real(x.copy()),
        PdfValue::Name(n) => PdfValue::Name(copy_bytes(n)),
        PdfValue::Str(s, h) => PdfValue::Str(copy_bytes(s), *h),
        PdfValue::Reference(n, g) => {
            let t = lookup(m, (*n, *g));
            PdfValue::Reference(t.0, t.1)
        },
        PdfValue::Array(xs) => {
            let mut out: Vec<PdfValue> = Vec::new();
            let mut i: usize = 0;
            while i < xs.len()
                invariant
                    *v == PdfValue::Array(*xs),
                    i <= xs.len(),
                    out.len() == i,
                    forall|j: int| 0 <= j < i ==> out@[j]@ == remap(xs@[j]@, m@),
                decreases xs.len() - i,
            {
                proof {
                    assert(decreases_to!(*v => v->Array_0));
                    assert(decreases_to!(v->Array_0 => v->Array_0@));
                    assert(decreases_to!(v->Array_0@ => v->Array_0@[i as int]));
                }
                let y = remapped(&xs[i], m);
                out.push(y);
                i += 1;
            }
            let r = PdfValue::Array(out);
            proof {
                assert(r@->Array_0 =~= remap(v@, m@)->Array_0);
            }
            r
        },
        PdfValue::Dictionary(d) => {
            proof {
                assert(decreases_to!(*v => v->Dictionary_0));
            }
            let e = remapped_entries(d, m);
            proof {
                lemma_dict_view(*d, vstd::pervasive::arbitrary(), true);
                lemma_dict_view(e, vstd::pervasive::arbitrary(), true);
                lemma_remap_dict(dict_view(d@), seq![], true, m@);
            }
            PdfValue::Dictionary(e)
        },
        PdfValue::Stream(d, c, f) => {
            proof {
                assert(decreases_to!(*v => v->Stream_0));
            }
            let e = remapped_entries(d, m);
            let c2 = copy_bytes(c);
            proof {
                lemma_dict_view(*d, *c, *f);
                lemma_dict_view(e, c2, *f);
                lemma_remap_dict(dict_view(d@), c@, *f, m@);
            }
            PdfValue::Stream(e, c2, *f)
        },
    }
}

}

verus! {

/// The first position `k` in `[from, i)` holding a stream that is the same as the object at `i`.
pub open spec fn same_before(objs: Seq<(ObjId, PdfView)>, i: int, from: int) -> Option<int>
    decreases i - from,
{
    if from < 0 || from >= i {
        None
    } else if objs[from].1 is Stream && same(objs[from].1, objs[i].1) {
        Some(from)
    } else {
        same_before(objs, i, from + 1)
    }
}

/// The earlier stream that the stream at `i` duplicates (the first one the same as it), if any.
pub open spec fn dup_of(objs: Seq<(ObjId, PdfView)>, i: int) -> Option<int> {
    if objs[i].1 is Stream {
        same_before(objs, i, 0)
    } else {
        None
    }
}

/// The redirections one pass over the first `n` objects makes: each duplicate stream to the
/// first stream it duplicates.
pub open spec fn merges(objs: Seq<(ObjId, PdfView)>, n: int) -> Seq<(ObjId, ObjId)>
    decreases n,
{
    if n <= 0 {
        seq![]
    } else {
        match dup_of(objs, n - 1) {
            Some(k) => merges(objs, n - 1).push((objs[n - 1].0, objs[k].0)),
            None => merges(objs, n - 1),
        }
    }
}

/// The first `n` objects without the duplicates, each with its references redirected by `m`.
pub open spec fn kept(objs: Seq<(ObjId, PdfView)>, m: Seq<(ObjId, ObjId)>, n: int) -> Seq<
    (ObjId, PdfView),
>
    decreases n,
{
    if n <= 0 {
        seq![]
    } else if dup_of(objs, n - 1) is Some {
        kept(objs, m, n - 1)
    } else {
        kept(objs, m, n - 1).push((objs[n - 1].0, remap(objs[n - 1].1, m)))
    }
}

pub proof fn lemma_kept_merges_len(objs: Seq<(ObjId, PdfView)>, m: Seq<(ObjId, ObjId)>, n: int)
    requires
        0 <= n,
    ensures
        kept(objs, m, n).len() + merges(objs, n).len() == n,
    decreases n,
{
    if n > 0 {
        lemma_kept_merges_len(objs, m, n - 1);
    }
}

/// Stream deduplication to its fixpoint: while a pass finds duplicate streams, drop them and
/// redirect every reference (in the objects and in the trailer) to the stream kept.
pub open spec fn deduped(objs: Seq<(ObjId, PdfView)>, trailer: Seq<(Seq<u8>, PdfView)>) -> (Seq<
    (ObjId, PdfView),
>, Seq<(Seq<u8>, PdfView)>)
    decreases objs.len(),
{
    let m = merges(objs, objs.len() as int);
    if m.len() == 0 {
        (objs, trailer)
    } else {
        proof {
            lemma_kept_merges_len(objs, m, objs.len() as int);
        }
        deduped(kept(objs, m, objs.len() as int), remap_entries(trailer, m))
    }
}

pub fn is_stream(v: &PdfValue) -> (r: bool)
    ensures
        r == (v@ is Stream),
{
    match v {
        PdfValue::Stream(..) => true,
        _ => false,
    }
}

proof fn lemma_same_before_skip(objs: Seq<(ObjId, PdfView)>, i: int, from: int, to: int)
    requires
        0 <= from <= to <= i,
        forall|k: int| from <= k < to ==> !(objs[k].1 is Stream && same(objs[k].1, objs[i].1)),
    ensures
        same_before(objs, i, from) == same_before(objs, i, to),
    decreases to - from,
{
    if from < to {
        lemma_same_before_skip(objs, i, from + 1, to);
    }
}

/// The redirections of one pass, and which objects are duplicates.
fn find_merges(objs: &Vec<(ObjId, PdfValue)>) -> (r: (Vec<(ObjId, ObjId)>, Vec<bool>))
    ensures
        r.0@ == merges(objs_view(objs@), objs@.len() as int),
        r.1@.len() == objs@.len(),
        forall|i: int| 0 <= i < objs@.len() ==> r.1@[i] == (dup_of(objs_view(objs@), i) is Some),
{
    let ghost ov = objs_view(objs@);
    let mut m: Vec<(ObjId, ObjId)> = Vec::new();
    let mut dup: Vec<bool> = Vec::new();
    let mut i: usize = 0;
    while i < objs.len()
        invariant
            ov == objs_view(objs@),
            i <= objs.len(),
            m@ == merges(ov, i as int),
            dup@.len() == i,
            forall|j: int| 0 <= j < i ==> dup@[j] == (dup_of(ov, j) is Some),
        decreases objs.len() - i,
    {
        let mut found: Option<usize> = None;
        if is_stream(&objs[i].1) {
            let mut k: usize = 0;
            while k < i && found.is_none()
                invariant
                    ov == objs_view(objs@),
                    i < objs.len(),
                    k <= i,
                    ov[i as int].1 is Stream,
                    found.is_none() ==> same_before(ov, i as int, 0) == same_before(ov, i as int, k as int),
                    found matches Some(x) ==> same_before(ov, i as int, 0) == Some(x as int) && x < i,
                decreases i - k + (if found.is_none() { 1int } else { 0int }),
            {
                if is_stream(&objs[k].1) && same_value(&objs[k].1, &objs[i].1) {
                    found = Some(k);
                } else {
                    k += 1;
                }
            }
        }
        proof {
            assert(dup_of(ov, i as int) == match found { Some(x) => Some(x as int), None => None::<int> });
        }
        match found {
            Some(k) => {
                m.push((objs[i].0, objs[k].0));
                dup.push(true);
            },
            None => {
                dup.push(false);
            },
        }
        i += 1;
    }
    (m, dup)
}

/// The objects that are not duplicates, with their references redirected by `m`.
fn keep_remapped(objs: &Vec<(ObjId, PdfValue)>, dup: &Vec<bool>, m: &Vec<(ObjId, ObjId)>) -> (r: Vec<
    (ObjId, PdfValue),
>)
    requires
        dup@.len() == objs@.len(),
        forall|i: int| 0 <= i < objs@.len() ==> dup@[i] == (dup_of(objs_view(objs@), i) is Some),
    ensures
        objs_view(r@) == kept(objs_view(objs@), m@, objs@.len() as int),
{
    let ghost ov = objs_view(objs@);
    let mut r: Vec<(ObjId, PdfValue)> = Vec::new();
    let mut i: usize = 0;
    proof {
        assert(objs_view(r@) =~= kept(ov, m@, 0));
    }
    while i < objs.len()
        invariant
            ov == objs_view(objs@),
            dup@.len() == objs@.len(),
            forall|j: int| 0 <= j < objs@.len() ==> dup@[j] == (dup_of(ov, j) is Some),
            i <= objs.len(),
            objs_view(r@) == kept(ov, m@, i as int),
        decreases objs.len() - i,
    {
        if !dup[i] {
            let ghost before = r@;
            let v = remapped(&objs[i].1, m);
            let ghost e = (objs@[i as int].0, v@);
            r.push((objs[i].0, v));
            proof {
                assert(objs_view(r@) =~= objs_view(before).push(e));
            }
        }
        i += 1;
    }
    r
}

/// Dictionary entries with their references redirected by `m`, kept in place.
fn remap_all(d: Vec<(Vec<u8>, PdfValue)>, m: &Vec<(ObjId, ObjId)>) -> (r: Vec<(Vec<u8>, PdfValue)>)
    ensures
        dict_view(r@) == remap_entries(dict_view(d@), m@),
{
    remapped_entries(&d, m)
}

/// Collapses duplicate stream objects into one shared object: passes, each redirecting every
/// duplicate stream (one the same as an earlier stream, see `same`) to the first stream it
/// duplicates, dropping it, and redirecting every reference of the remaining objects and of the
/// trailer, until a pass finds none. Objects are in ascending number order.
pub fn dedupe_objects(objects: Vec<(ObjId, PdfValue)>, trailer_entries: Vec<(Vec<u8>, PdfValue)>) -> (r: (
    Vec<(ObjId, PdfValue)>,
    Vec<(Vec<u8>, PdfValue)>,
))
    ensures
        (objs_view(r.0@), dict_view(r.1@)) == deduped(objs_view(objects@), dict_view(trailer_entries@)),
{
    let ghost goal = deduped(objs_view(objects@), dict_view(trailer_entries@));
    let mut objs = objects;
    let mut trailer = trailer_entries;
    loop
        invariant
            goal == deduped(objs_view(objs@), dict_view(trailer@)),
            goal == deduped(objs_view(objects@), dict_view(trailer_entries@)),
        decreases objs@.len(),
    {
        let (m, dup) = find_merges(&objs);
        if m.len() == 0 {
            proof {
                assert(merges(objs_view(objs@), objs_view(objs@).len() as int).len() == 0);
                assert(deduped(objs_view(objs@), dict_view(trailer@)) == (objs_view(objs@), dict_view(trailer@)));
                assert(goal == (objs_view(objs@), dict_view(trailer@)));
            }
            return (objs, trailer);
        }
        let next = keep_remapped(&objs, &dup, &m);
        let next_trailer = remap_all(trailer, &m);
        proof {
            lemma_kept_merges_len(objs_view(objs@), m@, objs@.len() as int);
        }
        objs = next;
        trailer = next_trailer;
    }
}

}

verus! {

proof fn lemma_merges_empty(objs: Seq<(ObjId, PdfView)>, n: int)
    requires
        0 <= n,
    ensures
        merges(objs, n).len() == 0 <==> forall|j: int| 0 <= j < n ==> (#[trigger] dup_of(objs, j)) is None,
    decreases n,
{
    if n > 0 {
        lemma_merges_empty(objs, n - 1);
    }
}

proof fn lemma_same_before_none(objs: Seq<(ObjId, PdfView)>, i: int, from: int)
    requires
        0 <= from <= i,
        same_before(objs, i, from) is None,
    ensures
        forall|k: int| from <= k < i ==> !(objs[k].1 is Stream && same(#[trigger] objs[k].1, objs[i].1)),
    decreases i - from,
{
    if from < i {
        lemma_same_before_none(objs, i, from + 1);
    }
}

proof fn lemma_deduped_fixpoint(objs: Seq<(ObjId, PdfView)>, trailer: Seq<(Seq<u8>, PdfView)>)
    ensures
        merges(deduped(objs, trailer).0, deduped(objs, trailer).0.len() as int).len() == 0,
    decreases objs.len(),
{
    let m = merges(objs, objs.len() as int);
    if m.len() != 0 {
        lemma_kept_merges_len(objs, m, objs.len() as int);
        lemma_deduped_fixpoint(kept(objs, m, objs.len() as int), remap_entries(trailer, m));
    }
}

/// After deduplication no stream is the same as an earlier stream: every duplicate has been
/// collapsed into one shared object.
pub proof fn lemma_deduped_streams_distinct(
    objs: Seq<(ObjId, PdfView)>,
    trailer: Seq<(Seq<u8>, PdfView)>,
    i: int,
    j: int,
)
    requires
        0 <= i < j < deduped(objs, trailer).0.len(),
        deduped(objs, trailer).0[i].1 is Stream,
        deduped(objs, trailer).0[j].1 is Stream,
    ensures
        !same(deduped(objs, trailer).0[i].1, deduped(objs, trailer).0[j].1),
{
    let o = deduped(objs, trailer).0;
    lemma_deduped_fixpoint(objs, trailer);
    lemma_merges_empty(o, o.len() as int);
    assert(dup_of(o, j) is None);
    lemma_same_before_none(o, j, 0);
}

/// Deduplicating again changes nothing.
pub proof fn lemma_deduped_idempotent(objs: Seq<(ObjId, PdfView)>, trailer: Seq<(Seq<u8>, PdfView)>)
    ensures
        deduped(deduped(objs, trailer).0, deduped(objs, trailer).1) == deduped(objs, trailer),
{
    lemma_deduped_fixpoint(objs, trailer);
}

}

verus! {

proof fn lemma_value_from_found(e: Seq<(Seq<u8>, PdfView)>, k: Seq<u8>, j: int)
    requires
        value_from(e, k, j) is Some,
    ensures
        exists|t: int| 0 <= t < e.len() && #[trigger] e[t].0 == k && e[t].1 == value_from(e, k, j)->Some_0,
    decreases e.len() - j,
{
    if 0 <= j < e.len() && e[j].0 != k {
        lemma_value_from_found(e, k, j + 1);
    }
}

proof fn lemma_same_entries_transitive(
    d: Seq<(Seq<u8>, PdfView)>,
    e: Seq<(Seq<u8>, PdfView)>,
    f: Seq<(Seq<u8>, PdfView)>,
    a: PdfView,
)
    requires
        d.len() == e.len() && forall|i: int|
            0 <= i < d.len() ==> value_of(e, #[trigger] d[i].0) is Some && same(d[i].1, value_of(e, d[i].0)->Some_0),
        e.len() == f.len() && forall|i: int|
            0 <= i < e.len() ==> value_of(f, #[trigger] e[i].0) is Some && same(e[i].1, value_of(f, e[i].0)->Some_0),
        (a is Dictionary && a->Dictionary_0 == d) || (a is Stream && a->Stream_0 == d),
    ensures
        d.len() == f.len() && forall|i: int|
            0 <= i < d.len() ==> value_of(f, #[trigger] d[i].0) is Some && same(d[i].1, value_of(f, d[i].0)->Some_0),
    decreases a, 0nat,
{
    assert forall|i: int| 0 <= i < d.len() implies value_of(f, #[trigger] d[i].0) is Some && same(
        d[i].1,
        value_of(f, d[i].0)->Some_0,
    ) by {
        let k = d[i].0;
        lemma_value_from_found(e, k, 0);
        let t = choose|t: int| 0 <= t < e.len() && #[trigger] e[t].0 == k && e[t].1 == value_of(e, k)->Some_0;
        assert(value_of(f, e[t].0) is Some);
        lemma_same_transitive(d[i].1, e[t].1, value_of(f, k)->Some_0);
    }
}

/// `same` is transitive.
pub proof fn lemma_same_transitive(a: PdfView, b: PdfView, c: PdfView)
    requires
        same(a, b),
        same(b, c),
    ensures
        same(a, c),
    decreases a, 1nat,
{
    match (a, b, c) {
        (PdfView::Array(xs), PdfView::Array(ys), PdfView::Array(zs)) => {
            assert forall|i: int| 0 <= i < xs.len() implies same(xs[i], #[trigger] zs[i]) by {
                assert(same(xs[i], ys[i]));
                assert(same(ys[i], zs[i]));
                lemma_same_transitive(xs[i], ys[i], zs[i]);
            }
        },
        (PdfView::Dictionary(d), PdfView::Dictionary(e), PdfView::Dictionary(f)) => {
            lemma_same_entries_transitive(d, e, f, a);
        },
        (PdfView::Stream(d, _, _), PdfView::Stream(e, _, _), PdfView::Stream(f, _, _)) => {
            lemma_same_entries_transitive(d, e, f, a);
        },
        _ => {},
    }
}

}

verus! {

/// `v` holds a reference to the object `id`, at any depth.
pub open spec fn mentions(v: PdfView, id: ObjId) -> bool
    decreases v,
{
    match v {
        PdfView::Reference(n, g) => (n, g) == id,
        PdfView::Array(xs) => exists|i: int| 0 <= i < xs.len() && mentions(#[trigger] xs[i], id),
        PdfView::Dictionary(d) => exists|i: int| 0 <= i < d.len() && mentions(#[trigger] d[i].1, id),
        PdfView::Stream(d, _, _) => exists|i: int| 0 <= i < d.len() && mentions(#[trigger] d[i].1, id),
        _ => false,
    }
}

/// Some object's value refers to `id`.
pub open spec fn objs_mention(objs: Seq<(ObjId, PdfView)>, id: ObjId) -> bool {
    exists|k: int| 0 <= k < objs.len() && mentions(#[trigger] objs[k].1, id)
}

/// Some entry's value refers to `id`.
pub open spec fn entries_mention(d: Seq<(Seq<u8>, PdfView)>, id: ObjId) -> bool {
    exists|k: int| 0 <= k < d.len() && mentions(#[trigger] d[k].1, id)
}

/// Some object has the number `id`.
pub open spec fn has_id(objs: Seq<(ObjId, PdfView)>, id: ObjId) -> bool {
    exists|k: int| 0 <= k < objs.len() && #[trigger] objs[k].0 == id
}

/// No two objects have the same number, as in a PDF document.
pub open spec fn distinct_ids(objs: Seq<(ObjId, PdfView)>) -> bool {
    forall|i: int, j: int| 0 <= i < j < objs.len() ==> #[trigger] objs[i].0 != #[trigger] objs[j].0
}

/// Values that are the same refer to the same objects: whatever `a` refers to, at any depth,
/// `b` refers to as well. So two streams are merged only when their dictionaries name the
/// same objects.
pub proof fn lemma_same_refers_alike(a: PdfView, b: PdfView, id: ObjId)
    requires
        same(a, b),
        mentions(a, id),
    ensures
        mentions(b, id),
    decreases a,
{
    match (a, b) {
        (PdfView::Array(xs), PdfView::Array(ys)) => {
            let i = choose|i: int| 0 <= i < xs.len() && mentions(#[trigger] xs[i], id);
            assert(same(xs[i], ys[i]));
            lemma_same_refers_alike(xs[i], ys[i], id);
            assert(mentions(ys[i], id));
        },
        (PdfView::Dictionary(d), PdfView::Dictionary(e)) => {
            let i = choose|i: int| 0 <= i < d.len() && mentions(#[trigger] d[i].1, id);
            let k = d[i].0;
            assert(value_of(e, k) is Some);
            lemma_same_refers_alike(d[i].1, value_of(e, k)->Some_0, id);
            lemma_value_from_found(e, k, 0);
            let t = choose|t: int| 0 <= t < e.len() && #[trigger] e[t].0 == k && e[t].1 == value_of(e, k)->Some_0;
            assert(mentions(e[t].1, id));
        },
        (PdfView::Stream(d, _, _), PdfView::Stream(e, _, _)) => {
            let i = choose|i: int| 0 <= i < d.len() && mentions(#[trigger] d[i].1, id);
            let k = d[i].0;
            assert(value_of(e, k) is Some);
            lemma_same_refers_alike(d[i].1, value_of(e, k)->Some_0, id);
            lemma_value_from_found(e, k, 0);
            let t = choose|t: int| 0 <= t < e.len() && #[trigger] e[t].0 == k && e[t].1 == value_of(e, k)->Some_0;
            assert(mentions(e[t].1, id));
        },
        _ => {},
    }
}

/// Values that are the same agree at their leaves: a null, boolean, number, name or reference
/// is the same only as an equal one; a string only as a string of the same bytes; a stream
/// only as a stream of the same content; an array only as an array as long.
pub proof fn lemma_same_leaves_equal(a: PdfView, b: PdfView)
    requires
        same(a, b),
    ensures
        (a is Null || a is Boolean || a is Integer || a is Real || a is Name || a is Reference) ==> b == a,
        a is Str ==> b is Str && b->Str_0 == a->Str_0,
        a is Stream ==> b is Stream && b->Stream_1 == a->Stream_1,
        a is Array ==> b is Array && b->Array_0.len() == a->Array_0.len(),
        a is Dictionary ==> b is Dictionary,
{
}

proof fn lemma_mentions_remap(v: PdfView, m: Seq<(ObjId, ObjId)>, id: ObjId)
    ensures
        mentions(remap(v, m), id) ==> exists|r: ObjId| #[trigger] mentions(v, r) && target(m, r) == id,
    decreases v,
{
    if mentions(remap(v, m), id) {
        match v {
            PdfView::Reference(n, g) => {
                let t = target(m, (n, g));
                assert((t.0, t.1) == t);
                assert(mentions(v, (n, g)));
            },
            PdfView::Array(xs) => {
                let ys = remap(v, m)->Array_0;
                let i = choose|i: int| 0 <= i < ys.len() && mentions(#[trigger] ys[i], id);
                assert(ys[i] == remap(xs[i], m));
                lemma_mentions_remap(xs[i], m, id);
                let r = choose|r: ObjId| #[trigger] mentions(xs[i], r) && target(m, r) == id;
                assert(mentions(v, r));
            },
            PdfView::Dictionary(d) => {
                lemma_remap_dict(d, Seq::empty(), false, m);
                let e = remap_entries(d, m);
                let i = choose|i: int| 0 <= i < e.len() && mentions(#[trigger] e[i].1, id);
                assert(e[i].1 == remap(d[i].1, m));
                lemma_mentions_remap(d[i].1, m, id);
                let r = choose|r: ObjId| #[trigger] mentions(d[i].1, r) && target(m, r) == id;
                assert(mentions(v, r));
            },
            PdfView::Stream(d, c, f) => {
                lemma_remap_dict(d, c, f, m);
                let e = remap_entries(d, m);
                let i = choose|i: int| 0 <= i < e.len() && mentions(#[trigger] e[i].1, id);
                assert(e[i].1 == remap(d[i].1, m));
                lemma_mentions_remap(d[i].1, m, id);
                let r = choose|r: ObjId| #[trigger] mentions(d[i].1, r) && target(m, r) == id;
                assert(mentions(v, r));
            },
            _ => {},
        }
    }
}

}

verus! {

proof fn lemma_same_before_found(objs: Seq<(ObjId, PdfView)>, i: int, from: int)
    requires
        0 <= from,
        same_before(objs, i, from) is Some,
    ensures
        ({
            let k = same_before(objs, i, from)->Some_0;
            &&& from <= k < i
            &&& objs[k].1 is Stream
            &&& same(objs[k].1, objs[i].1)
            &&& forall|j: int| from <= j < k ==> !(objs[j].1 is Stream && same(#[trigger] objs[j].1, objs[i].1))
        }),
    decreases i - from,
{
    if from < i && !(objs[from].1 is Stream && same(objs[from].1, objs[i].1)) {
        lemma_same_before_found(objs, i, from + 1);
    }
}

/// The stream a duplicate is sent to comes before it and is no duplicate itself.
proof fn lemma_dup_target(objs: Seq<(ObjId, PdfView)>, i: int)
    requires
        0 <= i < objs.len(),
        dup_of(objs, i) is Some,
    ensures
        0 <= dup_of(objs, i)->Some_0 < i,
        dup_of(objs, dup_of(objs, i)->Some_0) is None,
{
    let k = dup_of(objs, i)->Some_0;
    lemma_same_before_found(objs, i, 0);
    if dup_of(objs, k) is Some {
        lemma_same_before_found(objs, k, 0);
        let k2 = dup_of(objs, k)->Some_0;
        lemma_same_transitive(objs[k2].1, objs[k].1, objs[i].1);
        assert(!(objs[k2].1 is Stream && same(objs[k2].1, objs[i].1)));
    }
}

/// The redirection of the duplicate at `i`: its number to that of the stream it duplicates.
spec fn merge_of(objs: Seq<(ObjId, PdfView)>, i: int) -> (ObjId, ObjId) {
    (objs[i].0, objs[dup_of(objs, i)->Some_0].0)
}

/// Redirection `s` of the first `n` objects' pass sends a duplicate to the stream it duplicates.
spec fn merge_from_dup(objs: Seq<(ObjId, PdfView)>, n: int, s: int) -> bool {
    exists|i: int| 0 <= i < n && #[trigger] dup_of(objs, i) is Some && merges(objs, n)[s] == merge_of(objs, i)
}

proof fn lemma_merges_entries(objs: Seq<(ObjId, PdfView)>, n: int)
    requires
        0 <= n <= objs.len(),
    ensures
        forall|s: int| 0 <= s < merges(objs, n).len() ==> #[trigger] merge_from_dup(objs, n, s),
    decreases n,
{
    if n > 0 {
        lemma_merges_entries(objs, n - 1);
        let prev = merges(objs, n - 1);
        assert forall|s: int| 0 <= s < merges(objs, n).len() implies #[trigger] merge_from_dup(objs, n, s) by {
            if s < prev.len() {
                assert(merge_from_dup(objs, n - 1, s));
                let i = choose|i: int|
                    0 <= i < n - 1 && #[trigger] dup_of(objs, i) is Some && prev[s] == merge_of(objs, i);
                assert(merges(objs, n)[s] === prev[s]);
                assert(dup_of(objs, i) is Some);
            } else {
                assert(dup_of(objs, n - 1) is Some);
                assert(merges(objs, n)[s] === merge_of(objs, n - 1));
            }
        }
    }
}

/// Every duplicate is redirected.
proof fn lemma_merges_sources(objs: Seq<(ObjId, PdfView)>, n: int, i: int)
    requires
        0 <= i < n <= objs.len(),
        dup_of(objs, i) is Some,
    ensures
        exists|s: int| 0 <= s < merges(objs, n).len() && #[trigger] merges(objs, n)[s].0 == objs[i].0,
    decreases n,
{
    let prev = merges(objs, n - 1);
    if i < n - 1 {
        lemma_merges_sources(objs, n - 1, i);
        let s = choose|s: int| 0 <= s < prev.len() && #[trigger] prev[s].0 == objs[i].0;
        assert(merges(objs, n)[s] == prev[s]);
    } else {
        assert(merges(objs, n)[prev.len() as int].0 == objs[i].0);
    }
}

/// Where `m` sends `r`: `r` itself when no redirection names it, else the target of one that does.
proof fn lemma_target_cases(m: Seq<(ObjId, ObjId)>, r: ObjId, k: int)
    requires
        0 <= k,
    ensures
        (target_from(m, r, k) == r && forall|s: int| k <= s < m.len() ==> #[trigger] m[s].0 != r) || exists|
            s: int,
        |
            k <= s < m.len() && #[trigger] m[s].0 == r && target_from(m, r, k) == m[s].1,
    decreases m.len() - k,
{
    if k < m.len() && m[k].0 != r {
        lemma_target_cases(m, r, k + 1);
    }
}

/// The objects a pass keeps: each comes from an object that is no duplicate, with its references
/// redirected; every such object is kept; and the numbers stay distinct.
proof fn lemma_kept_entries(objs: Seq<(ObjId, PdfView)>, m: Seq<(ObjId, ObjId)>, n: int)
    requires
        0 <= n <= objs.len(),
    ensures
        forall|k: int|
            #![trigger kept(objs, m, n)[k]]
            0 <= k < kept(objs, m, n).len() ==> exists|i: int|
                0 <= i < n && #[trigger] dup_of(objs, i) is None && kept(objs, m, n)[k] == (
                    objs[i].0,
                    remap(objs[i].1, m),
                ),
        forall|i: int| 0 <= i < n && #[trigger] dup_of(objs, i) is None ==> has_id(kept(objs, m, n), objs[i].0),
        distinct_ids(objs) ==> distinct_ids(kept(objs, m, n)),
    decreases n,
{
    if n > 0 {
        lemma_kept_entries(objs, m, n - 1);
        let prev = kept(objs, m, n - 1);
        let cur = kept(objs, m, n);
        assert forall|k: int| #![trigger cur[k]] 0 <= k < cur.len() implies exists|i: int|
            0 <= i < n && #[trigger] dup_of(objs, i) is None && cur[k] == (objs[i].0, remap(objs[i].1, m)) by {
            if k < prev.len() {
                assert(cur[k] == prev[k]);
            } else {
                assert(dup_of(objs, n - 1) is None);
            }
        }
        assert forall|i: int| 0 <= i < n && #[trigger] dup_of(objs, i) is None implies has_id(cur, objs[i].0) by {
            if i < n - 1 {
                let k = choose|k: int| 0 <= k < prev.len() && #[trigger] prev[k].0 == objs[i].0;
                assert(cur[k] == prev[k]);
            } else {
                assert(cur[prev.len() as int].0 == objs[i].0);
            }
        }
        if distinct_ids(objs) {
            assert forall|a: int, b: int| 0 <= a < b < cur.len() implies #[trigger] cur[a].0 != #[trigger] cur[b].0 by {
                if b < prev.len() {
                    assert(cur[a] == prev[a] && cur[b] == prev[b]);
                } else {
                    let i = choose|i: int|
                        0 <= i < n - 1 && #[trigger] dup_of(objs, i) is None && prev[a] == (
                            objs[i].0,
                            remap(objs[i].1, m),
                        );
                    assert(cur[a] == prev[a]);
                    assert(cur[b].0 == objs[n - 1].0);
                }
            }
        }
    }
}

}

verus! {

/// Where one pass sends a reference: never to a duplicate it drops.
proof fn lemma_target_kept(objs: Seq<(ObjId, PdfView)>, r: ObjId, i: int)
    requires
        distinct_ids(objs),
        0 <= i < objs.len(),
        dup_of(objs, i) is Some,
    ensures
        target(merges(objs, objs.len() as int), r) != objs[i].0,
{
    let n = objs.len() as int;
    let m = merges(objs, n);
    lemma_target_cases(m, r, 0);
    lemma_merges_sources(objs, n, i);
    if exists|s: int| 0 <= s < m.len() && #[trigger] m[s].0 == r && target_from(m, r, 0) == m[s].1 {
        let s = choose|s: int| 0 <= s < m.len() && #[trigger] m[s].0 == r && target_from(m, r, 0) == m[s].1;
        lemma_merges_entries(objs, n);
        assert(merge_from_dup(objs, n, s));
        let j = choose|j: int| 0 <= j < n && #[trigger] dup_of(objs, j) is Some && m[s] == merge_of(objs, j);
        lemma_dup_target(objs, j);
        let k = dup_of(objs, j)->Some_0;
        if k != i {
            if k < i {
                assert(objs[k].0 != objs[i].0);
            } else {
                assert(objs[i].0 != objs[k].0);
            }
        }
    }
}

/// A reference that a pass sends to `id`, when `id` is no object's number, was a reference to `id`.
proof fn lemma_target_absent(objs: Seq<(ObjId, PdfView)>, r: ObjId, id: ObjId)
    requires
        !has_id(objs, id),
        target(merges(objs, objs.len() as int), r) == id,
    ensures
        r == id,
{
    let n = objs.len() as int;
    let m = merges(objs, n);
    lemma_target_cases(m, r, 0);
    if exists|s: int| 0 <= s < m.len() && #[trigger] m[s].0 == r && target_from(m, r, 0) == m[s].1 {
        let s = choose|s: int| 0 <= s < m.len() && #[trigger] m[s].0 == r && target_from(m, r, 0) == m[s].1;
        lemma_merges_entries(objs, n);
        assert(merge_from_dup(objs, n, s));
        let j = choose|j: int| 0 <= j < n && #[trigger] dup_of(objs, j) is Some && m[s] == merge_of(objs, j);
        lemma_dup_target(objs, j);
        let k = dup_of(objs, j)->Some_0;
        assert(objs[k].0 == id);
    }
}

/// One pass drops the duplicate numbered `id`, and leaves no reference to it.
proof fn lemma_pass_drops(objs: Seq<(ObjId, PdfView)>, trailer: Seq<(Seq<u8>, PdfView)>, i: int)
    requires
        distinct_ids(objs),
        0 <= i < objs.len(),
        dup_of(objs, i) is Some,
    ensures
        ({
            let n = objs.len() as int;
            let m = merges(objs, n);
            let id = objs[i].0;
            &&& !has_id(kept(objs, m, n), id)
            &&& !objs_mention(kept(objs, m, n), id)
            &&& !entries_mention(remap_entries(trailer, m), id)
        }),
{
    let n = objs.len() as int;
    let m = merges(objs, n);
    let id = objs[i].0;
    let k2 = kept(objs, m, n);
    let t2 = remap_entries(trailer, m);
    lemma_kept_entries(objs, m, n);
    assert forall|v: PdfView| !mentions(#[trigger] remap(v, m), id) by {
        lemma_mentions_remap(v, m, id);
        if mentions(remap(v, m), id) {
            let r = choose|r: ObjId| #[trigger] mentions(v, r) && target(m, r) == id;
            lemma_target_kept(objs, r, i);
        }
    }
    assert forall|k: int| 0 <= k < k2.len() implies !mentions(#[trigger] k2[k].1, id) && k2[k].0 != id by {
        let j = choose|j: int| 0 <= j < n && #[trigger] dup_of(objs, j) is None && k2[k] == (objs[j].0, remap(objs[j].1, m));
        if j < i {
            assert(objs[j].0 != objs[i].0);
        } else if j > i {
            assert(objs[i].0 != objs[j].0);
        }
    }
    assert forall|k: int| 0 <= k < t2.len() implies !mentions(#[trigger] t2[k].1, id) by {
        assert(t2[k].1 == remap(trailer[k].1, m));
    }
}

/// A pass keeps a number out, and references to it out, when they are out already.
proof fn lemma_pass_keeps_out(objs: Seq<(ObjId, PdfView)>, trailer: Seq<(Seq<u8>, PdfView)>, id: ObjId)
    requires
        !has_id(objs, id),
        !objs_mention(objs, id),
        !entries_mention(trailer, id),
    ensures
        ({
            let n = objs.len() as int;
            let m = merges(objs, n);
            &&& !has_id(kept(objs, m, n), id)
            &&& !objs_mention(kept(objs, m, n), id)
            &&& !entries_mention(remap_entries(trailer, m), id)
        }),
{
    let n = objs.len() as int;
    let m = merges(objs, n);
    let k2 = kept(objs, m, n);
    let t2 = remap_entries(trailer, m);
    lemma_kept_entries(objs, m, n);
    assert forall|v: PdfView| !mentions(v, id) implies !mentions(#[trigger] remap(v, m), id) by {
        lemma_mentions_remap(v, m, id);
        if mentions(remap(v, m), id) {
            let r = choose|r: ObjId| #[trigger] mentions(v, r) && target(m, r) == id;
            lemma_target_absent(objs, r, id);
        }
    }
    assert forall|k: int| 0 <= k < k2.len() implies !mentions(#[trigger] k2[k].1, id) && k2[k].0 != id by {
        let j = choose|j: int| 0 <= j < n && #[trigger] dup_of(objs, j) is None && k2[k] == (objs[j].0, remap(objs[j].1, m));
        assert(!mentions(objs[j].1, id));
    }
    assert forall|k: int| 0 <= k < t2.len() implies !mentions(#[trigger] t2[k].1, id) by {
        assert(t2[k].1 == remap(trailer[k].1, m));
        assert(!mentions(trailer[k].1, id));
    }
}

proof fn lemma_deduped_keeps_out(objs: Seq<(ObjId, PdfView)>, trailer: Seq<(Seq<u8>, PdfView)>, id: ObjId)
    requires
        !has_id(objs, id),
        !objs_mention(objs, id),
        !entries_mention(trailer, id),
    ensures
        !objs_mention(deduped(objs, trailer).0, id),
        !entries_mention(deduped(objs, trailer).1, id),
    decreases objs.len(),
{
    let n = objs.len() as int;
    let m = merges(objs, n);
    if m.len() != 0 {
        lemma_kept_merges_len(objs, m, n);
        lemma_pass_keeps_out(objs, trailer, id);
        lemma_deduped_keeps_out(kept(objs, m, n), remap_entries(trailer, m), id);
    }
}

/// Every reference to a stream that deduplication drops is redirected to the stream it keeps:
/// no object kept, and no trailer entry, refers to an object of the document that is gone.
pub proof fn lemma_deduped_repoints_references(
    objs: Seq<(ObjId, PdfView)>,
    trailer: Seq<(Seq<u8>, PdfView)>,
    id: ObjId,
)
    requires
        distinct_ids(objs),
        has_id(objs, id),
        !has_id(deduped(objs, trailer).0, id),
    ensures
        !objs_mention(deduped(objs, trailer).0, id),
        !entries_mention(deduped(objs, trailer).1, id),
    decreases objs.len(),
{
    let n = objs.len() as int;
    let m = merges(objs, n);
    if m.len() != 0 {
        let k2 = kept(objs, m, n);
        let t2 = remap_entries(trailer, m);
        lemma_kept_merges_len(objs, m, n);
        lemma_kept_entries(objs, m, n);
        if has_id(k2, id) {
            lemma_deduped_repoints_references(k2, t2, id);
        } else {
            let i = choose|i: int| 0 <= i < objs.len() && #[trigger] objs[i].0 == id;
            if dup_of(objs, i) is None {
                assert(has_id(k2, objs[i].0));
            }
            lemma_pass_drops(objs, trailer, i);
            lemma_deduped_keeps_out(k2, t2, id);
        }
    }
}

}

verus! {

#[verifier::external_type_specification]
#[verifier::external_body]
pub struct ExPdfDictionary(lopdf::Dictionary);

/// Reads one `lopdf::Object` that holds no other object into the model, variant for variant (a
/// real number keeps its bit pattern and a copy of itself). Nothing is claimed of it.
#[verifier::external_body]
fn scalar_of(o: &lopdf::Object) -> PdfValue {
    match o {
        lopdf::Object::Boolean(b) => PdfValue::Boolean(*b),
        lopdf::Object::Integer(i) => PdfValue::Integer(*i),
        lopdf::Object::Real(r) => PdfValue::Real(PdfReal { bits: r.to_bits(), raw: o.clone() }),
        lopdf::Object::Name(n) => PdfValue::Name(n.clone()),
        lopdf::Object::String(s, lopdf::StringFormat::Literal) => PdfValue::Str(s.clone(), StrFormat::Literal),
        lopdf::Object::String(s, lopdf::StringFormat::Hexadecimal) => PdfValue::Str(s.clone(), StrFormat::Hexadecimal),
        lopdf::Object::Reference(id) => PdfValue::Reference(id.0, id.1),
        _ => PdfValue::Null,
    }
}

/// Reads a `lopdf::Object` into the model, variant for variant. Nothing is claimed of it.
#[verifier::external_body]
fn value_of_object(o: &lopdf::Object) -> PdfValue {
    match o {
        lopdf::Object::Array(a) => PdfValue::Array(a.iter().map(value_of_object).collect()),
        lopdf::Object::Dictionary(d) => PdfValue::Dictionary(entries_of(d)),
        lopdf::Object::Stream(s) => PdfValue::Stream(entries_of(&s.dict), s.content.clone(), s.allows_compression),
        _ => scalar_of(o),
    }
}

/// Reads the entries of a `lopdf::Dictionary`, in its order. Nothing is claimed of it.
#[verifier::external_body]
fn entries_of(d: &lopdf::Dictionary) -> Vec<(Vec<u8>, PdfValue)> {
    d.iter().map(|(k, v)| (k.clone(), value_of_object(v))).collect()
}

/// Writes a model value that holds no other value back as a `lopdf::Object`, variant for
/// variant (a real number as the copy it kept). Nothing is claimed of it.
#[verifier::external_body]
fn object_of_scalar(v: &PdfValue) -> lopdf::Object {
    match v {
        PdfValue::Boolean(b) => lopdf::Object::Boolean(*b),
        PdfValue::Integer(i) => lopdf::Object::Integer(*i),
        PdfValue::Real(r) => r.raw.clone(),
        PdfValue::Name(n) => lopdf::Object::Name(n.clone()),
        PdfValue::Str(s, StrFormat::Literal) => lopdf::Object::String(s.clone(), lopdf::StringFormat::Literal),
        PdfValue::Str(s, StrFormat::Hexadecimal) => lopdf::Object::String(s.clone(), lopdf::StringFormat::Hexadecimal),
        PdfValue::Reference(n, g) => lopdf::Object::Reference((*n, *g)),
        _ => lopdf::Object::Null,
    }
}

/// Writes a model value back as a `lopdf::Object`, variant for variant. Nothing is claimed of it.
#[verifier::external_body]
fn object_of_value(v: &PdfValue) -> lopdf::Object {
    match v {
        PdfValue::Array(a) => lopdf::Object::Array(a.iter().map(object_of_value).collect()),
        PdfValue::Dictionary(d) => lopdf::Object::Dictionary(dictionary_of(d)),
        PdfValue::Stream(d, c, f) => lopdf::Object::Stream(lopdf::Stream {
            dict: dictionary_of(d),
            content: c.clone(),
            allows_compression: *f,
            start_position: None,
        }),
        _ => object_of_scalar(v),
    }
}

/// Writes dictionary entries back as a `lopdf::Dictionary`, in their order. Nothing is claimed
/// of it.
#[verifier::external_body]
fn dictionary_of(d: &Vec<(Vec<u8>, PdfValue)>) -> lopdf::Dictionary {
    d.iter().map(|(k, v)| (k.clone(), object_of_value(v))).collect()
}

/// Whether `lopdf::Document::load_mem` reads the file (header, cross references, objects).
pub uninterp spec fn pdf_readable(bytes: Seq<u8>) -> bool;

/// `lopdf::Document::load_mem`: the document's objects, walked in the order of its `BTreeMap`,
/// and its trailer, read into the model; None when it cannot read the file. Claimed: None
/// exactly when the bytes are not `pdf_readable`, and the object numbers are distinct (they are
/// the map's keys). What is read is not claimed to be a function of the bytes: lopdf may parse
/// on several threads, and an object that two object streams hold then comes from whichever of
/// them was read first; whether reading fails is decided by the bytes alone.
#[verifier::external_body]
pub(crate) fn pdf_load(bytes: &[u8]) -> (r: Option<(Vec<(ObjId, PdfValue)>, Vec<(Vec<u8>, PdfValue)>)>)
    ensures
        r is Some <==> pdf_readable(bytes@),
        r matches Some(d) ==> distinct_ids(objs_view(d.0@)),
{
    let doc = lopdf::Document::load_mem(bytes).ok()?;
    let objs = doc.objects.iter().map(|(id, o)| (*id, value_of_object(o))).collect();
    Some((objs, entries_of(&doc.trailer)))
}

/// The PDF file that `lopdf` writes for the document read from `bytes` once its objects and
/// trailer are replaced and its objects renumbered, or None when it cannot read or write it.
pub uninterp spec fn pdf_rewritten(
    bytes: Seq<u8>,
    objs: Seq<(ObjId, PdfView)>,
    trailer: Seq<(Seq<u8>, PdfView)>,
) -> Option<Seq<u8>>;

/// `lopdf::Document::load_mem`, then the objects and trailer replaced, `renumber_objects` and
/// `save_to`. Claimed: the result is `pdf_rewritten` of its arguments (None exactly when reading
/// or writing fails), and None when the bytes are not `pdf_readable`.
#[verifier::external_body]
pub(crate) fn pdf_store(bytes: &[u8], objs: &Vec<(ObjId, PdfValue)>, trailer: &Vec<(Vec<u8>, PdfValue)>) -> (r: Option<Vec<u8>>)
    ensures
        pdf_rewritten(bytes@, objs_view(objs@), dict_view(trailer@)) == match r {
            Some(b) => Some(b@),
            None => None,
        },
        !pdf_readable(bytes@) ==> r is None,
{
    let mut doc = lopdf::Document::load_mem(bytes).ok()?;
    doc.objects = objs.iter().map(|(id, v)| (*id, object_of_value(v))).collect();
    doc.trailer = dictionary_of(trailer);
    doc.renumber_objects();
    let mut out = Vec::new();
    doc.save_to(&mut out).ok()?;
    Some(out)
}

}
