use vstd::prelude::*;

verus! {

/// Corner treatment for an outward offset. External = convex (bulges away from the shape),
/// internal = concave (notches toward it).
#[derive(Clone, Copy, PartialEq, Eq, Structural, Debug)]
pub enum JoinStyle {
    /// Round the external corners, keep internal corners sharp (natural disk dilation).
    RoundExternal,
    /// Round every corner.
    RoundAll,
    /// Miter every corner (no rounding).
    SharpAll,
}

}

verus! {

/// Face `fj` runs the edge `fi[a] -> fi[a+1]` of face `fi` backwards, at its position `b`.
pub open spec fn shares_edge(fi: Seq<usize>, fj: Seq<usize>, a: int, b: int) -> bool {
    &&& 0 <= a < fi.len()
    &&& 0 <= b < fj.len()
    &&& fj[b] == fi[(a + 1) % (fi.len() as int)]
    &&& fj[(b + 1) % (fj.len() as int)] == fi[a]
}

/// The first position `b >= from` of `fj` that runs edge `a` of `fi` backwards.
pub open spec fn scan_b(fi: Seq<usize>, fj: Seq<usize>, a: int, from: int) -> Option<int>
    decreases fj.len() - from,
{
    if from < 0 || from >= fj.len() {
        None
    } else if shares_edge(fi, fj, a, from) {
        Some(from)
    } else {
        scan_b(fi, fj, a, from + 1)
    }
}

/// The first shared edge, scanning the edges of `fi` in order, and for each the positions of
/// `fj` in order.
pub open spec fn first_shared(fi: Seq<usize>, fj: Seq<usize>, from: int) -> Option<(int, int)>
    decreases fi.len() - from,
{
    if from < 0 || from >= fi.len() {
        None
    } else {
        match scan_b(fi, fj, from, 0) {
            Some(b) => Some((from, b)),
            None => first_shared(fi, fj, from + 1),
        }
    }
}

/// The boundary of the union of two faces glued along a shared edge: `fi` from the edge's end
/// around to its start, then the rest of `fj` (without the two shared vertices).
pub open spec fn glued(fi: Seq<usize>, fj: Seq<usize>, a: int, b: int) -> Seq<usize> {
    let ni = fi.len() as int;
    let nj = fj.len() as int;
    Seq::new(fi.len(), |t: int| fi[(a + 1 + t) % ni]) + Seq::new(
        if nj >= 2 { (nj - 2) as nat } else { 0 },
        |t: int| fj[(b + 2 + t) % nj],
    )
}

proof fn lemma_mod_step(x: int, n: int)
    requires
        0 <= x,
        0 < n,
    ensures
        (if x % n + 1 == n { 0 } else { x % n + 1 }) == (x + 1) % n,
{
    vstd::arithmetic::div_mod::lemma_mod_pos_bound(x, n);
    vstd::arithmetic::div_mod::lemma_mod_pos_bound(x + 1, n);
    vstd::arithmetic::div_mod::lemma_add_mod_noop(x, 1, n);
    if n > 1 {
        vstd::arithmetic::div_mod::lemma_small_mod(1, n as nat);
        if x % n + 1 == n {
            vstd::arithmetic::div_mod::lemma_mod_self_0(n);
        } else {
            vstd::arithmetic::div_mod::lemma_small_mod((x % n + 1) as nat, n as nat);
        }
    }
}

proof fn lemma_scan_b_skip(fi: Seq<usize>, fj: Seq<usize>, a: int, from: int, to: int)
    requires
        0 <= from <= to,
        forall|b: int| from <= b < to ==> !shares_edge(fi, fj, a, b),
    ensures
        scan_b(fi, fj, a, from) == scan_b(fi, fj, a, to),
    decreases to - from,
{
    if from < to {
        lemma_scan_b_skip(fi, fj, a, from + 1, to);
    }
}

proof fn lemma_first_shared_skip(fi: Seq<usize>, fj: Seq<usize>, from: int, to: int)
    requires
        0 <= from <= to,
        forall|a: int| from <= a < to ==> scan_b(fi, fj, a, 0) is None,
    ensures
        first_shared(fi, fj, from) == first_shared(fi, fj, to),
    decreases to - from,
{
    if from < to {
        lemma_first_shared_skip(fi, fj, from + 1, to);
    }
}

/// Glues two faces (vertex-index rings) along the first edge of `fi` that `fj` runs
/// backwards; None if they share no edge. The merge step of convex decomposition, before its
/// convexity test.
pub fn glue_faces(fi: &[usize], fj: &[usize]) -> (r: Option<Vec<usize>>)
    ensures
        match first_shared(fi@, fj@, 0) {
            None => r is None,
            Some((a, b)) => r matches Some(m) && m@ == glued(fi@, fj@, a, b),
        },
{
    let ni = fi.len();
    let nj = fj.len();
    let mut a: usize = 0;
    while a < ni
        invariant
            ni == fi.len(),
            nj == fj.len(),
            a <= ni,
            forall|x: int| 0 <= x < a ==> scan_b(fi@, fj@, x, 0) is None,
        decreases ni - a,
    {
        let u = fi[a];
        let v = fi[(a + 1) % ni];
        let mut b: usize = 0;
        while b < nj
            invariant
                ni == fi.len(),
                nj == fj.len(),
                a < ni,
                b <= nj,
                u == fi@[a as int],
                v == fi@[(a + 1) % (ni as int)],
                forall|y: int| 0 <= y < b ==> !shares_edge(fi@, fj@, a as int, y),
                forall|x: int| 0 <= x < a ==> scan_b(fi@, fj@, x, 0) is None,
            decreases nj - b,
        {
            if fj[b] == v && fj[(b + 1) % nj] == u {
                proof {
                    lemma_scan_b_skip(fi@, fj@, a as int, 0, b as int);
                    lemma_first_shared_skip(fi@, fj@, 0, a as int);
                }
                let mut merged: Vec<usize> = Vec::new();
                let mut k = (a + 1) % ni;
                let mut t: usize = 0;
                while t < ni
                    invariant
                        ni == fi.len(),
                        a < ni,
                        k < ni,
                        t <= ni,
                        k == (a + 1 + t) % (ni as int),
                        merged@ =~= Seq::new(t as nat, |s: int| fi@[(a + 1 + s) % (ni as int)]),
                    decreases ni - t,
                {
                    merged.push(fi[k]);
                    proof {
                        lemma_mod_step((a + 1 + t) as int, ni as int);
                    }
                    k = if k + 1 == ni { 0 } else { k + 1 };
                    t += 1;
                }
                let ghost first = merged@;
                let cnt: usize = if nj >= 2 { nj - 2 } else { 0 };
                let k1 = (b + 1) % nj;
                proof {
                    lemma_mod_step((b + 1) as int, nj as int);
                }
                let mut k = if k1 + 1 == nj { 0 } else { k1 + 1 };
                let mut t2: usize = 0;
                while t2 < cnt
                    invariant
                        nj == fj.len(),
                        b < nj,
                        k < nj,
                        t2 <= cnt,
                        cnt == (if nj >= 2 { nj - 2 } else { 0 }),
                        k == (b + 2 + t2) % (nj as int),
                        merged@ =~= first + Seq::new(t2 as nat, |s: int| fj@[(b + 2 + s) % (nj as int)]),
                    decreases cnt - t2,
                {
                    merged.push(fj[k]);
                    proof {
                        lemma_mod_step((b + 2 + t2) as int, nj as int);
                    }
                    k = if k + 1 == nj { 0 } else { k + 1 };
                    t2 += 1;
                }
                return Some(merged);
            }
            b += 1;
        }
        proof {
            lemma_scan_b_skip(fi@, fj@, a as int, 0, nj as int);
        }
        a += 1;
    }
    proof {
        lemma_first_shared_skip(fi@, fj@, 0, ni as int);
    }
    None
}


/// The vertex-index rings that a list of faces holds.
pub open spec fn rings(fs: Seq<Vec<usize>>) -> Seq<Seq<usize>> {
    fs.map_values(|f: Vec<usize>| f@)
}

/// How many triangles the faces stand for: a face of `n` corners is `n - 2` of them.
pub open spec fn triangle_count(fs: Seq<Seq<usize>>) -> int
    decreases fs.len(),
{
    if fs.len() == 0 {
        0
    } else {
        triangle_count(fs.drop_last()) + fs.last().len() - 2
    }
}

/// The vertex indices that occur in any of the faces.
pub open spec fn corners(fs: Seq<Seq<usize>>) -> Set<usize> {
    Set::new(|v: usize| exists|k: int| 0 <= k < fs.len() && #[trigger] fs[k].contains(v))
}

/// `fi` glued to `fj` along the first edge of `fi` that `fj` runs backwards, if there is one.
pub open spec fn glue(fi: Seq<usize>, fj: Seq<usize>) -> Option<Seq<usize>> {
    match first_shared(fi, fj, 0) {
        Some((a, b)) => Some(glued(fi, fj, a, b)),
        None => None,
    }
}

/// `accept` may answer `false` for the ring `m`.
pub open spec fn refused<F: Fn(&Vec<usize>) -> bool>(accept: F, m: Seq<usize>) -> bool {
    exists|mv: Vec<usize>| mv@ == m && #[trigger] accept.ensures((&mv,), false)
}

/// No face glues to a later one into a ring that `accept` takes.
pub open spec fn maximal<F: Fn(&Vec<usize>) -> bool>(fs: Seq<Seq<usize>>, accept: F) -> bool {
    forall|i: int, j: int|
        #![trigger glue(fs[i], fs[j])]
        0 <= i < j < fs.len() && glue(fs[i], fs[j]) is Some ==> refused(accept, glue(fs[i], fs[j])->0)
}

proof fn lemma_scan_b_found(fi: Seq<usize>, fj: Seq<usize>, a: int, from: int)
    requires
        scan_b(fi, fj, a, from) is Some,
    ensures
        shares_edge(fi, fj, a, scan_b(fi, fj, a, from)->0),
    decreases fj.len() - from,
{
    if from >= 0 && from < fj.len() && !shares_edge(fi, fj, a, from) {
        lemma_scan_b_found(fi, fj, a, from + 1);
    }
}

proof fn lemma_first_shared_found(fi: Seq<usize>, fj: Seq<usize>, from: int)
    ensures
        match first_shared(fi, fj, from) {
            Some((a, b)) => shares_edge(fi, fj, a, b),
            None => true,
        },
    decreases fi.len() - from,
{
    if from >= 0 && from < fi.len() {
        match scan_b(fi, fj, from, 0) {
            Some(b) => lemma_scan_b_found(fi, fj, from, 0),
            None => lemma_first_shared_found(fi, fj, from + 1),
        }
    }
}

proof fn lemma_mod_wrap(x: int, n: int)
    requires
        0 <= x < n,
    ensures
        x % n == x,
        (x + n) % n == x,
{
    vstd::arithmetic::div_mod::lemma_small_mod(x as nat, n as nat);
    vstd::arithmetic::div_mod::lemma_mod_add_multiples_vanish(x, n);
}

/// Gluing keeps exactly the corners of the two faces, and has `|fi| + |fj| - 2` of them.
proof fn lemma_glued_corners(fi: Seq<usize>, fj: Seq<usize>, a: int, b: int)
    requires
        shares_edge(fi, fj, a, b),
    ensures
        fj.len() >= 2 ==> glued(fi, fj, a, b).len() == fi.len() + fj.len() - 2,
        forall|v: usize| #[trigger] glued(fi, fj, a, b).contains(v) <==> fi.contains(v) || fj.contains(v),
{
    let g = glued(fi, fj, a, b);
    let ni = fi.len() as int;
    let nj = fj.len() as int;
    let head = Seq::new(fi.len(), |t: int| fi[(a + 1 + t) % ni]);
    let cnt: nat = if nj >= 2 { (nj - 2) as nat } else { 0 };
    let tail = Seq::new(cnt, |t: int| fj[(b + 2 + t) % nj]);
    assert(g == head + tail);
    assert forall|v: usize| #[trigger] g.contains(v) implies fi.contains(v) || fj.contains(v) by {
        let k = choose|k: int| 0 <= k < g.len() && g[k] == v;
        if k < ni {
            vstd::arithmetic::div_mod::lemma_mod_pos_bound(a + 1 + k, ni);
            assert(fi[(a + 1 + k) % ni] == v);
        } else {
            vstd::arithmetic::div_mod::lemma_mod_pos_bound(b + 2 + (k - ni), nj);
            assert(tail[k - ni] == v);
            assert(fj[(b + 2 + (k - ni)) % nj] == v);
        }
    }
    assert forall|v: usize| fi.contains(v) || fj.contains(v) implies #[trigger] g.contains(v) by {
        if fi.contains(v) {
            let p = choose|p: int| 0 <= p < ni && fi[p] == v;
            let t = if p >= a + 1 { p - a - 1 } else { p + ni - a - 1 };
            if p >= a + 1 {
                lemma_mod_wrap(p, ni);
            } else {
                lemma_mod_wrap(p, ni);
            }
            assert(head[t] == v);
            assert(g[t] == v);
        } else {
            let q = choose|q: int| 0 <= q < nj && fj[q] == v;
            lemma_mod_wrap(b, nj);
            if b + 1 < nj {
                lemma_mod_wrap(b + 1, nj);
            } else {
                vstd::arithmetic::div_mod::lemma_mod_self_0(nj);
            }
            vstd::arithmetic::div_mod::lemma_mod_pos_bound(a + 1, ni);
            if q == b {
                assert(fi[(a + 1) % ni] == v);
                let t = choose|t: int| 0 <= t < ni && fi[t] == v;
                assert(fi.contains(v));
            } else if q == (b + 1) % nj {
                assert(fi[a] == v);
                assert(fi.contains(v));
            } else {
                let t = if q >= b + 2 { q - b - 2 } else { q + nj - b - 2 };
                lemma_mod_wrap(q, nj);
                assert(0 <= t < cnt);
                assert((b + 2 + t) % nj == q);
                assert(tail[t] == v);
                assert(g[ni + t] == v);
            }
        }
    }
}


proof fn lemma_count_update(fs: Seq<Seq<usize>>, i: int, x: Seq<usize>)
    requires
        0 <= i < fs.len(),
    ensures
        triangle_count(fs.update(i, x)) == triangle_count(fs) + x.len() - fs[i].len(),
    decreases fs.len(),
{
    let u = fs.update(i, x);
    if i == fs.len() - 1 {
        assert(u.drop_last() =~= fs.drop_last());
    } else {
        assert(u.drop_last() =~= fs.drop_last().update(i, x));
        lemma_count_update(fs.drop_last(), i, x);
    }
}

proof fn lemma_count_remove(fs: Seq<Seq<usize>>, j: int)
    requires
        0 <= j < fs.len(),
    ensures
        triangle_count(fs.remove(j)) == triangle_count(fs) - (fs[j].len() - 2),
    decreases fs.len(),
{
    let r = fs.remove(j);
    if j == fs.len() - 1 {
        assert(r =~= fs.drop_last());
    } else {
        assert(r.drop_last() =~= fs.drop_last().remove(j));
        assert(r.last() == fs.last());
        lemma_count_remove(fs.drop_last(), j);
    }
}

/// `x -> y` is an edge of the ring `f` (running from one corner to the next, cyclically).
pub open spec fn is_edge(f: Seq<usize>, x: usize, y: usize) -> bool {
    exists|p: int| 0 <= p < f.len() && #[trigger] f[p] == x && f[(p + 1) % (f.len() as int)] == y
}

proof fn lemma_mod_succ(x: int, n: int)
    requires
        0 <= x,
        0 < n,
    ensures
        0 <= x % n < n,
        ((x % n) + 1) % n == (x + 1) % n,
{
    vstd::arithmetic::div_mod::lemma_mod_pos_bound(x, n);
    lemma_mod_step(x, n);
    if x % n + 1 < n {
        lemma_mod_wrap(x % n + 1, n);
    } else {
        vstd::arithmetic::div_mod::lemma_mod_self_0(n);
    }
}

proof fn lemma_edge_at(f: Seq<usize>, x: int)
    requires
        0 <= x,
        f.len() > 0,
    ensures
        is_edge(f, f[x % (f.len() as int)], f[(x + 1) % (f.len() as int)]),
{
    let n = f.len() as int;
    lemma_mod_succ(x, n);
    let p = x % n;
    assert(f[p] == f[x % n] && f[(p + 1) % n] == f[(x + 1) % n]);
}

/// Gluing two faces keeps to their edges: each edge of the glued ring (from a corner to the
/// next, and from the last back to the first) is an edge of one of the two faces, and the ring
/// has the corners of both less the two it shares.
pub proof fn lemma_glue_keeps_edges(fi: Seq<usize>, fj: Seq<usize>)
    requires
        glue(fi, fj) is Some,
    ensures
        ({
            let m = glue(fi, fj)->Some_0;
            &&& fj.len() >= 2 ==> m.len() == fi.len() + fj.len() - 2
            &&& forall|t: int|
                0 <= t < m.len() ==> #[trigger] is_edge(fi, m[t], m[(t + 1) % (m.len() as int)])
                    || is_edge(fj, m[t], m[(t + 1) % (m.len() as int)])
        }),
{
    lemma_first_shared_found(fi, fj, 0);
    let (a, b) = first_shared(fi, fj, 0)->Some_0;
    let m = glued(fi, fj, a, b);
    let ni = fi.len() as int;
    let nj = fj.len() as int;
    let cnt: int = if nj >= 2 { nj - 2 } else { 0 };
    assert(m.len() == ni + cnt);
    assert forall|t: int| 0 <= t < m.len() implies #[trigger] is_edge(fi, m[t], m[(t + 1) % (m.len() as int)])
        || is_edge(fj, m[t], m[(t + 1) % (m.len() as int)]) by {
        let len = m.len() as int;
        if t + 1 < len {
            lemma_mod_wrap(t + 1, len);
        } else {
            vstd::arithmetic::div_mod::lemma_mod_self_0(len);
        }
        if t < ni - 1 {
            assert(m[t] == fi[(a + 1 + t) % ni]);
            assert(m[t + 1] == fi[(a + 1 + (t + 1)) % ni]);
            lemma_edge_at(fi, a + 1 + t);
        } else if t == ni - 1 {
            lemma_mod_wrap(a, ni);
            assert(m[t] == fi[(a + ni) % ni]);
            assert(m[t] == fi[a]);
            if cnt == 0 {
                assert(m[0] == fi[(a + 1) % ni]);
                lemma_edge_at(fi, a);
            } else {
                assert(m[ni] == fj[(b + 2) % nj]);
                lemma_mod_wrap(b, nj);
                assert(fj[(b + 1) % nj] == fi[a]);
                lemma_edge_at(fj, b + 1);
            }
        } else if t < len - 1 {
            let s0 = t - ni;
            assert(m[t] == fj[(b + 2 + s0) % nj]);
            assert(m[t + 1] == fj[(b + 2 + (s0 + 1)) % nj]);
            lemma_edge_at(fj, b + 2 + s0);
        } else {
            let s0 = t - ni;
            assert(s0 == nj - 3);
            assert(m[t] == fj[(b + 2 + s0) % nj]);
            assert(m[0] == fi[(a + 1) % ni]);
            assert(fj[b] == fi[(a + 1) % ni]);
            lemma_mod_wrap(b, nj);
            assert(b + 2 + s0 + 1 == b + nj);
            lemma_edge_at(fj, b + 2 + s0);
        }
    }
}

/// Replacing face `i` by `m` and dropping a later face `j` keeps the corners when `m` has
/// exactly the corners of the two.
proof fn lemma_corners_merge(fs: Seq<Seq<usize>>, i: int, j: int, m: Seq<usize>)
    requires
        0 <= i < j < fs.len(),
        forall|v: usize| #[trigger] m.contains(v) <==> fs[i].contains(v) || fs[j].contains(v),
    ensures
        corners(fs.update(i, m).remove(j)) == corners(fs),
{
    let n = fs.update(i, m).remove(j);
    assert forall|v: usize| #[trigger] corners(n).contains(v) implies corners(fs).contains(v) by {
        let k = choose|k: int| 0 <= k < n.len() && #[trigger] n[k].contains(v);
        if k == i {
            if fs[i].contains(v) {
                assert(fs[i].contains(v));
            } else {
                assert(fs[j].contains(v));
            }
        } else if k < j {
            assert(fs[k].contains(v));
        } else {
            assert(fs[k + 1].contains(v));
        }
    }
    assert forall|v: usize| #[trigger] corners(fs).contains(v) implies corners(n).contains(v) by {
        let k = choose|k: int| 0 <= k < fs.len() && #[trigger] fs[k].contains(v);
        if k == i || k == j {
            assert(n[i].contains(v));
        } else if k < j {
            assert(n[k].contains(v));
        } else {
            assert(n[k - 1].contains(v));
        }
    }
    assert(corners(n) =~= corners(fs));
}


/// Faces `x < y` glue into a ring that `pred` takes.
pub open spec fn hit(fs: Seq<Seq<usize>>, pred: spec_fn(Seq<usize>) -> bool, x: int, y: int) -> bool {
    &&& 0 <= x < y < fs.len()
    &&& glue(fs[x], fs[y]) matches Some(m) && pred(m)
}

/// The first pair `x < y` that `hit`s, scanning from `(i, j)` by `x`, then `y`.
pub open spec fn first_pair(fs: Seq<Seq<usize>>, pred: spec_fn(Seq<usize>) -> bool, i: int, j: int) -> Option<
    (int, int),
>
    decreases fs.len() - i, fs.len() - j,
{
    if i < 0 || i >= fs.len() {
        None
    } else if j >= fs.len() {
        first_pair(fs, pred, i + 1, i + 2)
    } else if hit(fs, pred, i, j) {
        Some((i, j))
    } else {
        first_pair(fs, pred, i, j + 1)
    }
}

/// Hertel-Mehlhorn merging with the test `pred`: while some pair hits, glue the first one
/// into the place of its earlier face and drop the later.
pub open spec fn hm_merge(fs: Seq<Seq<usize>>, pred: spec_fn(Seq<usize>) -> bool) -> Seq<Seq<usize>>
    decreases fs.len(),
{
    match first_pair(fs, pred, 0, 1) {
        Some((i, j)) => if 0 <= i < j < fs.len() && glue(fs[i], fs[j]) is Some {
            hm_merge(fs.update(i, glue(fs[i], fs[j])->0).remove(j), pred)
        } else {
            fs
        },
        None => fs,
    }
}

/// `accept` answers as `pred` says, whenever it answers.
pub open spec fn decided_by<F: Fn(&Vec<usize>) -> bool>(accept: F, pred: spec_fn(Seq<usize>) -> bool) -> bool {
    forall|m: &Vec<usize>, b: bool| #[trigger] accept.ensures((m,), b) ==> b == pred(m@)
}

proof fn lemma_first_pair_found(
    fs: Seq<Seq<usize>>,
    pred: spec_fn(Seq<usize>) -> bool,
    i: int,
    j: int,
    i0: int,
    j0: int,
)
    requires
        0 <= i <= i0,
        i < j,
        i < i0 || j <= j0,
        hit(fs, pred, i0, j0),
        forall|x: int, y: int|
            #![trigger hit(fs, pred, x, y)]
            ((x == i && j <= y) || i < x) && (x < i0 || (x == i0 && y < j0)) ==> !hit(fs, pred, x, y),
    ensures
        first_pair(fs, pred, i, j) == Some((i0, j0)),
    decreases fs.len() - i, fs.len() - j,
{
    if j >= fs.len() {
        lemma_first_pair_found(fs, pred, i + 1, i + 2, i0, j0);
    } else if !hit(fs, pred, i, j) {
        lemma_first_pair_found(fs, pred, i, j + 1, i0, j0);
    }
}

proof fn lemma_first_pair_none(fs: Seq<Seq<usize>>, pred: spec_fn(Seq<usize>) -> bool, i: int, j: int)
    requires
        0 <= i,
        i < j,
        forall|x: int, y: int| #![trigger hit(fs, pred, x, y)] ((x == i && j <= y) || i < x) ==> !hit(fs, pred, x, y),
    ensures
        first_pair(fs, pred, i, j) is None,
    decreases fs.len() - i, fs.len() - j,
{
    if i < fs.len() {
        if j >= fs.len() {
            lemma_first_pair_none(fs, pred, i + 1, i + 2);
        } else {
            lemma_first_pair_none(fs, pred, i, j + 1);
        }
    }
}

proof fn lemma_refused_not_pred<F: Fn(&Vec<usize>) -> bool>(
    accept: F,
    pred: spec_fn(Seq<usize>) -> bool,
    g: Seq<usize>,
)
    requires
        decided_by(accept, pred),
        refused(accept, g),
    ensures
        !pred(g),
{
    let mv = choose|mv: Vec<usize>| mv@ == g && #[trigger] accept.ensures((&mv,), false);
    assert(accept.ensures((&mv,), false));
}

/// The first pair of faces `i < j` (by `i`, then `j`) that glue into a ring `accept` takes,
/// with that ring; None when there is none.
fn find_merge<F: Fn(&Vec<usize>) -> bool>(fs: &Vec<Vec<usize>>, accept: &F) -> (r: Option<
    (usize, usize, Vec<usize>),
>)
    requires
        forall|m: &Vec<usize>| accept.requires((m,)),
    ensures
        match r {
            Some((i, j, m)) => {
                &&& i < j < fs.len()
                &&& glue(fs@[i as int]@, fs@[j as int]@) == Some(m@)
                &&& accept.ensures((&m,), true)
                &&& forall|pred: spec_fn(Seq<usize>) -> bool|
                    decided_by(*accept, pred) ==> #[trigger] first_pair(rings(fs@), pred, 0, 1) == Some(
                        (i as int, j as int),
                    )
            },
            None => {
                &&& maximal(rings(fs@), *accept)
                &&& forall|pred: spec_fn(Seq<usize>) -> bool|
                    decided_by(*accept, pred) ==> #[trigger] first_pair(rings(fs@), pred, 0, 1) is None
            },
        },
{
    let n = fs.len();
    let mut i: usize = 0;
    while i < n
        invariant
            n == fs.len(),
            i <= n,
            forall|m: &Vec<usize>| accept.requires((m,)),
            forall|x: int, y: int|
                #![trigger glue(fs@[x]@, fs@[y]@)]
                0 <= x < i && x < y < n && glue(fs@[x]@, fs@[y]@) is Some ==> refused(
                    *accept,
                    glue(fs@[x]@, fs@[y]@)->0,
                ),
        decreases n - i,
    {
        let mut j: usize = i + 1;
        while j < n
            invariant
                n == fs.len(),
                i < n,
                i + 1 <= j <= n,
                forall|m: &Vec<usize>| accept.requires((m,)),
                forall|x: int, y: int|
                    #![trigger glue(fs@[x]@, fs@[y]@)]
                    0 <= x < i && x < y < n && glue(fs@[x]@, fs@[y]@) is Some ==> refused(
                        *accept,
                        glue(fs@[x]@, fs@[y]@)->0,
                    ),
                forall|y: int|
                    #![trigger glue(fs@[i as int]@, fs@[y]@)]
                    i < y < j && glue(fs@[i as int]@, fs@[y]@) is Some ==> refused(
                        *accept,
                        glue(fs@[i as int]@, fs@[y]@)->0,
                    ),
            decreases n - j,
        {
            if let Some(m) = glue_faces(fs[i].as_slice(), fs[j].as_slice()) {
                if accept(&m) {
                    proof {
                        let rs = rings(fs@);
                        assert forall|pred: spec_fn(Seq<usize>) -> bool|
                            decided_by(*accept, pred) implies #[trigger] first_pair(rs, pred, 0, 1) == Some(
                            (i as int, j as int),
                        ) by {
                            assert forall|x: int, y: int|
                                #![trigger hit(rs, pred, x, y)]
                                ((x == 0 && 1 <= y) || 0 < x) && (x < i || (x == i && y < j)) implies !hit(
                                rs,
                                pred,
                                x,
                                y,
                            ) by {
                                if hit(rs, pred, x, y) {
                                    assert(rs[x] == fs@[x]@ && rs[y] == fs@[y]@);
                                    lemma_refused_not_pred(*accept, pred, glue(rs[x], rs[y])->0);
                                }
                            }
                            assert(rs[i as int] == fs@[i as int]@ && rs[j as int] == fs@[j as int]@);
                            assert(hit(rs, pred, i as int, j as int));
                            lemma_first_pair_found(rs, pred, 0, 1, i as int, j as int);
                        }
                    }
                    return Some((i, j, m));
                }
                assert(refused(*accept, m@));
            }
            j += 1;
        }
        i += 1;
    }
    let ghost rs = rings(fs@);
    assert forall|x: int, y: int|
        #![trigger glue(rs[x], rs[y])]
        0 <= x < y < rs.len() && glue(rs[x], rs[y]) is Some implies refused(*accept, glue(rs[x], rs[y])->0) by {
        assert(rs[x] == fs@[x]@ && rs[y] == fs@[y]@);
    }
    assert forall|pred: spec_fn(Seq<usize>) -> bool|
        decided_by(*accept, pred) implies #[trigger] first_pair(rs, pred, 0, 1) is None by {
        assert forall|x: int, y: int|
            #![trigger hit(rs, pred, x, y)]
            ((x == 0 && 1 <= y) || 0 < x) implies !hit(rs, pred, x, y) by {
            if hit(rs, pred, x, y) {
                assert(rs[x] == fs@[x]@ && rs[y] == fs@[y]@);
                lemma_refused_not_pred(*accept, pred, glue(rs[x], rs[y])->0);
            }
        }
        lemma_first_pair_none(rs, pred, 0, 1);
    }
    None
}

/// Merges faces (vertex-index rings, such as the triangles of a triangulation) two at a time,
/// while some face glues to a later one along a shared edge into a ring that `accept` takes;
/// the earliest such pair is merged first, into the place of the earlier face. The merge loop
/// of convex decomposition (Hertel-Mehlhorn), `accept` being the convexity test.
///
/// The pieces keep the corners of the input and, where every face has two corners or more,
/// the number of triangles it stands for; each piece is an input face or a ring `accept` took,
/// and no two pieces glue into a ring it takes. Where `accept` answers as a predicate `pred`
/// does, the pieces are exactly `hm_merge` of the faces with `pred`.
pub fn merge_faces<F: Fn(&Vec<usize>) -> bool>(faces: Vec<Vec<usize>>, accept: F) -> (r: Vec<
    Vec<usize>,
>)
    requires
        forall|m: &Vec<usize>| accept.requires((m,)),
    ensures
        r.len() <= faces.len(),
        corners(rings(r@)) == corners(rings(faces@)),
        (forall|k: int| 0 <= k < faces.len() ==> #[trigger] faces@[k].len() >= 2) ==> triangle_count(
            rings(r@),
        ) == triangle_count(rings(faces@)),
        forall|k: int|
            0 <= k < r.len() ==> rings(faces@).contains(#[trigger] r@[k]@) || accept.ensures(
                (&r@[k],),
                true,
            ),
        maximal(rings(r@), accept),
        forall|pred: spec_fn(Seq<usize>) -> bool|
            decided_by(accept, pred) ==> #[trigger] hm_merge(rings(faces@), pred) == rings(r@),
{
    let ghost orig = rings(faces@);
    let ghost all2 = forall|k: int| 0 <= k < faces.len() ==> #[trigger] faces@[k].len() >= 2;
    let mut fs = faces;
    assert forall|k: int| 0 <= k < fs.len() implies orig.contains(#[trigger] fs@[k]@) by {
        assert(orig[k] == fs@[k]@);
    }
    loop
        invariant
            forall|m: &Vec<usize>| accept.requires((m,)),
            fs.len() <= orig.len(),
            orig == rings(faces@),
            all2 == (forall|k: int| 0 <= k < faces.len() ==> #[trigger] faces@[k].len() >= 2),
            corners(rings(fs@)) == corners(orig),
            all2 ==> (forall|k: int| 0 <= k < fs.len() ==> #[trigger] fs@[k].len() >= 2),
            all2 ==> triangle_count(rings(fs@)) == triangle_count(orig),
            forall|k: int|
                0 <= k < fs.len() ==> orig.contains(#[trigger] fs@[k]@) || accept.ensures(
                    (&fs@[k],),
                    true,
                ),
            forall|pred: spec_fn(Seq<usize>) -> bool|
                decided_by(accept, pred) ==> #[trigger] hm_merge(orig, pred) == hm_merge(rings(fs@), pred),
        ensures
            maximal(rings(fs@), accept),
            forall|pred: spec_fn(Seq<usize>) -> bool|
                decided_by(accept, pred) ==> #[trigger] hm_merge(orig, pred) == rings(fs@),
        decreases fs.len(),
    {
        match find_merge(&fs, &accept) {
            None => {
                proof {
                    assert forall|pred: spec_fn(Seq<usize>) -> bool|
                        decided_by(accept, pred) implies #[trigger] hm_merge(orig, pred) == rings(fs@) by {
                        assert(first_pair(rings(fs@), pred, 0, 1) is None);
                        assert(hm_merge(rings(fs@), pred) == rings(fs@));
                    }
                }
                break;
            },
            Some((i, j, m)) => {
                let ghost before = fs@;
                let ghost rs = rings(before);
                proof {
                    lemma_first_shared_found(rs[i as int], rs[j as int], 0);
                    let (a, b) = first_shared(rs[i as int], rs[j as int], 0)->0;
                    lemma_glued_corners(rs[i as int], rs[j as int], a, b);
                    lemma_corners_merge(rs, i as int, j as int, m@);
                    lemma_count_update(rs, i as int, m@);
                    lemma_count_remove(rs.update(i as int, m@), j as int);
                }
                fs[i] = m;
                fs.remove(j);
                proof {
                    assert(rings(fs@) =~= rs.update(i as int, m@).remove(j as int));
                    assert forall|pred: spec_fn(Seq<usize>) -> bool|
                        decided_by(accept, pred) implies #[trigger] hm_merge(orig, pred) == hm_merge(
                        rings(fs@),
                        pred,
                    ) by {
                        assert(first_pair(rs, pred, 0, 1) == Some((i as int, j as int)));
                        assert(hm_merge(orig, pred) == hm_merge(rs, pred));
                        assert(hm_merge(rs, pred) == hm_merge(rs.update(i as int, m@).remove(j as int), pred));
                    }
                    assert forall|k: int|
                        0 <= k < fs.len() implies orig.contains(#[trigger] fs@[k]@) || accept.ensures(
                        (&fs@[k],),
                        true,
                    ) by {
                        if k < j {
                            if k != i {
                                assert(fs@[k] == before[k]);
                            }
                        } else {
                            assert(fs@[k] == before[k + 1]);
                        }
                    }
                    if all2 {
                        assert forall|k: int| 0 <= k < fs.len() implies #[trigger] fs@[k].len() >= 2 by {
                            if k < j {
                                if k != i {
                                    assert(fs@[k] == before[k]);
                                } else {
                                    assert(before[i as int].len() >= 2 && before[j as int].len() >= 2);
                                }
                            } else {
                                assert(fs@[k] == before[k + 1]);
                            }
                        }
                    }
                }
            },
        }
    }
    fs
}


/// One round of pairing: `f(s[0], s[1]), f(s[2], s[3]), ...`, an odd last item passed on as it is.
pub open spec fn pair_round<T>(s: Seq<T>, f: spec_fn(T, T) -> T) -> Seq<T>
    decreases s.len(),
{
    if s.len() <= 1 {
        s
    } else {
        seq![f(s[0], s[1])] + pair_round(s.subrange(2, s.len() as int), f)
    }
}

/// A round of pairing halves the number of items, rounding up.
pub proof fn lemma_pair_round_len<T>(s: Seq<T>, f: spec_fn(T, T) -> T)
    ensures
        pair_round(s, f).len() == (s.len() + 1) / 2,
    decreases s.len(),
{
    if s.len() > 1 {
        lemma_pair_round_len(s.subrange(2, s.len() as int), f);
    }
}

/// Rounds of pairing until one item is left.
pub open spec fn pair_tree<T>(s: Seq<T>, f: spec_fn(T, T) -> T) -> T
    decreases s.len(),
{
    if s.len() <= 1 {
        s[0]
    } else {
        proof {
            lemma_pair_round_len(s, f);
        }
        pair_tree(pair_round(s, f), f)
    }
}

/// `f(s[0], f(s[1], ... f(s[n-2], s[n-1])))`: the items joined one after another.
pub open spec fn fold_all<T>(s: Seq<T>, f: spec_fn(T, T) -> T) -> T
    decreases s.len(),
{
    if s.len() <= 1 {
        s[0]
    } else {
        f(s[0], fold_all(s.subrange(1, s.len() as int), f))
    }
}

/// `f(f(a, b), c) == f(a, f(b, c))` for all `a`, `b`, `c`.
pub open spec fn associative<T>(f: spec_fn(T, T) -> T) -> bool {
    forall|a: T, b: T, c: T| #[trigger] f(f(a, b), c) == f(a, f(b, c))
}

/// `join` answers as `f` says, whenever it answers.
pub open spec fn joined_by<T, F: Fn(T, T) -> T>(join: F, f: spec_fn(T, T) -> T) -> bool {
    forall|a: T, b: T, r: T| #[trigger] join.ensures((a, b), r) ==> r == f(a, b)
}

proof fn lemma_pair_round_folds<T>(s: Seq<T>, f: spec_fn(T, T) -> T)
    requires
        s.len() >= 1,
        associative(f),
    ensures
        fold_all(pair_round(s, f), f) == fold_all(s, f),
    decreases s.len(),
{
    if s.len() >= 2 {
        let n = s.len() as int;
        let rest = s.subrange(2, n);
        let tail = s.subrange(1, n);
        let p = pair_round(s, f);
        assert(tail.subrange(1, tail.len() as int) =~= rest);
        assert(tail[0] == s[1]);
        if rest.len() == 0 {
            assert(pair_round(rest, f) == rest);
            assert(p =~= seq![f(s[0], s[1])]);
            assert(fold_all(tail, f) == s[1]);
        } else {
            lemma_pair_round_folds(rest, f);
            lemma_pair_round_len(rest, f);
            assert(p.subrange(1, p.len() as int) =~= pair_round(rest, f));
            assert(fold_all(p, f) == f(f(s[0], s[1]), fold_all(rest, f)));
            assert(fold_all(tail, f) == f(s[1], fold_all(rest, f)));
            assert(f(f(s[0], s[1]), fold_all(rest, f)) == f(s[0], f(s[1], fold_all(rest, f))));
        }
    }
}

/// Joining in rounds of pairs gives what joining one after another gives, when the join is
/// associative: a divide-and-conquer union is the union of all.
pub proof fn lemma_pair_tree_folds<T>(s: Seq<T>, f: spec_fn(T, T) -> T)
    requires
        s.len() >= 1,
        associative(f),
    ensures
        pair_tree(s, f) == fold_all(s, f),
    decreases s.len(),
{
    if s.len() >= 2 {
        lemma_pair_round_len(s, f);
        lemma_pair_round_folds(s, f);
        lemma_pair_tree_folds(pair_round(s, f), f);
    }
}

/// Joins the items in rounds of pairs (`s[0]` with `s[1]`, `s[2]` with `s[3]`, ..., an odd last
/// one carried to the next round) until one is left; None for no items. The divide-and-conquer
/// schedule of a union of many shapes, `join` being the union of two.
pub fn pairwise_reduce<T, F: Fn(T, T) -> T>(items: Vec<T>, join: F) -> (r: Option<T>)
    requires
        forall|a: T, b: T| join.requires((a, b)),
    ensures
        r is None <==> items.len() == 0,
        forall|f: spec_fn(T, T) -> T|
            joined_by(join, f) && items.len() > 0 ==> r == Some(#[trigger] pair_tree(items@, f)),
{
    let ghost orig = items@;
    let mut cur = items;
    while cur.len() > 1
        invariant
            forall|a: T, b: T| join.requires((a, b)),
            orig.len() == 0 <==> cur.len() == 0,
            forall|f: spec_fn(T, T) -> T|
                joined_by(join, f) && orig.len() > 0 ==> #[trigger] pair_tree(orig, f) == pair_tree(cur@, f),
        decreases cur.len(),
    {
        let ghost s = cur@;
        let n = cur.len();
        let mut rest = cur;
        let mut next: Vec<T> = Vec::new();
        while rest.len() > 0
            invariant
                forall|a: T, b: T| join.requires((a, b)),
                n == s.len(),
                rest.len() <= n,
                rest@ == s.subrange(n - rest.len(), n as int),
                rest.len() > 0 ==> (n - rest.len()) % 2 == 0,
                next.len() == (n - rest.len() + 1) / 2,
                forall|f: spec_fn(T, T) -> T|
                    joined_by(join, f) ==> #[trigger] pair_round(s, f) == next@ + pair_round(rest@, f),
            decreases rest.len(),
        {
            let ghost old_rest = rest@;
            let a = rest.remove(0);
            if rest.len() > 0 {
                let b = rest.remove(0);
                let ghost before = next@;
                let ghost pr = seq![a, b] + rest@;
                assert(pr =~= old_rest);
                let j = join(a, b);
                next.push(j);
                proof {
                    assert forall|f: spec_fn(T, T) -> T|
                        joined_by(join, f) implies #[trigger] pair_round(s, f) == next@ + pair_round(rest@, f) by {
                        assert(pr.subrange(2, pr.len() as int) =~= rest@);
                        assert(j == f(a, b));
                        assert(pair_round(pr, f) == seq![f(a, b)] + pair_round(rest@, f));
                        assert(next@ + pair_round(rest@, f) =~= before + pair_round(pr, f));
                    }
                }
            } else {
                let ghost before = next@;
                assert(old_rest =~= seq![a]);
                next.push(a);
                proof {
                    assert forall|f: spec_fn(T, T) -> T|
                        joined_by(join, f) implies #[trigger] pair_round(s, f) == next@ + pair_round(rest@, f) by {
                        assert(pair_round(seq![a], f) == seq![a]);
                        assert(next@ + pair_round(rest@, f) =~= before + pair_round(seq![a], f));
                    }
                }
            }
        }
        proof {
            assert forall|f: spec_fn(T, T) -> T|
                joined_by(join, f) && orig.len() > 0 implies #[trigger] pair_tree(orig, f) == pair_tree(next@, f) by {
                assert(next@ + pair_round(rest@, f) =~= next@);
                assert(pair_tree(s, f) == pair_tree(pair_round(s, f), f));
            }
        }
        cur = next;
    }
    if cur.len() == 0 {
        None
    } else {
        let last = cur.remove(0);
        proof {
            assert forall|f: spec_fn(T, T) -> T|
                joined_by(join, f) && orig.len() > 0 implies Some(last) == Some(#[trigger] pair_tree(orig, f)) by {
                assert(pair_tree(orig, f) == pair_tree(cur@.insert(0, last), f));
            }
        }
        Some(last)
    }
}

}
