use vstd::prelude::*;

verus! {

/// The characters of `s`, in order.
pub fn chars_of(s: &str) -> (v: Vec<char>)
    ensures
        v@ == s@,
{
    let mut v: Vec<char> = Vec::new();
    for c in it: s.chars()
        invariant
            v@ == it.seq().take(it.index()),
    {
        v.push(c);
    }
    v
}

/// ASCII lower-casing of one character (other characters unchanged).
pub open spec fn lower_char(c: char) -> char {
    if 'A' <= c && c <= 'Z' {
        ((c as u32) + 32) as char
    } else {
        c
    }
}

pub fn to_lower(c: char) -> (r: char)
    ensures
        r == lower_char(c),
{
    if 'A' <= c && c <= 'Z' {
        let b: u8 = c as u8;
        (b + 32) as char
    } else {
        c
    }
}

}

verus! {

/// ASCII lower-casing of a character sequence.
pub open spec fn lower(s: Seq<char>) -> Seq<char> {
    s.map_values(|c: char| lower_char(c))
}

/// Unicode `White_Space`, the set that `char::is_whitespace` tests.
pub open spec fn is_ws(c: char) -> bool {
    ||| '\t' <= c && c <= '\r'
    ||| c == ' '
    ||| c == '\u{85}'
    ||| c == '\u{A0}'
    ||| c == '\u{1680}'
    ||| '\u{2000}' <= c && c <= '\u{200A}'
    ||| c == '\u{2028}'
    ||| c == '\u{2029}'
    ||| c == '\u{202F}'
    ||| c == '\u{205F}'
    ||| c == '\u{3000}'
}

pub fn is_white(c: char) -> (r: bool)
    ensures
        r == is_ws(c),
{
    ('\t' <= c && c <= '\r') || c == ' ' || c == '\u{85}' || c == '\u{A0}' || c == '\u{1680}'
        || ('\u{2000}' <= c && c <= '\u{200A}') || c == '\u{2028}' || c == '\u{2029}'
        || c == '\u{202F}' || c == '\u{205F}' || c == '\u{3000}'
}

/// `p` occurs in `s` starting at position `i`.
pub open spec fn occurs_at(s: Seq<char>, p: Seq<char>, i: int) -> bool {
    0 <= i && i + p.len() <= s.len() && s.subrange(i, i + p.len()) == p
}

/// The first position at or after `from` where the (non-empty) pattern `p` occurs in `s`.
pub open spec fn find_from(s: Seq<char>, p: Seq<char>, from: int) -> Option<int>
    decreases s.len() - from,
{
    if from < 0 || from >= s.len() {
        None
    } else if occurs_at(s, p, from) {
        Some(from)
    } else {
        find_from(s, p, from + 1)
    }
}

/// The last position at or before `i` where `p` occurs in `s`.
pub open spec fn rfind_from(s: Seq<char>, p: Seq<char>, i: int) -> Option<int>
    decreases i + 1,
{
    if i < 0 {
        None
    } else if occurs_at(s, p, i) {
        Some(i)
    } else {
        rfind_from(s, p, i - 1)
    }
}

/// The last occurrence of `p` in `s` (what `str::rfind` gives).
pub open spec fn rfind(s: Seq<char>, p: Seq<char>) -> Option<int> {
    rfind_from(s, p, s.len() - p.len())
}

proof fn lemma_find_from_skip(s: Seq<char>, p: Seq<char>, from: int, i: int)
    requires
        0 <= from <= i,
        forall|j: int| from <= j < i ==> !occurs_at(s, p, j),
    ensures
        find_from(s, p, from) == find_from(s, p, i),
    decreases i - from,
{
    if from < i {
        lemma_find_from_skip(s, p, from + 1, i);
    }
}

proof fn lemma_rfind_from_skip(s: Seq<char>, p: Seq<char>, i: int, top: int)
    requires
        i <= top,
        forall|j: int| i < j <= top ==> !occurs_at(s, p, j),
    ensures
        rfind_from(s, p, top) == rfind_from(s, p, i),
    decreases top - i,
{
    if i < top {
        lemma_rfind_from_skip(s, p, i, top - 1);
    }
}

/// Whether the ASCII-lowercased `h` holds `p` at position `i`.
fn matches_at(h: &Vec<char>, p: &Vec<char>, i: usize) -> (r: bool)
    requires
        i + p.len() <= h.len(),
    ensures
        r == occurs_at(lower(h@), p@, i as int),
{
    let mut k: usize = 0;
    while k < p.len()
        invariant
            i + p.len() <= h.len(),
            k <= p.len(),
            forall|t: int| 0 <= t < k ==> lower_char(h@[i + t]) == p@[t],
        decreases p.len() - k,
    {
        if to_lower(h[i + k]) != p[k] {
            proof {
                assert(lower(h@).subrange(i as int, i + p.len())[k as int] != p@[k as int]);
            }
            return false;
        }
        k += 1;
    }
    proof {
        assert(lower(h@).subrange(i as int, i + p.len()) =~= p@);
    }
    true
}

/// First case-insensitive occurrence (ASCII) of the lower-case pattern `p` in `h`, at or
/// after `from`.
pub fn find_ci(h: &Vec<char>, p: &Vec<char>, from: usize) -> (r: Option<usize>)
    requires
        p.len() > 0,
    ensures
        find_from(lower(h@), p@, from as int) == (match r {
            Some(i) => Some(i as int),
            None => None::<int>,
        }),
        r matches Some(i) ==> from <= i && i + p.len() <= h.len(),
{
    if p.len() > h.len() {
        proof {
            lemma_find_from_skip(lower(h@), p@, from as int, if from <= h.len() { h.len() as int } else { from as int });
        }
        return None;
    }
    let last = h.len() - p.len();
    let mut i = from;
    while i <= last
        invariant
            last == h.len() - p.len(),
            p.len() > 0,
            from <= i,
            forall|j: int| from <= j < i ==> !occurs_at(lower(h@), p@, j),
        decreases last + 1 - i,
    {
        if matches_at(h, p, i) {
            proof {
                lemma_find_from_skip(lower(h@), p@, from as int, i as int);
            }
            return Some(i);
        }
        i += 1;
    }
    proof {
        assert forall|j: int| from <= j < h.len() implies !occurs_at(lower(h@), p@, j) by {
            if j >= i {
                assert(j + p.len() > h.len());
            }
        }
        if from < h.len() {
            lemma_find_from_skip(lower(h@), p@, from as int, h.len() as int);
        }
    }
    None
}

/// Last case-insensitive occurrence (ASCII) of the lower-case pattern `p` in `h`.
pub fn rfind_ci(h: &Vec<char>, p: &Vec<char>) -> (r: Option<usize>)
    requires
        p.len() > 0,
    ensures
        rfind(lower(h@), p@) == (match r {
            Some(i) => Some(i as int),
            None => None::<int>,
        }),
        r matches Some(i) ==> i + p.len() <= h.len(),
{
    if p.len() > h.len() {
        return None;
    }
    let mut i = h.len() - p.len() + 1;
    while i > 0
        invariant
            i <= h.len() - p.len() + 1,
            p.len() <= h.len(),
            forall|j: int| i <= j <= h.len() - p.len() ==> !occurs_at(lower(h@), p@, j),
        decreases i,
    {
        if matches_at(h, p, i - 1) {
            proof {
                lemma_rfind_from_skip(lower(h@), p@, i - 1, h.len() - p.len());
            }
            return Some(i - 1);
        }
        i -= 1;
    }
    proof {
        lemma_rfind_from_skip(lower(h@), p@, -1, h.len() - p.len());
    }
    None
}

/// Last occurrence of the character `c` in `h`.
pub fn rfind_char(h: &Vec<char>, c: char) -> (r: Option<usize>)
    ensures
        rfind(h@, seq![c]) == (match r {
            Some(i) => Some(i as int),
            None => None::<int>,
        }),
        r matches Some(i) ==> i < h.len(),
{
    let mut i = h.len();
    while i > 0
        invariant
            i <= h.len(),
            forall|j: int| i <= j < h.len() ==> !occurs_at(h@, seq![c], j),
        decreases i,
    {
        if h[i - 1] == c {
            proof {
                assert(h@.subrange(i - 1, i as int) =~= seq![c]);
                lemma_rfind_from_skip(h@, seq![c], i - 1, h.len() - 1);
            }
            return Some(i - 1);
        }
        proof {
            assert(h@.subrange(i - 1, i as int)[0] == h@[i - 1]);
        }
        i -= 1;
    }
    proof {
        lemma_rfind_from_skip(h@, seq![c], -1, h.len() - 1);
    }
    None
}

/// First index in `[lo, hi)` whose character is not white space, or `hi`.
pub open spec fn skip_ws(s: Seq<char>, lo: int, hi: int) -> int
    decreases hi - lo,
{
    if lo >= hi {
        hi
    } else if is_ws(s[lo]) {
        skip_ws(s, lo + 1, hi)
    } else {
        lo
    }
}

/// One past the last index in `[lo, hi)` whose character is not white space, or `lo`.
pub open spec fn skip_ws_back(s: Seq<char>, lo: int, hi: int) -> int
    decreases hi - lo,
{
    if lo >= hi {
        lo
    } else if is_ws(s[hi - 1]) {
        skip_ws_back(s, lo, hi - 1)
    } else {
        hi
    }
}

/// `s[lo..hi]` with leading and trailing white space removed (what `str::trim` gives).
pub open spec fn trimmed(s: Seq<char>, lo: int, hi: int) -> Seq<char> {
    let a = skip_ws(s, lo, hi);
    s.subrange(a, skip_ws_back(s, a, hi))
}

pub fn skip_ws_exec(s: &Vec<char>, lo: usize, hi: usize) -> (r: usize)
    requires
        lo <= hi <= s.len(),
    ensures
        r == skip_ws(s@, lo as int, hi as int),
        lo <= r <= hi,
    decreases hi - lo,
{
    if lo >= hi {
        hi
    } else if is_white(s[lo]) {
        skip_ws_exec(s, lo + 1, hi)
    } else {
        lo
    }
}

pub fn skip_ws_back_exec(s: &Vec<char>, lo: usize, hi: usize) -> (r: usize)
    requires
        lo <= hi <= s.len(),
    ensures
        r == skip_ws_back(s@, lo as int, hi as int),
        lo <= r <= hi,
    decreases hi - lo,
{
    if lo >= hi {
        lo
    } else if is_white(s[hi - 1]) {
        skip_ws_back_exec(s, lo, hi - 1)
    } else {
        hi
    }
}

/// The owned text `s[from..to]`, counted in characters.
pub fn sub_string(s: &str, from: usize, to: usize) -> (r: String)
    requires
        from <= to <= s@.len(),
    ensures
        r@ == s@.subrange(from as int, to as int),
{
    s.substring_char(from, to).to_owned()
}

/// Whether the characters of `a` spell exactly `b`.
pub fn seq_eq(a: &Vec<char>, b: &Vec<char>) -> (r: bool)
    ensures
        r == (a@ == b@),
{
    if a.len() != b.len() {
        return false;
    }
    let mut i: usize = 0;
    while i < a.len()
        invariant
            a.len() == b.len(),
            i <= a.len(),
            forall|j: int| 0 <= j < i ==> a@[j] == b@[j],
        decreases a.len() - i,
    {
        if a[i] != b[i] {
            return false;
        }
        i += 1;
    }
    proof {
        assert(a@ =~= b@);
    }
    true
}

}

verus! {

/// First position at or after `from` holding the character `c`.
pub fn find_char(h: &Vec<char>, c: char, from: usize) -> (r: Option<usize>)
    ensures
        find_from(h@, seq![c], from as int) == (match r {
            Some(i) => Some(i as int),
            None => None::<int>,
        }),
        r matches Some(i) ==> from <= i < h.len() && h@[i as int] == c,
{
    let mut i = from;
    while i < h.len()
        invariant
            from <= i,
            forall|j: int| from <= j < i ==> !occurs_at(h@, seq![c], j),
        decreases h.len() - i,
    {
        if h[i] == c {
            proof {
                assert(h@.subrange(i as int, i + 1) =~= seq![c]);
                lemma_find_from_skip(h@, seq![c], from as int, i as int);
            }
            return Some(i);
        }
        proof {
            assert(h@.subrange(i as int, i + 1)[0] == h@[i as int]);
        }
        i += 1;
    }
    proof {
        if from < h.len() {
            lemma_find_from_skip(h@, seq![c], from as int, h.len() as int);
        }
    }
    None
}

/// A copy of `h[from..to]`.
pub fn slice_vec(h: &Vec<char>, from: usize, to: usize) -> (r: Vec<char>)
    requires
        from <= to <= h.len(),
    ensures
        r@ == h@.subrange(from as int, to as int),
{
    let mut r: Vec<char> = Vec::new();
    let mut i = from;
    while i < to
        invariant
            from <= i <= to <= h.len(),
            r@ == h@.subrange(from as int, i as int),
        decreases to - i,
    {
        r.push(h[i]);
        i += 1;
        proof {
            assert(r@ =~= h@.subrange(from as int, i as int));
        }
    }
    r
}

}

verus! {

/// The ASCII-lowercased copy of `h[from..to]`.
pub fn lower_vec(h: &Vec<char>, from: usize, to: usize) -> (r: Vec<char>)
    requires
        from <= to <= h.len(),
    ensures
        r@ == lower(h@.subrange(from as int, to as int)),
{
    let mut r: Vec<char> = Vec::new();
    let mut i = from;
    while i < to
        invariant
            from <= i <= to <= h.len(),
            r@ == lower(h@.subrange(from as int, i as int)),
        decreases to - i,
    {
        r.push(to_lower(h[i]));
        i += 1;
        proof {
            assert(r@ =~= lower(h@.subrange(from as int, i as int)));
        }
    }
    r
}

/// Whether `h` spells the literal `lit`.
pub fn spells(h: &Vec<char>, lit: &str) -> (r: bool)
    ensures
        r == (h@ == lit@),
{
    let l = chars_of(lit);
    seq_eq(h, &l)
}

/// The lower-case letters, in order: the one at `k` has code `97 + k`.
proof fn lemma_letters(k: int)
    requires
        0 <= k < 26,
    ensures
        "abcdefghijklmnopqrstuvwxyz"@[k] == ((97 + k) as char),
{
    reveal_strlit("abcdefghijklmnopqrstuvwxyz");
    let l = "abcdefghijklmnopqrstuvwxyz"@;
    if k == 0 {
        assert(l[0] == 'a');
    } else if k == 1 {
        assert(l[1] == 'b');
    } else if k == 2 {
        assert(l[2] == 'c');
    } else if k == 3 {
        assert(l[3] == 'd');
    } else if k == 4 {
        assert(l[4] == 'e');
    } else if k == 5 {
        assert(l[5] == 'f');
    } else if k == 6 {
        assert(l[6] == 'g');
    } else if k == 7 {
        assert(l[7] == 'h');
    } else if k == 8 {
        assert(l[8] == 'i');
    } else if k == 9 {
        assert(l[9] == 'j');
    } else if k == 10 {
        assert(l[10] == 'k');
    } else if k == 11 {
        assert(l[11] == 'l');
    } else if k == 12 {
        assert(l[12] == 'm');
    } else if k == 13 {
        assert(l[13] == 'n');
    } else if k == 14 {
        assert(l[14] == 'o');
    } else if k == 15 {
        assert(l[15] == 'p');
    } else if k == 16 {
        assert(l[16] == 'q');
    } else if k == 17 {
        assert(l[17] == 'r');
    } else if k == 18 {
        assert(l[18] == 's');
    } else if k == 19 {
        assert(l[19] == 't');
    } else if k == 20 {
        assert(l[20] == 'u');
    } else if k == 21 {
        assert(l[21] == 'v');
    } else if k == 22 {
        assert(l[22] == 'w');
    } else if k == 23 {
        assert(l[23] == 'x');
    } else if k == 24 {
        assert(l[24] == 'y');
    } else if k == 25 {
        assert(l[25] == 'z');
    }
}

/// `s` with `A..=Z` lowered to `a..=z` and every other character kept (what
/// `str::to_ascii_lowercase` gives).
pub fn ascii_lowercase(s: &str) -> (r: String)
    ensures
        r@ == lower(s@),
{
    let letters = "abcdefghijklmnopqrstuvwxyz";
    proof {
        reveal_strlit("abcdefghijklmnopqrstuvwxyz");
    }
    let h = chars_of(s);
    let mut r = String::new();
    let mut i: usize = 0;
    while i < h.len()
        invariant
            h@ == s@,
            i <= h.len(),
            letters@ == "abcdefghijklmnopqrstuvwxyz"@,
            letters@.len() == 26,
            r@ == lower(s@.subrange(0, i as int)),
        decreases h.len() - i,
    {
        let c = h[i];
        let ghost before = r@;
        if 'A' <= c && c <= 'Z' {
            let k = (c as u32 - 65) as usize;
            let piece = letters.substring_char(k, k + 1);
            proof {
                lemma_letters(k as int);
            }
            assert(letters@[k as int] == lower_char(c));
            r.append(piece);
            assert(r@ =~= before.push(lower_char(c)));
        } else {
            let piece = s.substring_char(i, i + 1);
            r.append(piece);
            assert(r@ =~= before.push(lower_char(c)));
        }
        assert(lower(s@.subrange(0, i + 1)) =~= lower(s@.subrange(0, i as int)).push(lower_char(c)));
        i += 1;
    }
    assert(s@.subrange(0, s@.len() as int) =~= s@);
    r
}

}

verus! {

pub proof fn lemma_skip_ws_lower(s: Seq<char>, lo: int, hi: int)
    requires
        0 <= lo,
        hi <= s.len(),
    ensures
        skip_ws(lower(s), lo, hi) == skip_ws(s, lo, hi),
    decreases hi - lo,
{
    if lo < hi {
        lemma_skip_ws_lower(s, lo + 1, hi);
    }
}

pub proof fn lemma_skip_ws_back_lower(s: Seq<char>, lo: int, hi: int)
    requires
        0 <= lo,
        hi <= s.len(),
    ensures
        skip_ws_back(lower(s), lo, hi) == skip_ws_back(s, lo, hi),
    decreases hi - lo,
{
    if lo < hi {
        lemma_skip_ws_back_lower(s, lo, hi - 1);
    }
}

/// Lower-casing before trimming and lower-casing changes nothing: trimming skips the same white
/// space either way, and lower-casing twice is lower-casing once.
pub proof fn lemma_lower_trimmed_ignores_case(s: Seq<char>)
    ensures
        lower(trimmed(lower(s), 0, s.len() as int)) == lower(trimmed(s, 0, s.len() as int)),
{
    lemma_skip_ws_lower(s, 0, s.len() as int);
    let a = skip_ws(s, 0, s.len() as int);
    lemma_skip_ws_lower_bounds(s, 0, s.len() as int);
    lemma_skip_ws_back_lower(s, a, s.len() as int);
    let b = skip_ws_back(s, a, s.len() as int);
    lemma_skip_ws_back_bounds(s, a, s.len() as int);
    assert(lower(trimmed(lower(s), 0, s.len() as int)) =~= lower(trimmed(s, 0, s.len() as int)));
}

pub proof fn lemma_skip_ws_lower_bounds(s: Seq<char>, lo: int, hi: int)
    requires
        lo <= hi,
    ensures
        lo <= skip_ws(s, lo, hi) <= hi,
    decreases hi - lo,
{
    if lo < hi {
        lemma_skip_ws_lower_bounds(s, lo + 1, hi);
    }
}

pub proof fn lemma_skip_ws_back_bounds(s: Seq<char>, lo: int, hi: int)
    requires
        lo <= hi,
    ensures
        lo <= skip_ws_back(s, lo, hi) <= hi,
    decreases hi - lo,
{
    if lo < hi {
        lemma_skip_ws_back_bounds(s, lo, hi - 1);
    }
}

}
