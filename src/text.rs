//! Character-level helpers: conversions between strings and character
//! vectors, Unicode whitespace, and prefix tests at a position.
use vstd::prelude::*;

verus! {

/// Unicode `White_Space`: the characters that `str::trim` removes and that a
/// `\s` in a pattern stands for.
pub open spec fn is_ws(c: char) -> bool {
    let u = c as u32;
    (0x09 <= u && u <= 0x0d) || u == 0x20 || u == 0x85 || u == 0xa0 || u == 0x1680 || (0x2000
        <= u && u <= 0x200a) || u == 0x2028 || u == 0x2029 || u == 0x202f || u == 0x205f || u
        == 0x3000
}

/// The first index at or after `k` whose character is not whitespace, or the
/// length of `t` if there is none.
pub open spec fn ws_end(t: Seq<char>, k: int) -> int
    decreases t.len() - k,
{
    if k < 0 || k >= t.len() {
        if k < 0 { 0 } else { t.len() as int }
    } else if is_ws(t[k]) {
        ws_end(t, k + 1)
    } else {
        k
    }
}

/// The start of the run of whitespace that ends at index `j` (exclusive).
pub open spec fn ws_back(t: Seq<char>, j: int) -> int
    decreases j,
{
    if j <= 0 {
        0
    } else if j > t.len() {
        ws_back(t, t.len() as int)
    } else if is_ws(t[j - 1]) {
        ws_back(t, j - 1)
    } else {
        j
    }
}

/// `t` without leading and trailing whitespace.
pub open spec fn trim(t: Seq<char>) -> Seq<char> {
    let a = ws_end(t, 0);
    let b = ws_back(t, t.len() as int);
    if a < b {
        t.subrange(a, b)
    } else {
        Seq::empty()
    }
}

/// The first index at or after `k` that holds `c`, or the length of `t`.
pub open spec fn find_char(t: Seq<char>, c: char, k: int) -> int
    decreases t.len() - k,
{
    if k < 0 || k >= t.len() {
        if k < 0 { 0 } else { t.len() as int }
    } else if t[k] == c {
        k
    } else {
        find_char(t, c, k + 1)
    }
}

/// `p` occurs in `t` starting at index `i`.
pub open spec fn has_at(t: Seq<char>, i: int, p: Seq<char>) -> bool {
    0 <= i && i + p.len() <= t.len() && t.subrange(i, i + p.len()) == p
}

pub proof fn lemma_ws_end_bounds(t: Seq<char>, k: int)
    requires
        0 <= k <= t.len(),
    ensures
        k <= ws_end(t, k) <= t.len(),
        forall|j: int| k <= j < ws_end(t, k) ==> is_ws(#[trigger] t[j]),
        ws_end(t, k) < t.len() ==> !is_ws(t[ws_end(t, k)]),
    decreases t.len() - k,
{
    if k < t.len() && is_ws(t[k]) {
        lemma_ws_end_bounds(t, k + 1);
    }
}

pub proof fn lemma_find_char_bounds(t: Seq<char>, c: char, k: int)
    requires
        0 <= k <= t.len(),
    ensures
        k <= find_char(t, c, k) <= t.len(),
        forall|j: int| k <= j < find_char(t, c, k) ==> #[trigger] t[j] != c,
        find_char(t, c, k) < t.len() ==> t[find_char(t, c, k)] == c,
    decreases t.len() - k,
{
    if k < t.len() && t[k] != c {
        lemma_find_char_bounds(t, c, k + 1);
    }
}

pub fn is_ws_char(c: char) -> (r: bool)
    ensures
        r == is_ws(c),
{
    let u = c as u32;
    (0x09 <= u && u <= 0x0d) || u == 0x20 || u == 0x85 || u == 0xa0 || u == 0x1680 || (0x2000
        <= u && u <= 0x200a) || u == 0x2028 || u == 0x2029 || u == 0x202f || u == 0x205f || u
        == 0x3000
}

pub fn skip_ws(t: &Vec<char>, k: usize) -> (r: usize)
    requires
        k <= t.len(),
    ensures
        r == ws_end(t@, k as int),
{
    let mut j = k;
    while j < t.len() && is_ws_char(t[j])
        invariant
            k <= j <= t.len(),
            ws_end(t@, k as int) == ws_end(t@, j as int),
        decreases t.len() - j,
    {
        j = j + 1;
    }
    j
}

pub fn find_char_from(t: &Vec<char>, c: char, k: usize) -> (r: usize)
    requires
        k <= t.len(),
    ensures
        r == find_char(t@, c, k as int),
{
    let mut j = k;
    while j < t.len() && t[j] != c
        invariant
            k <= j <= t.len(),
            find_char(t@, c, k as int) == find_char(t@, c, j as int),
        decreases t.len() - j,
    {
        j = j + 1;
    }
    j
}

/// Whether `p` occurs in `t` at index `i`.
pub fn starts_at(t: &Vec<char>, i: usize, p: &Vec<char>) -> (r: bool)
    ensures
        r == has_at(t@, i as int, p@),
{
    if i > t.len() || p.len() > t.len() - i {
        return false;
    }
    let mut j: usize = 0;
    while j < p.len()
        invariant
            i + p.len() <= t.len(),
            j <= p.len(),
            forall|m: int| 0 <= m < j ==> t@[i + m] == p@[m],
        decreases p.len() - j,
    {
        if t[i + j] != p[j] {
            assert(t@.subrange(i as int, i + p.len())[j as int] != p@[j as int]);
            return false;
        }
        j = j + 1;
    }
    assert(t@.subrange(i as int, i + p.len()) =~= p@);
    true
}

/// The characters `t[a..b]` as a new vector.
pub fn slice_of(t: &Vec<char>, a: usize, b: usize) -> (r: Vec<char>)
    requires
        a <= b <= t.len(),
    ensures
        r@ == t@.subrange(a as int, b as int),
{
    let mut r: Vec<char> = Vec::new();
    let mut j = a;
    while j < b
        invariant
            a <= j <= b <= t.len(),
            r@ == t@.subrange(a as int, j as int),
        decreases b - j,
    {
        r.push(t[j]);
        j = j + 1;
        assert(r@ =~= t@.subrange(a as int, j as int));
    }
    r
}

/// Appends every character of `s` to `out`.
pub fn append_chars(out: &mut Vec<char>, s: &Vec<char>)
    ensures
        final(out)@ == old(out)@ + s@,
{
    let ghost start = out@;
    let mut j: usize = 0;
    while j < s.len()
        invariant
            j <= s.len(),
            out@ == start + s@.subrange(0, j as int),
        decreases s.len() - j,
    {
        out.push(s[j]);
        j = j + 1;
        assert(out@ =~= start + s@.subrange(0, j as int));
    }
    assert(s@.subrange(0, s.len() as int) =~= s@);
}

/// Whether two character vectors hold the same characters.
pub fn same_chars(a: &Vec<char>, b: &Vec<char>) -> (r: bool)
    ensures
        r == (a@ == b@),
{
    if a.len() != b.len() {
        return false;
    }
    let mut j: usize = 0;
    while j < a.len()
        invariant
            a.len() == b.len(),
            j <= a.len(),
            forall|m: int| 0 <= m < j ==> a@[m] == b@[m],
        decreases a.len() - j,
    {
        if a[j] != b[j] {
            return false;
        }
        j = j + 1;
    }
    assert(a@ =~= b@);
    true
}

/// `t` without leading and trailing whitespace.
pub fn trim_chars(t: &Vec<char>) -> (r: Vec<char>)
    ensures
        r@ == trim(t@),
{
    let a = skip_ws(t, 0);
    let mut b = t.len();
    while b > 0 && is_ws_char(t[b - 1])
        invariant
            b <= t.len(),
            ws_back(t@, t.len() as int) == ws_back(t@, b as int),
        decreases b,
    {
        b = b - 1;
    }
    if a < b {
        slice_of(t, a, b)
    } else {
        Vec::new()
    }
}

/// The characters of `s`, one per element.
pub fn chars_of(s: &str) -> (r: Vec<char>)
    ensures
        r@ == s@,
{
    let mut r: Vec<char> = Vec::new();
    for c in it: s.chars()
        invariant
            r@ == it.seq().take(it.index() as int),
    {
        r.push(c);
    }
    r
}

/// Relies on `String::push`: the character is appended at the end.
#[verifier::external_body]
fn push_char(s: &mut String, c: char)
    ensures
        final(s)@ == old(s)@.push(c),
{
    s.push(c);
}

/// The string made of the characters of `v`.
pub fn string_of(v: &Vec<char>) -> (r: String)
    ensures
        r@ == v@,
{
    let mut r = String::new();
    let mut j: usize = 0;
    while j < v.len()
        invariant
            j <= v.len(),
            r@ == v@.subrange(0, j as int),
        decreases v.len() - j,
    {
        push_char(&mut r, v[j]);
        j = j + 1;
        assert(r@ =~= v@.subrange(0, j as int));
    }
    assert(v@.subrange(0, v.len() as int) =~= v@);
    r
}

} // verus!
