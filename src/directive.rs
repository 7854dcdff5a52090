//! The directive grammar: finding `@include "..."` and `@variables "..."`
//! references, matching a `{{ name }}` placeholder, and rewriting the two
//! line shapes that the renderer replaces (an indented include line, a run
//! of variables lines).
use vstd::prelude::*;
use crate::text::{
    is_ws, ws_end, has_at, starts_at, skip_ws, slice_of, append_chars, lemma_ws_end_bounds,
};

verus! {

pub open spec fn include_kw() -> Seq<char> {
    seq!['@', 'i', 'n', 'c', 'l', 'u', 'd', 'e']
}

pub open spec fn variables_kw() -> Seq<char> {
    seq!['@', 'v', 'a', 'r', 'i', 'a', 'b', 'l', 'e', 's']
}

/// A keyword followed by one space and an opening quote.
pub open spec fn opener(kw: Seq<char>) -> Seq<char> {
    kw + seq![' ', '"']
}

/// The first index at or after `k` holding a quote or a line break, or the
/// length of `t`.
pub open spec fn quote_end(t: Seq<char>, k: int) -> int
    decreases t.len() - k,
{
    if k < 0 || k >= t.len() {
        if k < 0 { 0 } else { t.len() as int }
    } else if t[k] == '"' || t[k] == '\n' {
        k
    } else {
        quote_end(t, k + 1)
    }
}

/// A reference `kw "path"` starts at `i`: the path runs to the next quote on
/// the same line.
pub open spec fn reference_at(t: Seq<char>, i: int, kw: Seq<char>) -> bool {
    let a = i + opener(kw).len();
    has_at(t, i, opener(kw)) && quote_end(t, a) < t.len() && t[quote_end(t, a)] == '"'
}

/// The paths of the non-overlapping references `kw "path"` in `t` from index
/// `i` on, first to last.
pub open spec fn references_from(t: Seq<char>, kw: Seq<char>, i: int) -> Seq<Seq<char>>
    decreases t.len() - i,
{
    if i < 0 || i >= t.len() {
        Seq::empty()
    } else if reference_at(t, i, kw) {
        let a = i + opener(kw).len();
        let e = quote_end(t, a);
        if i < e {
            seq![t.subrange(a, e)] + references_from(t, kw, e + 1)
        } else {
            Seq::empty()
        }
    } else {
        references_from(t, kw, i + 1)
    }
}

pub open spec fn includes_of(t: Seq<char>) -> Seq<Seq<char>> {
    references_from(t, include_kw(), 0)
}

pub open spec fn variables_of(t: Seq<char>) -> Seq<Seq<char>> {
    references_from(t, variables_kw(), 0)
}

/// The shapes that the renderer rewrites.
pub enum Shape {
    /// One or more tabs, `@include`, whitespace, and the quoted path.
    IncludeLine(Seq<char>),
    /// A line break, whitespace, `@variables`, whitespace, a quoted path of
    /// at least one character on that line, and one whitespace character.
    VariablesLine,
}

/// The first index at or after `k` that is not a tab, or the length of `t`.
pub open spec fn tab_end(t: Seq<char>, k: int) -> int
    decreases t.len() - k,
{
    if k < 0 || k >= t.len() {
        if k < 0 { 0 } else { t.len() as int }
    } else if t[k] == '\t' {
        tab_end(t, k + 1)
    } else {
        k
    }
}

/// The first index `q` at or after `k` that holds a quote, with no line
/// break in `t[k..q]`; or -1.
pub open spec fn closing_quote(t: Seq<char>, k: int) -> int
    decreases t.len() - k,
{
    if k < 0 || k >= t.len() {
        -1
    } else if t[k] == '"' {
        k
    } else if t[k] == '\n' {
        -1
    } else {
        closing_quote(t, k + 1)
    }
}

pub open spec fn include_line_end(t: Seq<char>, i: int, path: Seq<char>) -> int {
    if 0 <= i < t.len() && t[i] == '\t' {
        let a = tab_end(t, i);
        let b = ws_end(t, a + include_kw().len());
        if has_at(t, a, include_kw()) && b > a + include_kw().len() && has_at(
            t,
            b,
            seq!['"'] + path + seq!['"'],
        ) {
            b + path.len() + 2
        } else {
            i
        }
    } else {
        i
    }
}

pub open spec fn placeholder_end(t: Seq<char>, i: int, name: Seq<char>) -> int {
    if has_at(t, i, seq!['{', '{']) {
        let a = ws_end(t, i + 2);
        let b = ws_end(t, a + name.len());
        if name.len() > 0 {
            if a > i + 2 && has_at(t, a, name) && b > a + name.len() && has_at(
                t,
                b,
                seq!['}', '}'],
            ) {
                b + 2
            } else {
                i
            }
        } else if a >= i + 4 && has_at(t, a, seq!['}', '}']) {
            a + 2
        } else {
            i
        }
    } else {
        i
    }
}

/// One variables line starting at the line break `i`: the line break,
/// whitespace, `@variables`, whitespace, a quoted path of at least one
/// character on that line, and the whitespace character after it if any.
pub open spec fn variables_single_end(t: Seq<char>, i: int) -> int {
    if 0 <= i < t.len() && t[i] == '\n' {
        let a = ws_end(t, i + 1);
        let b = ws_end(t, a + variables_kw().len());
        let q = closing_quote(t, b + 2);
        if a > i + 1 && has_at(t, a, variables_kw()) && b > a + variables_kw().len() && b + 1
            < t.len() && t[b] == '"' && t[b + 1] != '\n' && q >= 0 {
            if q + 1 < t.len() && is_ws(t[q + 1]) {
                q + 2
            } else {
                q + 1
            }
        } else {
            i
        }
    } else {
        i
    }
}

/// A run of consecutive variables lines starting at `i`: where one line ends
/// on the line break that begins the next, the run goes on.
pub open spec fn variables_line_end(t: Seq<char>, i: int) -> int
    decreases t.len() - i,
{
    let e = variables_single_end(t, i);
    if 0 <= i && i < e - 1 && e <= t.len() && t[e - 1] == '\n' && variables_single_end(t, e - 1)
        > e - 1 {
        variables_line_end(t, e - 1)
    } else {
        e
    }
}

/// Where the match of `shape` that starts at `i` ends; `i` itself when none
/// starts there.
pub open spec fn match_end(t: Seq<char>, i: int, shape: Shape) -> int {
    match shape {
        Shape::IncludeLine(path) => include_line_end(t, i, path),
        Shape::VariablesLine => variables_line_end(t, i),
    }
}

/// `t` from index `i` on, with each match of `shape`, leftmost first and not
/// overlapping, replaced by `rep`.
pub open spec fn replace_from(t: Seq<char>, i: int, shape: Shape, rep: Seq<char>) -> Seq<char>
    decreases t.len() - i,
{
    if i < 0 || i >= t.len() {
        Seq::empty()
    } else {
        let e = match_end(t, i, shape);
        if i < e <= t.len() {
            rep + replace_from(t, e, shape, rep)
        } else {
            seq![t[i]] + replace_from(t, i + 1, shape, rep)
        }
    }
}

pub open spec fn replace_all(t: Seq<char>, shape: Shape, rep: Seq<char>) -> Seq<char> {
    replace_from(t, 0, shape, rep)
}

/// `t` with every variables line removed.
/// One pass that removes the variables lines of `t`.
pub open spec fn cleanup_pass(t: Seq<char>) -> Seq<char> {
    replace_all(t, Shape::VariablesLine, Seq::empty())
}

/// `t` with variables lines removed pass after pass, until a pass finds none
/// (a removal can bring the pieces of another line together).
pub open spec fn cleanup(t: Seq<char>) -> Seq<char>
    decreases t.len(),
{
    let u = cleanup_pass(t);
    if u.len() < t.len() {
        cleanup(u)
    } else {
        u
    }
}

proof fn lemma_quote_end_bounds(t: Seq<char>, k: int)
    requires
        0 <= k <= t.len(),
    ensures
        k <= quote_end(t, k) <= t.len(),
    decreases t.len() - k,
{
    if k < t.len() && t[k] != '"' && t[k] != '\n' {
        lemma_quote_end_bounds(t, k + 1);
    }
}

proof fn lemma_tab_end_bounds(t: Seq<char>, k: int)
    requires
        0 <= k <= t.len(),
    ensures
        k <= tab_end(t, k) <= t.len(),
        tab_end(t, k) < t.len() ==> t[tab_end(t, k)] != '\t',
    decreases t.len() - k,
{
    if k < t.len() && t[k] == '\t' {
        lemma_tab_end_bounds(t, k + 1);
    }
}

proof fn lemma_closing_quote_bounds(t: Seq<char>, k: int)
    requires
        0 <= k,
    ensures
        closing_quote(t, k) == -1 || (k <= closing_quote(t, k) && closing_quote(t, k) < t.len()
            && t[closing_quote(t, k)] == '"'),
    decreases t.len() - k,
{
    if k < t.len() && t[k] != '"' && t[k] != '\n' {
        lemma_closing_quote_bounds(t, k + 1);
    }
}

/// The shape to match, with its text held in vectors.
pub(crate) enum Pattern {
    IncludeLine(Vec<char>),
    VariablesLine,
}

impl Pattern {
    pub(crate) open spec fn shape(&self) -> Shape {
        match self {
            Pattern::IncludeLine(p) => Shape::IncludeLine(p@),
            Pattern::VariablesLine => Shape::VariablesLine,
        }
    }
}

fn include_keyword() -> (r: Vec<char>)
    ensures
        r@ == include_kw(),
{
    let r = vec!['@', 'i', 'n', 'c', 'l', 'u', 'd', 'e'];
    assert(r@ =~= include_kw());
    r
}

fn variables_keyword() -> (r: Vec<char>)
    ensures
        r@ == variables_kw(),
{
    let r = vec!['@', 'v', 'a', 'r', 'i', 'a', 'b', 'l', 'e', 's'];
    assert(r@ =~= variables_kw());
    r
}

fn skip_tabs(t: &Vec<char>, k: usize) -> (r: usize)
    requires
        k <= t.len(),
    ensures
        r == tab_end(t@, k as int),
{
    let mut j = k;
    while j < t.len() && t[j] == '\t'
        invariant
            k <= j <= t.len(),
            tab_end(t@, k as int) == tab_end(t@, j as int),
        decreases t.len() - j,
    {
        j = j + 1;
    }
    j
}

fn find_quote_end(t: &Vec<char>, k: usize) -> (r: usize)
    requires
        k <= t.len(),
    ensures
        r == quote_end(t@, k as int),
{
    let mut j = k;
    while j < t.len() && t[j] != '"' && t[j] != '\n'
        invariant
            k <= j <= t.len(),
            quote_end(t@, k as int) == quote_end(t@, j as int),
        decreases t.len() - j,
    {
        j = j + 1;
    }
    j
}

fn find_closing_quote(t: &Vec<char>, k: usize) -> (r: Option<usize>)
    ensures
        match r {
            Some(q) => q == closing_quote(t@, k as int),
            None => closing_quote(t@, k as int) == -1,
        },
{
    let mut j = k;
    while j < t.len()
        invariant
            k <= j,
            closing_quote(t@, k as int) == closing_quote(t@, j as int),
        decreases t.len() - j,
    {
        if t[j] == '"' {
            return Some(j);
        }
        if t[j] == '\n' {
            return None;
        }
        j = j + 1;
    }
    None
}

fn quoted(path: &Vec<char>) -> (r: Vec<char>)
    ensures
        r@ == seq!['"'] + path@ + seq!['"'],
{
    let mut r: Vec<char> = vec!['"'];
    append_chars(&mut r, path);
    r.push('"');
    assert(r@ =~= seq!['"'] + path@ + seq!['"']);
    r
}

fn include_line_end_at(t: &Vec<char>, i: usize, quoted_path: &Vec<char>, Ghost(path): Ghost<
    Seq<char>,
>) -> (r: usize)
    requires
        i < t.len(),
        quoted_path@ == seq!['"'] + path + seq!['"'],
    ensures
        r == include_line_end(t@, i as int, path),
        r <= t.len(),
{
    if t[i] != '\t' {
        return i;
    }
    let a = skip_tabs(t, i);
    proof {
        lemma_tab_end_bounds(t@, i as int);
    }
    let kw = include_keyword();
    if !starts_at(t, a, &kw) {
        return i;
    }
    let b = skip_ws(t, a + 8);
    proof {
        lemma_ws_end_bounds(t@, a + 8);
    }
    if b > a + 8 && starts_at(t, b, quoted_path) {
        b + quoted_path.len()
    } else {
        i
    }
}

pub(crate) fn placeholder_end_at(t: &Vec<char>, i: usize, name: &Vec<char>) -> (r: usize)
    requires
        i < t.len(),
    ensures
        r == placeholder_end(t@, i as int, name@),
        r <= t.len(),
{
    let open_braces = vec!['{', '{'];
    let close_braces = vec!['}', '}'];
    assert(open_braces@ =~= seq!['{', '{']);
    assert(close_braces@ =~= seq!['}', '}']);
    if !starts_at(t, i, &open_braces) {
        return i;
    }
    let a = skip_ws(t, i + 2);
    proof {
        lemma_ws_end_bounds(t@, i + 2);
    }
    if name.len() > 0 {
        if a > i + 2 && starts_at(t, a, name) {
            let b = skip_ws(t, a + name.len());
            proof {
                lemma_ws_end_bounds(t@, a + name@.len());
            }
            if b > a + name.len() && starts_at(t, b, &close_braces) {
                return b + 2;
            }
        }
        i
    } else if a - i >= 4 && starts_at(t, a, &close_braces) {
        a + 2
    } else {
        i
    }
}

fn variables_single_end_at(t: &Vec<char>, i: usize) -> (r: usize)
    requires
        i < t.len(),
    ensures
        r == variables_single_end(t@, i as int),
        r <= t.len(),
        r == i || r > i + 1,
{
    if t[i] != '\n' {
        return i;
    }
    let a = skip_ws(t, i + 1);
    proof {
        lemma_ws_end_bounds(t@, i + 1);
    }
    let kw = variables_keyword();
    if !(a > i + 1 && starts_at(t, a, &kw)) {
        return i;
    }
    let b = skip_ws(t, a + 10);
    proof {
        lemma_ws_end_bounds(t@, a + 10);
    }
    if !(b > a + 10 && b < t.len() && b + 1 < t.len() && t[b] == '"' && t[b + 1] != '\n') {
        return i;
    }
    match find_closing_quote(t, b + 2) {
        Some(q) => {
            proof {
                lemma_closing_quote_bounds(t@, b + 2);
            }
            if q + 1 < t.len() && crate::text::is_ws_char(t[q + 1]) {
                q + 2
            } else {
                q + 1
            }
        },
        None => i,
    }
}

fn variables_line_end_at(t: &Vec<char>, i: usize) -> (r: usize)
    requires
        i < t.len(),
    ensures
        r == variables_line_end(t@, i as int),
        r <= t.len(),
{
    let mut cur = i;
    let mut e = variables_single_end_at(t, i);
    let mut going = true;
    while going
        invariant
            i <= cur < t.len(),
            e == variables_single_end(t@, cur as int),
            e <= t.len(),
            e == cur || e > cur + 1,
            going ==> variables_line_end(t@, i as int) == variables_line_end(t@, cur as int),
            !going ==> variables_line_end(t@, i as int) == e,
        decreases t.len() - cur + if going { 1int } else { 0int },
    {
        if e > cur + 1 && t[e - 1] == '\n' {
            let f = variables_single_end_at(t, e - 1);
            if f > e - 1 {
                cur = e - 1;
                e = f;
            } else {
                going = false;
            }
        } else {
            going = false;
        }
    }
    e
}

/// Where the match of `p` that starts at `i` ends, given the quoted path of an
/// include line.
fn match_end_at(t: &Vec<char>, i: usize, p: &Pattern, quoted_path: &Vec<char>) -> (r: usize)
    requires
        i < t.len(),
        p matches Pattern::IncludeLine(path) ==> quoted_path@ == seq!['"'] + path@ + seq!['"'],
    ensures
        r == match_end(t@, i as int, p.shape()),
        r <= t.len(),
{
    proof {
        lemma_tab_end_bounds(t@, i as int);
        lemma_ws_end_bounds(t@, i as int);
    }
    let r = match p {
        Pattern::IncludeLine(path) => include_line_end_at(t, i, quoted_path, Ghost(path@)),
        Pattern::VariablesLine => variables_line_end_at(t, i),
    };
    r
}

/// `t` with each match of `p`, leftmost first and not overlapping, replaced
/// by `rep`.
pub(crate) fn replace_matches(t: &Vec<char>, p: &Pattern, rep: &Vec<char>) -> (r: Vec<char>)
    ensures
        r@ == replace_all(t@, p.shape(), rep@),
{
    let quoted_path = match p {
        Pattern::IncludeLine(path) => quoted(path),
        _ => Vec::new(),
    };
    let mut out: Vec<char> = Vec::new();
    let mut i: usize = 0;
    while i < t.len()
        invariant
            i <= t.len(),
            p matches Pattern::IncludeLine(path) ==> quoted_path@ == seq!['"'] + path@ + seq![
                '"',
            ],
            out@ + replace_from(t@, i as int, p.shape(), rep@) == replace_all(t@, p.shape(), rep@),
        decreases t.len() - i,
    {
        let e = match_end_at(t, i, p, &quoted_path);
        if e > i {
            append_chars(&mut out, rep);
            assert(out@ + replace_from(t@, e as int, p.shape(), rep@) =~= replace_all(
                t@,
                p.shape(),
                rep@,
            ));
            i = e;
        } else {
            out.push(t[i]);
            assert(out@ + replace_from(t@, i + 1, p.shape(), rep@) =~= replace_all(
                t@,
                p.shape(),
                rep@,
            ));
            i = i + 1;
        }
    }
    assert(out@ =~= out@ + replace_from(t@, i as int, p.shape(), rep@));
    out
}

/// The paths of the non-overlapping references `kw "path"` in `t`.
fn references(t: &Vec<char>, kw: &Vec<char>) -> (r: Vec<Vec<char>>)
    ensures
        r@.map_values(|v: Vec<char>| v@) == references_from(t@, kw@, 0),
{
    let mut op = Vec::new();
    append_chars(&mut op, kw);
    op.push(' ');
    op.push('"');
    assert(op@ =~= opener(kw@));
    let mut r: Vec<Vec<char>> = Vec::new();
    let mut i: usize = 0;
    while i < t.len()
        invariant
            i <= t.len(),
            op@ == opener(kw@),
            r@.map_values(|v: Vec<char>| v@) + references_from(t@, kw@, i as int)
                == references_from(t@, kw@, 0),
        decreases t.len() - i,
    {
        if starts_at(t, i, &op) {
            let a = i + op.len();
            let e = find_quote_end(t, a);
            proof {
                lemma_quote_end_bounds(t@, a as int);
            }
            if e < t.len() && t[e] == '"' {
                let path = slice_of(t, a, e);
                let ghost before = r@.map_values(|v: Vec<char>| v@);
                r.push(path);
                assert(r@.map_values(|v: Vec<char>| v@) =~= before.push(path@));
                assert(r@.map_values(|v: Vec<char>| v@) + references_from(t@, kw@, e + 1)
                    =~= references_from(t@, kw@, 0));
                i = e + 1;
            } else {
                i = i + 1;
            }
        } else {
            i = i + 1;
        }
    }
    assert(r@.map_values(|v: Vec<char>| v@) =~= r@.map_values(|v: Vec<char>| v@)
        + references_from(t@, kw@, i as int));
    r
}

/// The paths of the `@include "path"` references in `t`, first to last.
pub(crate) fn include_paths(t: &Vec<char>) -> (r: Vec<Vec<char>>)
    ensures
        r@.map_values(|v: Vec<char>| v@) == includes_of(t@),
{
    references(t, &include_keyword())
}

/// The paths of the `@variables "path"` references in `t`, first to last.
pub(crate) fn variables_paths(t: &Vec<char>) -> (r: Vec<Vec<char>>)
    ensures
        r@.map_values(|v: Vec<char>| v@) == variables_of(t@),
{
    references(t, &variables_keyword())
}

/// `kw` occurs somewhere in `t`.
pub open spec fn mentions(t: Seq<char>, kw: Seq<char>) -> bool {
    exists|j: int| #[trigger] has_at(t, j, kw)
}

/// Where no match of `shape` starts at or after `i`, rewriting keeps the text.
pub proof fn lemma_replace_without_match(t: Seq<char>, i: int, shape: Shape, rep: Seq<char>)
    requires
        0 <= i <= t.len(),
        forall|j: int| i <= j < t.len() ==> !(j < #[trigger] match_end(t, j, shape) <= t.len()),
    ensures
        replace_from(t, i, shape, rep) == t.subrange(i, t.len() as int),
    decreases t.len() - i,
{
    if i < t.len() {
        lemma_replace_without_match(t, i + 1, shape, rep);
        assert(seq![t[i]] + t.subrange(i + 1, t.len() as int) =~= t.subrange(i, t.len() as int));
    } else {
        assert(t.subrange(i, t.len() as int) =~= Seq::<char>::empty());
    }
}

/// `t` holds a variables line somewhere: a line break, whitespace,
/// `@variables`, whitespace and a quoted path.
pub open spec fn holds_variables_line(t: Seq<char>) -> bool {
    exists|j: int| 0 <= j < t.len() && j < #[trigger] variables_line_end(t, j) <= t.len()
}

proof fn lemma_cleanup_pass_len(t: Seq<char>, i: int)
    requires
        0 <= i <= t.len(),
    ensures
        replace_from(t, i, Shape::VariablesLine, Seq::empty()).len() <= t.len() - i,
        replace_from(t, i, Shape::VariablesLine, Seq::empty()).len() == t.len() - i ==> forall|
            j: int,
        |
            i <= j < t.len() ==> !(j < #[trigger] variables_line_end(t, j) <= t.len()),
    decreases t.len() - i,
{
    if i < t.len() {
        let e = variables_line_end(t, i);
        if i < e <= t.len() {
            lemma_cleanup_pass_len(t, e);
        } else {
            lemma_cleanup_pass_len(t, i + 1);
        }
    }
}

proof fn lemma_no_line_kept(t: Seq<char>)
    requires
        !holds_variables_line(t),
    ensures
        cleanup_pass(t) == t,
        cleanup(t) == t,
{
    assert forall|j: int| 0 <= j < t.len() implies !(j < #[trigger] match_end(
        t,
        j,
        Shape::VariablesLine,
    ) <= t.len()) by {
        assert(!(j < variables_line_end(t, j) <= t.len()));
    }
    lemma_replace_without_match(t, 0, Shape::VariablesLine, Seq::empty());
    assert(t.subrange(0, t.len() as int) =~= t);
}

/// What cleanup returns holds no variables line.
pub proof fn lemma_cleanup_leaves_no_line(t: Seq<char>)
    ensures
        !holds_variables_line(cleanup(t)),
    decreases t.len(),
{
    let u = cleanup_pass(t);
    lemma_cleanup_pass_len(t, 0);
    if u.len() < t.len() {
        lemma_cleanup_leaves_no_line(u);
    } else {
        assert(!holds_variables_line(t));
        lemma_no_line_kept(t);
    }
}

/// Cleanup keeps a text that holds no variables line, and cleaning a text
/// twice gives what cleaning it once gave.
pub proof fn lemma_cleanup_idempotent(t: Seq<char>)
    ensures
        !holds_variables_line(t) ==> cleanup(t) == t,
        cleanup(cleanup(t)) == cleanup(t),
{
    if !holds_variables_line(t) {
        lemma_no_line_kept(t);
    }
    lemma_cleanup_leaves_no_line(t);
    lemma_no_line_kept(cleanup(t));
}

/// A text that never mentions `@variables` holds no variables line.
pub proof fn lemma_no_mention_no_line(t: Seq<char>)
    requires
        !mentions(t, variables_kw()),
    ensures
        !holds_variables_line(t),
{
    assert forall|j: int| 0 <= j < t.len() implies !(j < #[trigger] variables_line_end(t, j)
        <= t.len()) by {
        let a = ws_end(t, j + 1);
        if variables_single_end(t, j) != j {
            assert(has_at(t, a, variables_kw()));
        }
    }
}

proof fn lemma_no_references_from(t: Seq<char>, kw: Seq<char>, i: int)
    requires
        0 <= i,
        !mentions(t, kw),
    ensures
        references_from(t, kw, i) == Seq::<Seq<char>>::empty(),
    decreases t.len() - i,
{
    if i < t.len() {
        if reference_at(t, i, kw) {
            assert(t.subrange(i, i + opener(kw).len()).subrange(0, kw.len() as int) =~= t.subrange(
                i,
                i + kw.len(),
            ));
            assert(opener(kw).subrange(0, kw.len() as int) =~= kw);
            assert(has_at(t, i, kw));
        }
        lemma_no_references_from(t, kw, i + 1);
    }
}

/// A text that never mentions a keyword holds no reference of it.
pub proof fn lemma_no_references(t: Seq<char>, kw: Seq<char>)
    requires
        !mentions(t, kw),
    ensures
        references_from(t, kw, 0) == Seq::<Seq<char>>::empty(),
{
    lemma_no_references_from(t, kw, 0);
}

/// A text without tabs holds no include line: splicing any path keeps it.
pub proof fn lemma_splice_needs_tab(t: Seq<char>, path: Seq<char>, rep: Seq<char>)
    requires
        forall|j: int| 0 <= j < t.len() ==> #[trigger] t[j] != '\t',
    ensures
        replace_all(t, Shape::IncludeLine(path), rep) == t,
{
    lemma_replace_without_match(t, 0, Shape::IncludeLine(path), rep);
    assert(t.subrange(0, t.len() as int) =~= t);
}

/// `t` with variables lines removed until none is left.
pub(crate) fn cleanup_chars(t: &Vec<char>) -> (r: Vec<char>)
    ensures
        r@ == cleanup(t@),
{
    let mut cur: Vec<char> = Vec::new();
    append_chars(&mut cur, t);
    assert(cur@ =~= t@);
    let mut going = true;
    while going
        invariant
            going ==> cleanup(t@) == cleanup(cur@),
            !going ==> cleanup(t@) == cur@,
        decreases cur.len() + if going { 1int } else { 0int },
    {
        proof {
            lemma_cleanup_pass_len(cur@, 0);
        }
        let u = replace_matches(&cur, &Pattern::VariablesLine, &Vec::new());
        if u.len() >= cur.len() {
            going = false;
        }
        cur = u;
    }
    cur
}

} // verus!
