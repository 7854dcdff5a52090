//! Placeholder substitution: one pass over the given text, in which each
//! `{{ name }}` of a variable of the table is replaced by its text. Text that
//! a substitution puts in is not looked at again.
use vstd::prelude::*;
use crate::directive::{placeholder_end, placeholder_end_at};
use crate::table::{Entries, Table};
use crate::text::append_chars;

verus! {

/// Characters that cannot stand in a name matched as a literal token.
pub open spec fn is_meta(c: char) -> bool {
    c == '(' || c == ')' || c == '[' || c == ']' || c == '*' || c == '+' || c == '?' || c == '|'
        || c == '\\'
}

/// A name that holds such a character is refused.
pub open spec fn refused_name(n: Seq<char>) -> bool {
    exists|j: int| 0 <= j < n.len() && #[trigger] is_meta(n[j])
}

/// The index of the first variable at or after `k` whose name is refused, or -1.
pub open spec fn first_refused(vars: Entries, k: int) -> int
    decreases vars.len() - k,
{
    if k < 0 || k >= vars.len() {
        -1
    } else if refused_name(vars[k].0) {
        k
    } else {
        first_refused(vars, k + 1)
    }
}

/// The index of the first variable at or after `k` whose placeholder starts
/// at `i`, or -1.
pub open spec fn placeholder_owner(t: Seq<char>, i: int, vars: Entries, k: int) -> int
    decreases vars.len() - k,
{
    if k < 0 || k >= vars.len() {
        -1
    } else if i < placeholder_end(t, i, vars[k].0) <= t.len() {
        k
    } else {
        placeholder_owner(t, i, vars, k + 1)
    }
}

/// `t` from index `i` on, with each placeholder of a variable replaced by the
/// variable's text, scanning left to right over `t` alone.
pub open spec fn substitute_from(t: Seq<char>, i: int, vars: Entries) -> Seq<char>
    decreases t.len() - i,
{
    if i < 0 || i >= t.len() {
        Seq::empty()
    } else {
        let k = placeholder_owner(t, i, vars, 0);
        if 0 <= k < vars.len() && i < placeholder_end(t, i, vars[k].0) <= t.len() {
            vars[k].1 + substitute_from(t, placeholder_end(t, i, vars[k].0), vars)
        } else {
            seq![t[i]] + substitute_from(t, i + 1, vars)
        }
    }
}

pub proof fn lemma_first_refused(vars: Entries, k: int)
    requires
        0 <= k <= vars.len(),
    ensures
        first_refused(vars, k) == -1 || (k <= first_refused(vars, k) < vars.len() && refused_name(
            vars[first_refused(vars, k)].0,
        )),
        first_refused(vars, k) == -1 <==> forall|j: int|
            k <= j < vars.len() ==> !refused_name(#[trigger] vars[j].0),
    decreases vars.len() - k,
{
    if k < vars.len() && !refused_name(vars[k].0) {
        lemma_first_refused(vars, k + 1);
    }
}

/// With no variables, substitution keeps the text.
pub proof fn lemma_substitute_without_variables(t: Seq<char>, i: int)
    requires
        0 <= i <= t.len(),
    ensures
        substitute_from(t, i, Seq::empty()) == t.subrange(i, t.len() as int),
    decreases t.len() - i,
{
    if i < t.len() {
        lemma_substitute_without_variables(t, i + 1);
        assert(seq![t[i]] + t.subrange(i + 1, t.len() as int) =~= t.subrange(i, t.len() as int));
    } else {
        assert(t.subrange(i, t.len() as int) =~= Seq::<char>::empty());
    }
}

proof fn lemma_placeholder_owner(t: Seq<char>, i: int, vars: Entries, k: int)
    requires
        0 <= k <= vars.len(),
    ensures
        placeholder_owner(t, i, vars, k) == -1 || k <= placeholder_owner(t, i, vars, k)
            < vars.len(),
    decreases vars.len() - k,
{
    if k < vars.len() && !(i < placeholder_end(t, i, vars[k].0) <= t.len()) {
        lemma_placeholder_owner(t, i, vars, k + 1);
    }
}

fn name_refused(n: &Vec<char>) -> (r: bool)
    ensures
        r == refused_name(n@),
{
    let mut j: usize = 0;
    while j < n.len()
        invariant
            j <= n.len(),
            forall|m: int| 0 <= m < j ==> !is_meta(#[trigger] n@[m]),
        decreases n.len() - j,
    {
        let c = n[j];
        if c == '(' || c == ')' || c == '[' || c == ']' || c == '*' || c == '+' || c == '?' || c
            == '|' || c == '\\' {
            assert(is_meta(n@[j as int]));
            return true;
        }
        j = j + 1;
    }
    false
}

/// The index of the first variable whose name is refused.
pub(crate) fn find_refused(vars: &Table) -> (r: Option<usize>)
    ensures
        match r {
            Some(k) => k == first_refused(vars@, 0) && k < vars@.len(),
            None => first_refused(vars@, 0) == -1,
        },
{
    proof {
        lemma_first_refused(vars@, 0);
    }
    let mut k: usize = 0;
    while k < vars.len()
        invariant
            k <= vars@.len(),
            first_refused(vars@, 0) == first_refused(vars@, k as int),
        decreases vars@.len() - k,
    {
        let (name, _) = vars.entry(k);
        if name_refused(name) {
            return Some(k);
        }
        k = k + 1;
    }
    None
}

fn owner_at(t: &Vec<char>, i: usize, vars: &Table) -> (r: Option<(usize, usize)>)
    requires
        i < t.len(),
    ensures
        match r {
            Some((k, e)) => k == placeholder_owner(t@, i as int, vars@, 0) && k < vars@.len()
                && e == placeholder_end(t@, i as int, vars@[k as int].0) && i < e <= t.len(),
            None => placeholder_owner(t@, i as int, vars@, 0) == -1,
        },
{
    let mut k: usize = 0;
    while k < vars.len()
        invariant
            i < t.len(),
            k <= vars@.len(),
            placeholder_owner(t@, i as int, vars@, 0) == placeholder_owner(t@, i as int, vars@, k as int),
        decreases vars@.len() - k,
    {
        let (name, _) = vars.entry(k);
        let e = placeholder_end_at(t, i, name);
        if e > i {
            return Some((k, e));
        }
        k = k + 1;
    }
    None
}

/// `t` with each placeholder of a variable replaced by the variable's text.
pub(crate) fn substitute_chars(t: &Vec<char>, vars: &Table) -> (r: Vec<char>)
    ensures
        r@ == substitute_from(t@, 0, vars@),
{
    let mut out: Vec<char> = Vec::new();
    let mut i: usize = 0;
    while i < t.len()
        invariant
            i <= t.len(),
            out@ + substitute_from(t@, i as int, vars@) == substitute_from(t@, 0, vars@),
        decreases t.len() - i,
    {
        proof {
            lemma_placeholder_owner(t@, i as int, vars@, 0);
        }
        match owner_at(t, i, vars) {
            Some((k, e)) => {
                let (_, value) = vars.entry(k);
                append_chars(&mut out, value);
                assert(out@ + substitute_from(t@, e as int, vars@) =~= substitute_from(
                    t@,
                    0,
                    vars@,
                ));
                i = e;
            },
            None => {
                out.push(t[i]);
                assert(out@ + substitute_from(t@, i + 1, vars@) =~= substitute_from(t@, 0, vars@));
                i = i + 1;
            },
        }
    }
    assert(out@ =~= out@ + substitute_from(t@, i as int, vars@));
    out
}

} // verus!
