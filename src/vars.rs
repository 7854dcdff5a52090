//! Variable files: one `name=value` binding per line.
use vstd::prelude::*;
use crate::table::{Entries, Table, insert, lookup, lemma_lookup_insert, lemma_key_pos};
use crate::text::{
    find_char, trim, chars_of, find_char_from, slice_of, trim_chars, lemma_find_char_bounds,
};

verus! {

/// The binding that one line holds: the trimmed text before the first `=`,
/// and the trimmed text between the first `=` and the next one (or the end).
/// A line without `=` holds none.
pub open spec fn line_binding(l: Seq<char>) -> Option<(Seq<char>, Seq<char>)> {
    let p = find_char(l, '=', 0);
    if 0 <= p < l.len() {
        let q = find_char(l, '=', p + 1);
        if p + 1 <= q <= l.len() {
            Some((trim(l.subrange(0, p)), trim(l.subrange(p + 1, q))))
        } else {
            None
        }
    } else {
        None
    }
}

/// `s` after reading the binding of line `l`, if it holds one.
pub open spec fn add_line(s: Entries, l: Seq<char>) -> Entries {
    match line_binding(l) {
        Some(b) => insert(s, b.0, b.1),
        None => s,
    }
}

/// `s` after reading, in order, the lines of `t` from index `i` on.
pub open spec fn load_from(t: Seq<char>, i: int, s: Entries) -> Entries
    decreases t.len() - i,
{
    if i < 0 || i > t.len() {
        s
    } else {
        let e = find_char(t, '\n', i);
        if i <= e && e < t.len() {
            load_from(t, e + 1, add_line(s, t.subrange(i, e)))
        } else if i <= e {
            add_line(s, t.subrange(i, e))
        } else {
            s
        }
    }
}

/// `s` after reading every line of the variable file `t`.
pub open spec fn load_text(t: Seq<char>, s: Entries) -> Entries {
    load_from(t, 0, s)
}

proof fn lemma_find_char_is(t: Seq<char>, c: char, k: int, j: int)
    requires
        0 <= k <= j <= t.len(),
        forall|m: int| k <= m < j ==> #[trigger] t[m] != c,
        j == t.len() || t[j] == c,
    ensures
        find_char(t, c, k) == j,
    decreases j - k,
{
    if k < j {
        lemma_find_char_is(t, c, k + 1, j);
    }
}

/// The binding of one line, as `line_binding` states it.
pub fn parse_line(l: &Vec<char>) -> (r: Option<(Vec<char>, Vec<char>)>)
    ensures
        match r {
            Some(b) => line_binding(l@) == Some((b.0@, b.1@)),
            None => line_binding(l@) is None,
        },
{
    let p = find_char_from(l, '=', 0);
    proof {
        lemma_find_char_bounds(l@, '=', 0);
    }
    if p >= l.len() {
        return None;
    }
    let q = find_char_from(l, '=', p + 1);
    proof {
        lemma_find_char_bounds(l@, '=', p + 1);
    }
    let name = trim_chars(&slice_of(l, 0, p));
    let value = trim_chars(&slice_of(l, p + 1, q));
    Some((name, value))
}

/// Reads every `name=value` line of `content` into `store`, in order; a later
/// binding of a name replaces an earlier one, and lines without `=` are
/// skipped.
pub fn load_variables(content: &str, store: &mut Table)
    ensures
        final(store)@ == load_text(content@, old(store)@),
{
    let t = chars_of(content);
    load_variables_chars(&t, store);
}

pub(crate) fn load_variables_chars(t: &Vec<char>, store: &mut Table)
    ensures
        final(store)@ == load_text(t@, old(store)@),
{
    let mut i: usize = 0;
    let mut done = false;
    while !done
        invariant
            i <= t.len(),
            !done ==> load_text(t@, old(store)@) == load_from(t@, i as int, store@),
            done ==> store@ == load_text(t@, old(store)@),
        decreases t.len() - i + if done { 0int } else { 1int },
    {
        let e = find_char_from(t, '\n', i);
        proof {
            lemma_find_char_bounds(t@, '\n', i as int);
        }
        let line = slice_of(t, i, e);
        match parse_line(&line) {
            Some(b) => store.insert_chars(b.0, b.1),
            None => {},
        }
        if e < t.len() {
            i = e + 1;
        } else {
            done = true;
        }
    }
}

/// Loading a line `name=value` (neither part holding `=`, no line break) binds
/// the trimmed name to the trimmed value, whatever whitespace surrounds them
/// and whatever the store held before.
pub proof fn lemma_load_binding_line(name: Seq<char>, value: Seq<char>, s: Entries)
    requires
        forall|j: int| 0 <= j < name.len() ==> #[trigger] name[j] != '=' && name[j] != '\n',
        forall|j: int| 0 <= j < value.len() ==> #[trigger] value[j] != '=' && value[j] != '\n',
    ensures
        lookup(load_text(name + seq!['='] + value, s), trim(name)) == Some(trim(value)),
{
    let l = name + seq!['='] + value;
    let n = name.len() as int;
    assert forall|m: int| 0 <= m < n implies #[trigger] l[m] != '=' by {
        assert(l[m] == name[m]);
    }
    lemma_find_char_is(l, '=', 0, n);
    assert forall|m: int| n + 1 <= m < l.len() implies #[trigger] l[m] != '=' by {
        assert(l[m] == value[m - n - 1]);
    }
    lemma_find_char_is(l, '=', n + 1, l.len() as int);
    assert forall|m: int| 0 <= m < l.len() implies #[trigger] l[m] != '\n' by {
        if m < n {
            assert(l[m] == name[m]);
        } else if m > n {
            assert(l[m] == value[m - n - 1]);
        }
    }
    lemma_find_char_is(l, '\n', 0, l.len() as int);
    assert(l.subrange(0, n) =~= name);
    assert(l.subrange(n + 1, l.len() as int) =~= value);
    assert(l.subrange(0, l.len() as int) =~= l);
    lemma_lookup_insert(s, trim(name), trim(value), trim(name));
}

/// A line without `=` binds nothing: loading it leaves the store as it was.
pub proof fn lemma_load_line_without_binding(l: Seq<char>, s: Entries)
    requires
        forall|j: int| 0 <= j < l.len() ==> #[trigger] l[j] != '=' && l[j] != '\n',
    ensures
        load_text(l, s) == s,
{
    lemma_find_char_is(l, '=', 0, l.len() as int);
    lemma_find_char_is(l, '\n', 0, l.len() as int);
    assert(l.subrange(0, l.len() as int) =~= l);
}

proof fn lemma_lookup_empty(k: Seq<char>)
    ensures
        lookup(Seq::<(Seq<char>, Seq<char>)>::empty(), k) is None,
{
    lemma_key_pos(Seq::<(Seq<char>, Seq<char>)>::empty(), k);
}

proof fn lemma_lookup_add_line(s: Entries, l: Seq<char>, k: Seq<char>)
    ensures
        lookup(add_line(s, l), k) == match lookup(add_line(Seq::empty(), l), k) {
            Some(v) => Some(v),
            None => lookup(s, k),
        },
{
    lemma_lookup_empty(k);
    match line_binding(l) {
        Some(b) => {
            lemma_lookup_insert(s, b.0, b.1, k);
            lemma_lookup_insert(Seq::empty(), b.0, b.1, k);
        },
        None => {},
    }
}

proof fn lemma_lookup_load_from(t: Seq<char>, i: int, s: Entries, k: Seq<char>)
    requires
        0 <= i <= t.len(),
    ensures
        lookup(load_from(t, i, s), k) == match lookup(load_from(t, i, Seq::empty()), k) {
            Some(v) => Some(v),
            None => lookup(s, k),
        },
    decreases t.len() - i,
{
    lemma_find_char_bounds(t, '\n', i);
    let e = find_char(t, '\n', i);
    let l = t.subrange(i, e);
    lemma_lookup_add_line(s, l, k);
    if e < t.len() {
        lemma_lookup_load_from(t, e + 1, add_line(s, l), k);
        lemma_lookup_load_from(t, e + 1, add_line(Seq::empty(), l), k);
    }
}

/// What a file binds does not depend on the store it is loaded into: a name
/// that `t` binds keeps the text from `t`, any other keeps the store's.
pub proof fn lemma_load_over(t: Seq<char>, s: Entries, k: Seq<char>)
    ensures
        lookup(load_text(t, s), k) == match lookup(load_text(t, Seq::empty()), k) {
            Some(v) => Some(v),
            None => lookup(s, k),
        },
{
    lemma_lookup_load_from(t, 0, s, k);
}

/// Of two variable files loaded one after the other that both bind `k`, the
/// later one's text wins.
pub proof fn lemma_later_file_wins(first: Seq<char>, second: Seq<char>, k: Seq<char>)
    requires
        lookup(load_text(first, Seq::empty()), k) is Some,
        lookup(load_text(second, Seq::empty()), k) is Some,
    ensures
        lookup(load_text(second, load_text(first, Seq::empty())), k) == lookup(
            load_text(second, Seq::empty()),
            k,
        ),
{
    lemma_load_over(second, load_text(first, Seq::empty()), k);
}

proof fn lemma_find_char_shift(p: Seq<char>, b: Seq<char>, c: char, j: int)
    requires
        0 <= j <= b.len(),
    ensures
        find_char(p + b, c, p.len() + j) == p.len() + find_char(b, c, j),
    decreases b.len() - j,
{
    if j < b.len() {
        assert((p + b)[p.len() + j] == b[j]);
        if b[j] != c {
            lemma_find_char_shift(p, b, c, j + 1);
        }
    }
}

proof fn lemma_load_shift(p: Seq<char>, b: Seq<char>, j: int, s: Entries)
    requires
        0 <= j <= b.len(),
    ensures
        load_from(p + b, p.len() + j, s) == load_from(b, j, s),
    decreases b.len() - j,
{
    lemma_find_char_shift(p, b, '\n', j);
    lemma_find_char_bounds(b, '\n', j);
    let e = find_char(b, '\n', j);
    assert((p + b).subrange(p.len() + j, p.len() + e) =~= b.subrange(j, e));
    if e < b.len() {
        lemma_load_shift(p, b, e + 1, add_line(s, b.subrange(j, e)));
    }
}

proof fn lemma_load_concat(a: Seq<char>, b: Seq<char>, i: int, s: Entries)
    requires
        0 <= i <= a.len(),
    ensures
        load_from(a + seq!['\n'] + b, i, s) == load_text(b, load_from(a, i, s)),
    decreases a.len() - i,
{
    let t = a + seq!['\n'] + b;
    lemma_find_char_bounds(a, '\n', i);
    let ea = find_char(a, '\n', i);
    assert forall|m: int| i <= m < ea implies #[trigger] t[m] != '\n' by {
        assert(t[m] == a[m]);
    }
    if ea < a.len() {
        assert(t[ea] == a[ea]);
    }
    lemma_find_char_is(t, '\n', i, ea);
    assert(t.subrange(i, ea) =~= a.subrange(i, ea));
    let s2 = add_line(s, a.subrange(i, ea));
    if ea < a.len() {
        lemma_load_concat(a, b, ea + 1, s2);
    } else {
        lemma_load_shift(a + seq!['\n'], b, 0, s2);
    }
}

/// Loading a file binds the trimmed name of a line `name=value` anywhere in
/// it to the trimmed value, unless a later line binds that name again.
pub proof fn lemma_load_binding_in_file(
    before: Seq<char>,
    name: Seq<char>,
    value: Seq<char>,
    after: Seq<char>,
    s: Entries,
)
    requires
        forall|j: int| 0 <= j < name.len() ==> #[trigger] name[j] != '=' && name[j] != '\n',
        forall|j: int| 0 <= j < value.len() ==> #[trigger] value[j] != '=' && value[j] != '\n',
        lookup(load_text(after, Seq::empty()), trim(name)) is None,
    ensures
        lookup(
            load_text(before + seq!['\n'] + (name + seq!['='] + value) + seq!['\n'] + after, s),
            trim(name),
        ) == Some(trim(value)),
{
    let line = name + seq!['='] + value;
    let x = before + seq!['\n'] + line;
    lemma_load_concat(x, after, 0, s);
    lemma_load_concat(before, line, 0, s);
    lemma_load_binding_line(name, value, load_text(before, s));
    lemma_load_over(after, load_text(line, load_text(before, s)), trim(name));
}

/// A line without `=` anywhere in a file binds nothing: the file loads as if
/// the line were not there.
pub proof fn lemma_line_without_binding_in_file(
    before: Seq<char>,
    l: Seq<char>,
    after: Seq<char>,
    s: Entries,
)
    requires
        forall|j: int| 0 <= j < l.len() ==> #[trigger] l[j] != '=' && l[j] != '\n',
    ensures
        load_text(before + seq!['\n'] + l + seq!['\n'] + after, s) == load_text(
            before + seq!['\n'] + after,
            s,
        ),
{
    lemma_load_concat(before + seq!['\n'] + l, after, 0, s);
    lemma_load_concat(before, l, 0, s);
    lemma_load_line_without_binding(l, load_text(before, s));
    lemma_load_concat(before, after, 0, s);
}

} // verus!
