//! Rendering a template: includes are spliced in, rendered to any depth,
//! then the variables that the expanded text names are substituted and the
//! variables lines removed.
//!
//! Files are not read here. The renderer is handed a table of the files known
//! so far; when it needs one that the table lacks it stops and names it, and
//! the caller reads that file, adds it and renders again. An include chain
//! that goes deeper than the number of known files must visit some file twice
//! and would never end; the renderer reports it instead.
use vstd::prelude::*;
use crate::directive::{
    Pattern, Shape, mentions, include_kw, variables_kw, lemma_no_references,
    lemma_cleanup_idempotent, lemma_splice_needs_tab, cleanup_chars, holds_variables_line,
    lemma_cleanup_leaves_no_line, lemma_no_mention_no_line, cleanup, includes_of, replace_all, replace_matches, variables_of,
    include_paths, variables_paths,
};
use crate::subst::{
    find_refused, first_refused, lemma_substitute_without_variables, lemma_first_refused, refused_name, substitute_chars,
    substitute_from,
};
use crate::table::{Entries, Table, lookup};
use crate::text::{chars_of, string_of};
use crate::vars::{load_text, load_variables_chars};

verus! {

/// Why a render stopped, over plain values.
pub enum Failure {
    MissingFile(Seq<char>),
    IncludeCycle(Seq<char>),
    InvalidName(Seq<char>),
}

/// Why a render stopped.
pub enum RenderError {
    /// The file at this path is needed and is not among the known files.
    MissingFile(String),
    /// This include would be rendered inside itself.
    IncludeCycle(String),
    /// This variable name cannot be matched as a literal token.
    InvalidName(String),
}

impl RenderError {
    pub open spec fn failure(&self) -> Failure {
        match self {
            RenderError::MissingFile(p) => Failure::MissingFile(p@),
            RenderError::IncludeCycle(p) => Failure::IncludeCycle(p@),
            RenderError::InvalidName(n) => Failure::InvalidName(n@),
        }
    }
}

pub open spec fn outcome(r: Result<String, RenderError>) -> Result<Seq<char>, Failure> {
    match r {
        Ok(s) => Ok(s@),
        Err(e) => Err(e.failure()),
    }
}

pub open spec fn paths_view(v: Seq<String>) -> Seq<Seq<char>> {
    v.map_values(|s: String| s@)
}

/// Render `t`: splice its includes, then substitute the variables of the
/// files that the expanded text names, then remove the variables lines.
/// `depth` bounds how many include levels may still be opened.
pub open spec fn render(t: Seq<char>, files: Entries, depth: nat) -> Result<Seq<char>, Failure>
    decreases depth, 1nat, 0nat,
{
    match splice_all(t, includes_of(t), files, depth) {
        Err(e) => Err(e),
        Ok(d) => match load_files(variables_of(d), files, Seq::empty()) {
            Err(e) => Err(e),
            Ok(vars) => match substitute(d, vars) {
                Err(e) => Err(e),
                Ok(s) => Ok(cleanup(s)),
            },
        },
    }
}

/// For each path in order: render that file and put the result in place of
/// every include line of that path in `doc`.
pub open spec fn splice_all(doc: Seq<char>, paths: Seq<Seq<char>>, files: Entries, depth: nat) -> Result<
    Seq<char>,
    Failure,
>
    decreases depth, 0nat, paths.len(),
{
    if paths.len() == 0 {
        Ok(doc)
    } else {
        let p = paths[0];
        match lookup(files, p) {
            None => Err(Failure::MissingFile(p)),
            Some(c) => if depth == 0 {
                Err(Failure::IncludeCycle(p))
            } else {
                match render(c, files, (depth - 1) as nat) {
                    Err(e) => Err(e),
                    Ok(out) => splice_all(
                        replace_all(doc, Shape::IncludeLine(p), out),
                        paths.drop_first(),
                        files,
                        depth,
                    ),
                }
            },
        }
    }
}

/// `s` after loading, in order, the variable files at `paths`.
pub open spec fn load_files(paths: Seq<Seq<char>>, files: Entries, s: Entries) -> Result<
    Entries,
    Failure,
>
    decreases paths.len(),
{
    if paths.len() == 0 {
        Ok(s)
    } else {
        match lookup(files, paths[0]) {
            None => Err(Failure::MissingFile(paths[0])),
            Some(c) => load_files(paths.drop_first(), files, load_text(c, s)),
        }
    }
}

/// `t` with its placeholders substituted in one pass; the first refused
/// name of the table, if any, is an error instead.
pub open spec fn substitute(t: Seq<char>, vars: Entries) -> Result<Seq<char>, Failure> {
    let k = first_refused(vars, 0);
    if 0 <= k < vars.len() {
        Err(Failure::InvalidName(vars[k].0))
    } else {
        Ok(substitute_from(t, 0, vars))
    }
}

/// Substitution fails exactly when the table holds a refused name.
pub proof fn lemma_substitute_fails_on_refused_name(t: Seq<char>, vars: Entries)
    ensures
        substitute(t, vars) is Err <==> exists|k: int|
            0 <= k < vars.len() && refused_name(#[trigger] vars[k].0),
{
    lemma_first_refused(vars, 0);
}

fn strings_to_chars(v: &Vec<String>) -> (r: Vec<Vec<char>>)
    ensures
        r@.map_values(|c: Vec<char>| c@) == paths_view(v@),
{
    let mut r: Vec<Vec<char>> = Vec::new();
    let mut i: usize = 0;
    while i < v.len()
        invariant
            i <= v.len(),
            r@.map_values(|c: Vec<char>| c@) == paths_view(v@).subrange(0, i as int),
        decreases v.len() - i,
    {
        let ghost before = r@.map_values(|c: Vec<char>| c@);
        let c = chars_of(v[i].as_str());
        r.push(c);
        assert(r@.map_values(|c: Vec<char>| c@) =~= before.push(paths_view(v@)[i as int]));
        i = i + 1;
        assert(r@.map_values(|c: Vec<char>| c@) =~= paths_view(v@).subrange(0, i as int));
    }
    assert(paths_view(v@).subrange(0, i as int) =~= paths_view(v@));
    r
}

fn chars_to_strings(v: &Vec<Vec<char>>) -> (r: Vec<String>)
    ensures
        paths_view(r@) == v@.map_values(|c: Vec<char>| c@),
{
    let mut r: Vec<String> = Vec::new();
    let mut i: usize = 0;
    while i < v.len()
        invariant
            i <= v.len(),
            paths_view(r@) == v@.map_values(|c: Vec<char>| c@).subrange(0, i as int),
        decreases v.len() - i,
    {
        let ghost before = paths_view(r@);
        let c = string_of(&v[i]);
        r.push(c);
        assert(paths_view(r@) =~= before.push(v@.map_values(|c: Vec<char>| c@)[i as int]));
        i = i + 1;
        assert(paths_view(r@) =~= v@.map_values(|c: Vec<char>| c@).subrange(0, i as int));
    }
    assert(v@.map_values(|c: Vec<char>| c@).subrange(0, i as int) =~= v@.map_values(
        |c: Vec<char>| c@,
    ));
    r
}

fn load_files_chars(paths: &Vec<Vec<char>>, files: &Table) -> (r: Result<Table, RenderError>)
    ensures
        match r {
            Ok(t) => load_files(paths@.map_values(|c: Vec<char>| c@), files@, Seq::empty())
                == Ok::<Entries, Failure>(t@),
            Err(e) => load_files(paths@.map_values(|c: Vec<char>| c@), files@, Seq::empty())
                == Err::<Entries, Failure>(e.failure()),
        },
{
    let ghost ps = paths@.map_values(|c: Vec<char>| c@);
    let mut store = Table::new();
    let mut i: usize = 0;
    assert(ps.subrange(0, ps.len() as int) =~= ps);
    while i < paths.len()
        invariant
            i <= paths.len(),
            ps == paths@.map_values(|c: Vec<char>| c@),
            load_files(ps, files@, Seq::empty()) == load_files(
                ps.subrange(i as int, ps.len() as int),
                files@,
                store@,
            ),
        decreases paths.len() - i,
    {
        assert(ps.subrange(i as int, ps.len() as int).drop_first() =~= ps.subrange(
            i + 1,
            ps.len() as int,
        ));
        match files.get_chars(&paths[i]) {
            None => {
                return Err(RenderError::MissingFile(string_of(&paths[i])));
            },
            Some(c) => {
                load_variables_chars(c, &mut store);
            },
        }
        i = i + 1;
    }
    assert(ps.subrange(i as int, ps.len() as int) =~= Seq::<Seq<char>>::empty());
    Ok(store)
}

fn substitute_checked(t: &Vec<char>, vars: &Table) -> (r: Result<Vec<char>, RenderError>)
    ensures
        match r {
            Ok(s) => substitute(t@, vars@) == Ok::<Seq<char>, Failure>(s@),
            Err(e) => substitute(t@, vars@) == Err::<Seq<char>, Failure>(e.failure()),
        },
{
    match find_refused(vars) {
        Some(k) => {
            let (name, _) = vars.entry(k);
            Err(RenderError::InvalidName(string_of(name)))
        },
        None => {
            proof {
                lemma_first_refused(vars@, 0);
            }
            Ok(substitute_chars(t, vars))
        },
    }
}

fn render_chars(t: &Vec<char>, files: &Table, depth: usize) -> (r: Result<Vec<char>, RenderError>)
    ensures
        match r {
            Ok(s) => render(t@, files@, depth as nat) == Ok::<Seq<char>, Failure>(s@),
            Err(e) => render(t@, files@, depth as nat) == Err::<Seq<char>, Failure>(e.failure()),
        },
    decreases depth, 1nat,
{
    let paths = include_paths(t);
    let d = splice_chars(t, &paths, files, depth)?;
    let vpaths = variables_paths(&d);
    let vars = load_files_chars(&vpaths, files)?;
    let s = substitute_checked(&d, &vars)?;
    Ok(cleanup_chars(&s))
}

fn splice_chars(doc: &Vec<char>, paths: &Vec<Vec<char>>, files: &Table, depth: usize) -> (r:
    Result<Vec<char>, RenderError>)
    ensures
        match r {
            Ok(s) => splice_all(doc@, paths@.map_values(|c: Vec<char>| c@), files@, depth as nat)
                == Ok::<Seq<char>, Failure>(s@),
            Err(e) => splice_all(doc@, paths@.map_values(|c: Vec<char>| c@), files@, depth as nat)
                == Err::<Seq<char>, Failure>(e.failure()),
        },
    decreases depth, 0nat,
{
    let ghost ps = paths@.map_values(|c: Vec<char>| c@);
    let mut cur: Vec<char> = Vec::new();
    crate::text::append_chars(&mut cur, doc);
    let mut i: usize = 0;
    assert(cur@ =~= doc@);
    assert(ps.subrange(0, ps.len() as int) =~= ps);
    while i < paths.len()
        invariant
            i <= paths.len(),
            ps == paths@.map_values(|c: Vec<char>| c@),
            splice_all(doc@, ps, files@, depth as nat) == splice_all(
                cur@,
                ps.subrange(i as int, ps.len() as int),
                files@,
                depth as nat,
            ),
        decreases paths.len() - i,
    {
        assert(ps.subrange(i as int, ps.len() as int).drop_first() =~= ps.subrange(
            i + 1,
            ps.len() as int,
        ));
        let p = &paths[i];
        match files.get_chars(p) {
            None => {
                return Err(RenderError::MissingFile(string_of(p)));
            },
            Some(c) => {
                if depth == 0 {
                    return Err(RenderError::IncludeCycle(string_of(p)));
                }
                let out = render_chars(c, files, depth - 1)?;
                let mut pc: Vec<char> = Vec::new();
                crate::text::append_chars(&mut pc, p);
                cur = replace_matches(&cur, &Pattern::IncludeLine(pc), &out);
            },
        }
        i = i + 1;
    }
    assert(ps.subrange(i as int, ps.len() as int) =~= Seq::<Seq<char>>::empty());
    Ok(cur)
}

/// The paths of the `@include "path"` references in `content`, first to
/// last, repeats kept.
pub fn html_find_includes(content: &str) -> (r: Vec<String>)
    ensures
        paths_view(r@) == includes_of(content@),
{
    chars_to_strings(&include_paths(&chars_of(content)))
}

/// The paths of the `@variables "path"` references in `content`, first to
/// last, repeats kept.
pub fn html_find_variables(content: &str) -> (r: Vec<String>)
    ensures
        paths_view(r@) == variables_of(content@),
{
    chars_to_strings(&variables_paths(&chars_of(content)))
}

/// Renders each file at `includes`, in order, and puts it in place of the
/// tab-indented include lines of its path.
pub fn html_insert_includes(content: &str, includes: &Vec<String>, files: &Table) -> (r: Result<
    String,
    RenderError,
>)
    ensures
        outcome(r) == splice_all(content@, paths_view(includes@), files@, files@.len()),
{
    let t = chars_of(content);
    let paths = strings_to_chars(includes);
    match splice_chars(&t, &paths, files, files.len()) {
        Ok(d) => Ok(string_of(&d)),
        Err(e) => Err(e),
    }
}

/// Removes every variables line from `content`, until none is left.
pub fn html_cleanup(content: &str) -> (r: String)
    ensures
        r@ == cleanup(content@),
        !holds_variables_line(r@),
{
    proof {
        lemma_cleanup_leaves_no_line(content@);
    }
    let t = chars_of(content);
    string_of(&cleanup_chars(&t))
}

/// Replaces, in one pass over `content`, each `{{ name }}` placeholder of a
/// variable by its text. Fails when a name of the table is refused.
pub fn html_insert_variables(content: &str, variables: &Table) -> (r: Result<String, RenderError>)
    ensures
        outcome(r) == substitute(content@, variables@),
        r is Err <==> exists|k: int|
            0 <= k < variables@.len() && refused_name(#[trigger] variables@[k].0),
{
    proof {
        lemma_substitute_fails_on_refused_name(content@, variables@);
    }
    let t = chars_of(content);
    match substitute_checked(&t, variables) {
        Ok(d) => Ok(string_of(&d)),
        Err(e) => Err(e),
    }
}

/// Loads the variable files at `paths`, in order, into one table; a later
/// binding of a name replaces an earlier one.
pub fn load_variables_from_files(paths: &Vec<String>, files: &Table) -> (r: Result<
    Table,
    RenderError,
>)
    ensures
        match r {
            Ok(t) => load_files(paths_view(paths@), files@, Seq::empty()) == Ok::<
                Entries,
                Failure,
            >(t@),
            Err(e) => load_files(paths_view(paths@), files@, Seq::empty()) == Err::<
                Entries,
                Failure,
            >(e.failure()),
        },
{
    load_files_chars(&strings_to_chars(paths), files)
}

/// Renders `content` against the known `files`, allowing as many include
/// levels as there are known files.
pub fn html_render_final_html(content: &str, files: &Table) -> (r: Result<String, RenderError>)
    ensures
        outcome(r) == render(content@, files@, files@.len()),
{
    let t = chars_of(content);
    match render_chars(&t, files, files.len()) {
        Ok(d) => Ok(string_of(&d)),
        Err(e) => Err(e),
    }
}

/// A document that mentions neither `@include` nor `@variables` renders to
/// itself.
pub proof fn lemma_plain_document_unchanged(t: Seq<char>, files: Entries, depth: nat)
    requires
        !mentions(t, include_kw()),
        !mentions(t, variables_kw()),
    ensures
        render(t, files, depth) == Ok::<Seq<char>, Failure>(t),
{
    lemma_no_references(t, include_kw());
    lemma_no_references(t, variables_kw());
    lemma_substitute_without_variables(t, 0);
    assert(t.subrange(0, t.len() as int) =~= t);
    lemma_no_mention_no_line(t);
    lemma_cleanup_idempotent(t);
}

/// Include lines must be tab-indented: in a document without tabs no include
/// is spliced. Splicing either fails or returns the document as it was, and
/// it returns the document whenever each listed file is known and renders.
pub proof fn lemma_untabbed_includes_kept(
    t: Seq<char>,
    paths: Seq<Seq<char>>,
    files: Entries,
    depth: nat,
)
    requires
        forall|j: int| 0 <= j < t.len() ==> #[trigger] t[j] != '\t',
    ensures
        splice_all(t, paths, files, depth) is Err || splice_all(t, paths, files, depth) == Ok::<
            Seq<char>,
            Failure,
        >(t),
        (depth > 0 && forall|k: int|
            0 <= k < paths.len() ==> #[trigger] lookup(files, paths[k]) is Some && render(
                lookup(files, paths[k])->0,
                files,
                (depth - 1) as nat,
            ) is Ok) ==> splice_all(t, paths, files, depth) == Ok::<Seq<char>, Failure>(t),
    decreases paths.len(),
{
    if paths.len() > 0 {
        let rest = paths.drop_first();
        assert forall|k: int| 0 <= k < rest.len() implies #[trigger] rest[k] == paths[k + 1] by {}
        assert((depth > 0 && forall|k: int|
            0 <= k < paths.len() ==> #[trigger] lookup(files, paths[k]) is Some && render(
                lookup(files, paths[k])->0,
                files,
                (depth - 1) as nat,
            ) is Ok) ==> (forall|k: int|
            0 <= k < rest.len() ==> #[trigger] lookup(files, rest[k]) is Some && render(
                lookup(files, rest[k])->0,
                files,
                (depth - 1) as nat,
            ) is Ok)) by {
            if depth > 0 && forall|k: int|
                0 <= k < paths.len() ==> #[trigger] lookup(files, paths[k]) is Some && render(
                    lookup(files, paths[k])->0,
                    files,
                    (depth - 1) as nat,
                ) is Ok {
                assert forall|k: int| 0 <= k < rest.len() implies #[trigger] lookup(files, rest[k])
                    is Some && render(lookup(files, rest[k])->0, files, (depth - 1) as nat)
                    is Ok by {
                    assert(rest[k] == paths[k + 1]);
                    assert(lookup(files, paths[k + 1]) is Some);
                }
            }
        }
        match lookup(files, paths[0]) {
            None => {},
            Some(c) => if depth > 0 {
                match render(c, files, (depth - 1) as nat) {
                    Err(e) => {},
                    Ok(out) => {
                        lemma_splice_needs_tab(t, paths[0], out);
                        lemma_untabbed_includes_kept(t, rest, files, depth);
                    },
                }
            },
        }
    }
}

/// When the first include of a document names a file that is not known, the
/// render fails on that path and yields no text.
pub proof fn lemma_missing_include_fails(t: Seq<char>, files: Entries, depth: nat)
    requires
        includes_of(t).len() > 0,
        lookup(files, includes_of(t)[0]) is None,
    ensures
        render(t, files, depth) == Err::<Seq<char>, Failure>(
            Failure::MissingFile(includes_of(t)[0]),
        ),
{
}

/// A failure inside an included file aborts the render of the file that
/// includes it: the same error comes out and no text. Applied level by level,
/// a file missing anywhere down the include chain fails the whole render.
pub proof fn lemma_include_failure_propagates(
    t: Seq<char>,
    files: Entries,
    depth: nat,
    c: Seq<char>,
    e: Failure,
)
    requires
        includes_of(t).len() > 0,
        lookup(files, includes_of(t)[0]) == Some(c),
        depth > 0,
        render(c, files, (depth - 1) as nat) == Err::<Seq<char>, Failure>(e),
    ensures
        render(t, files, depth) == Err::<Seq<char>, Failure>(e),
{
}

} // verus!
