use html_template::{
    html_cleanup, html_find_includes, html_find_variables, html_insert_includes,
    html_insert_variables, html_render_final_html, RenderError, Table,
};

fn render(content: &str, files: &Table) -> Result<String, RenderError> {
    html_render_final_html(content, files)
}

#[test]
fn plain_document_unchanged() {
    let files = Table::new();
    let doc = "<p>Hello {{ x }}</p>\n  indented\n";
    assert_eq!(render(doc, &files).ok().unwrap(), doc);
}

#[test]
fn include_with_variables() {
    let mut files = Table::new();
    files.insert("child.tmpl", "<p>{{ x }}</p>");
    files.insert("vars.txt", "x=42");
    let parent = "<body>\n\t@include \"child.tmpl\"\n\t@variables \"vars.txt\"\n</body>\n";
    let out = render(parent, &files).ok().unwrap();
    assert_eq!(out, "<body>\n<p>42</p></body>\n");
    assert!(!out.contains("@variables"));
}

#[test]
fn untabbed_include_left_untouched() {
    let mut files = Table::new();
    files.insert("a.html", "hello");
    let doc = "  @include \"a.html\"\n";
    assert_eq!(render(doc, &files).ok().unwrap(), doc);
}

#[test]
fn cleanup_is_noop_without_variables() {
    let doc = "a\n  b\n\t@include \"x\"\n";
    let once = html_cleanup(doc);
    assert_eq!(once, doc);
    assert_eq!(html_cleanup(&once), once);
}

#[test]
fn missing_include_fails() {
    let files = Table::new();
    match render("<div>\n\t@include \"nope.html\"\n</div>", &files) {
        Err(RenderError::MissingFile(p)) => assert_eq!(p, "nope.html"),
        _ => panic!("expected a missing file"),
    }
}

#[test]
fn end_to_end_mixed_indent() {
    let mut files = Table::new();
    files.insert("a.html", "hello");
    let doc = "@include \"a.html\"\n\t@include \"a.html\"\n";
    assert_eq!(render(doc, &files).ok().unwrap(), "@include \"a.html\"\nhello\n");
}

#[test]
fn find_includes_keeps_order_and_repeats() {
    let found = html_find_includes("@include \"a\" x @include \"b\"\n\t@include \"a\"");
    assert_eq!(found, vec!["a".to_string(), "b".to_string(), "a".to_string()]);
    assert!(html_find_includes("@include \"a\nb\"").is_empty());
    assert_eq!(html_find_includes("@include \"\""), vec!["".to_string()]);
}

#[test]
fn find_variables_paths() {
    let found = html_find_variables("\t@variables \"v1.txt\"\n@variables \"v2.txt\" @include \"x\"");
    assert_eq!(found, vec!["v1.txt".to_string(), "v2.txt".to_string()]);
}

#[test]
fn placeholder_needs_whitespace() {
    let mut vars = Table::new();
    vars.insert("x", "1");
    assert_eq!(
        html_insert_variables("{{x}} {{ x }} {{  x\t}} {{ xy }}", &vars).ok().unwrap(),
        "{{x}} 1 1 {{ xy }}"
    );
}

#[test]
fn empty_name_matches_two_spaces() {
    let mut vars = Table::new();
    vars.insert("", "v");
    assert_eq!(html_insert_variables("{{ }}|{{  }}", &vars).ok().unwrap(), "{{ }}|v");
}

#[test]
fn include_cycle_is_reported() {
    let mut files = Table::new();
    files.insert("a.html", "x\n\t@include \"a.html\"\n");
    match render("\t@include \"a.html\"", &files) {
        Err(RenderError::IncludeCycle(p)) => assert_eq!(p, "a.html"),
        _ => panic!("expected a cycle"),
    }
}

#[test]
fn nested_includes_resolve() {
    let mut files = Table::new();
    files.insert("outer.html", "<div>\n\t@include \"inner.html\"\n</div>");
    files.insert("inner.html", "in");
    let out = render("\t@include \"outer.html\"\n", &files).ok().unwrap();
    assert_eq!(out, "<div>\nin\n</div>\n");
}

#[test]
fn cleanup_removes_variables_line() {
    assert_eq!(html_cleanup("x\n @variables \"v\" y"), "xy");
    assert_eq!(html_cleanup("x\n@variables \"v\"\n"), "x\n@variables \"v\"\n");
    assert_eq!(html_cleanup("x\n\t@variables \"v\""), "x");
    assert_eq!(html_cleanup("x\n\t@variables \"\"\n"), "x\n\t@variables \"\"\n");
}

#[test]
fn splice_replaces_every_indented_line_of_a_path() {
    let mut files = Table::new();
    files.insert("a", "hello");
    let includes = vec!["a".to_string()];
    let out = html_insert_includes("\t@include \"a\"\n\t\t@include  \"a\"\n", &includes, &files);
    assert_eq!(out.ok().unwrap(), "hello\nhello\n");
}

#[test]
fn variables_from_included_file_apply_at_top() {
    let mut files = Table::new();
    files.insert("head.html", "\t@variables \"v.txt\"\n<h1>{{ t }}</h1>");
    files.insert("v.txt", "t=Title");
    let out = render("<html>\n\t@include \"head.html\"\n{{ t }}\n", &files).ok().unwrap();
    assert_eq!(out, "<html><h1>Title</h1>\nTitle\n");
}

#[test]
fn cleanup_removes_consecutive_variables_lines() {
    let out = html_cleanup("x\n\t@variables \"a\"\n\t@variables \"b\"\n");
    assert_eq!(out, "x");
    let out = html_cleanup("<p>\n  @variables \"a\"\n  @variables \"b\"\n  @variables \"c\"\n</p>\n");
    assert_eq!(out, "<p></p>\n");
}

#[test]
fn render_removes_consecutive_variables_lines() {
    let mut files = Table::new();
    files.insert("a.txt", "x=1");
    files.insert("b.txt", "y=2");
    let doc = "{{ x }}{{ y }}\n\t@variables \"a.txt\"\n\t@variables \"b.txt\"\n";
    let out = render(doc, &files).ok().unwrap();
    assert_eq!(out, "12");
    assert!(!out.contains("@variables"));
}

#[test]
fn substituted_text_is_not_substituted_again() {
    let mut vars = Table::new();
    vars.insert("x", "{{ y }}");
    vars.insert("y", "Z");
    assert_eq!(html_insert_variables("{{ x }}", &vars).ok().unwrap(), "{{ y }}");
    let mut vars = Table::new();
    vars.insert("y", "Z");
    vars.insert("x", "{{ y }}");
    assert_eq!(html_insert_variables("{{ x }}", &vars).ok().unwrap(), "{{ y }}");
}

#[test]
fn value_does_not_join_following_text() {
    let mut vars = Table::new();
    vars.insert("x", "{");
    vars.insert("y", "Z");
    assert_eq!(html_insert_variables("{{ x }}{ y }}", &vars).ok().unwrap(), "{{ y }}");
}

#[test]
fn refused_name_is_a_pattern_error() {
    let mut vars = Table::new();
    vars.insert("ok", "1");
    vars.insert("a(", "1");
    match html_insert_variables("{{ a( }}", &vars) {
        Err(RenderError::InvalidName(n)) => assert_eq!(n, "a("),
        _ => panic!("expected an invalid name"),
    }
}

#[test]
fn render_fails_on_refused_name() {
    let mut files = Table::new();
    files.insert("v.txt", "a(=1\nb=2");
    match render("{{ b }}\n\t@variables \"v.txt\"\n", &files) {
        Err(RenderError::InvalidName(n)) => assert_eq!(n, "a("),
        _ => panic!("expected an invalid name"),
    }
}

#[test]
fn cleanup_repeats_until_no_line_is_left() {
    let doc = "A\n @variables\n @variables \"x\"  \"p\" B";
    let out = html_cleanup(doc);
    assert_eq!(out, "AB");
    assert_eq!(html_cleanup(&out), out);
}
