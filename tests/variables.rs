use html_template::{load_variables, load_variables_from_files, RenderError, Table};

#[test]
fn load_trims_name_and_value() {
    let mut t = Table::new();
    load_variables("  title =  Hello World  \n", &mut t);
    assert_eq!(t.get("title"), Some("Hello World".to_string()));
    assert_eq!(t.len(), 1);
}

#[test]
fn line_without_equals_is_skipped() {
    let mut t = Table::new();
    load_variables("just text\n\nx=1", &mut t);
    assert_eq!(t.len(), 1);
    assert_eq!(t.get("just text"), None);
    assert_eq!(t.get("x"), Some("1".to_string()));
}

#[test]
fn value_stops_at_second_equals() {
    let mut t = Table::new();
    load_variables("a=b=c\r\n", &mut t);
    assert_eq!(t.get("a"), Some("b".to_string()));
}

#[test]
fn later_binding_in_one_file_wins() {
    let mut t = Table::new();
    load_variables("k=1\nother=2\nk=3\n", &mut t);
    assert_eq!(t.len(), 2);
    assert_eq!(t.get("k"), Some("3".to_string()));
}

#[test]
fn later_file_wins() {
    let mut files = Table::new();
    files.insert("v1.txt", "name=first\nonly1=a\n");
    files.insert("v2.txt", "name = second\n");
    let paths = vec!["v1.txt".to_string(), "v2.txt".to_string()];
    let vars = load_variables_from_files(&paths, &files).ok().unwrap();
    assert_eq!(vars.get("name"), Some("second".to_string()));
    assert_eq!(vars.get("only1"), Some("a".to_string()));
}

#[test]
fn missing_variables_file_is_an_error() {
    let files = Table::new();
    let paths = vec!["v.txt".to_string()];
    match load_variables_from_files(&paths, &files) {
        Err(RenderError::MissingFile(p)) => assert_eq!(p, "v.txt"),
        _ => panic!("expected a missing file"),
    }
}

#[test]
fn table_insert_replaces_in_place() {
    let mut t = Table::new();
    t.insert("a", "1");
    t.insert("b", "2");
    t.insert("a", "3");
    assert_eq!(t.len(), 2);
    assert_eq!(t.get("a"), Some("3".to_string()));
    assert_eq!(t.get("b"), Some("2".to_string()));
    assert_eq!(t.get("c"), None);
}
