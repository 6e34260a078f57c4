use dflibanalyzer::grouping::group_identical_files;
use dflibanalyzer::ini_doc::IniDoc;
use dflibanalyzer::paths::resolve_path;
use dflibanalyzer::source_scan::{is_source_file, source_file_dependencies, text_dependencies, FileName, SourceFile};
use dflibanalyzer::text::{chars_lex_lt, lower_chars, split_str, str_eq_ignore_ascii_case};

fn names(v: &[FileName]) -> Vec<String> {
    v.iter().map(|n| n.to_string()).collect()
}

#[test]
fn use_statements_name_their_second_word() {
    let deps = text_dependencies("Use cWebView.pkg\n  use   DfAllEnt\nUSE Windows.pkg // comment\n");
    assert_eq!(names(&deps), vec!["cWebView.pkg", "DfAllEnt", "Windows.pkg"]);
}

#[test]
fn lines_that_are_not_use_statements_are_ignored() {
    let deps = text_dependencies("Object oMain is a View\nUse\nUsed x.pkg\n// Use y.pkg\nuse\tTabbed.pkg\r\n");
    assert_eq!(names(&deps), vec!["Tabbed.pkg"]);
}

#[test]
fn whitespace_other_than_space_separates_words() {
    let deps = text_dependencies("Use\u{3000}Wide.pkg\n");
    assert_eq!(names(&deps), vec!["Wide.pkg"]);
}

#[test]
fn a_former_space_separator_stays_inside_a_word() {
    let deps = text_dependencies("Use a\u{180E}b.pkg\u{00A0}Next.pkg\n");
    assert_eq!(names(&deps), vec!["a\u{180E}b.pkg"]);
}

#[test]
fn invalid_utf8_is_replaced_not_rejected() {
    let deps = source_file_dependencies(b"Use a\xffb.pkg\nUse c.pkg\n");
    assert_eq!(names(&deps), vec!["a\u{fffd}b.pkg", "c.pkg"]);
}

#[test]
fn source_file_from_contents_keeps_path() {
    let f = SourceFile::from_contents("/w/AppSrc/main.src".to_string(), b"Use x.pkg\n");
    assert_eq!(f.path, "/w/AppSrc/main.src");
    assert_eq!(names(&f.dependencies), vec!["x.pkg"]);
}

#[test]
fn source_read_error_message() {
    assert_eq!(
        SourceFile::read_error("/w/a.src", "denied"),
        "Couldn't read source file, skipping '/w/a.src': denied"
    );
}

#[test]
fn file_names_compare_without_ascii_case() {
    let a = FileName::from_str("Windows.PKG");
    let b = FileName::from_str("windows.pkg");
    let c = FileName::from_str("windows.pk");
    assert!(a == b);
    assert!(a.same_as(&b));
    assert!(a != c);
    assert!(str_eq_ignore_ascii_case("ÄBC", "Äbc"));
    assert!(!str_eq_ignore_ascii_case("ä", "Ä"));
}

#[test]
fn source_extensions_are_recognized_in_lower_case_only() {
    assert!(is_source_file("/w/AppSrc/a.pkg"));
    assert!(is_source_file("/w/AppSrc/view.vw"));
    assert!(is_source_file("b.inc"));
    assert!(!is_source_file("/w/AppSrc/a.PKG"));
    assert!(!is_source_file("/w/AppSrc/notes.txt"));
    assert!(!is_source_file("/w/AppSrc/pkg"));
}

#[test]
fn split_keeps_empty_pieces() {
    assert_eq!(split_str("a;;b;", ';'), vec!["a", "", "b", ""]);
    assert_eq!(split_str("", ';'), vec![""]);
}

#[test]
fn lexicographic_order_of_names() {
    let a: Vec<char> = "abc".chars().collect();
    let b: Vec<char> = "abd".chars().collect();
    let p: Vec<char> = "ab".chars().collect();
    assert!(chars_lex_lt(&a, &b));
    assert!(!chars_lex_lt(&b, &a));
    assert!(chars_lex_lt(&p, &a));
    assert!(!chars_lex_lt(&a, &a));
    assert_eq!(lower_chars("AbC.Pkg").into_iter().collect::<String>(), "abc.pkg");
}

#[test]
fn paths_resolve_against_a_folder() {
    assert_eq!(resolve_path("/w/app", "/abs/Lib.sws"), Some("/abs/Lib.sws".to_string()));
    assert_eq!(resolve_path("/w/app", "Lib/Lib.sws"), Some("/w/app/Lib/Lib.sws".to_string()));
    assert_eq!(resolve_path("/w/app", "../lib/Lib.sws"), Some("/w/app/../lib/Lib.sws".to_string()));
    let rel = resolve_path("base", "x.sws").unwrap();
    assert!(rel.starts_with('/'));
    assert!(rel.ends_with("base/x.sws"));
}

#[test]
fn groups_number_identical_contents_together() {
    let paths: Vec<String> = vec!["/a".into(), "/b".into(), "/c".into(), "/d".into(), "/e".into()];
    let contents: Vec<Option<Vec<u8>>> = vec![
        Some(b"x".to_vec()),
        Some(b"a".to_vec()),
        None,
        Some(b"x".to_vec()),
        None,
    ];
    assert_eq!(group_identical_files(&paths, &contents), vec![1, 0, 2, 1, 3]);
}

#[test]
fn groups_are_kept_per_path() {
    let paths: Vec<String> = vec!["/a".into(), "/a".into(), "/b".into()];
    let contents: Vec<Option<Vec<u8>>> = vec![Some(b"x".to_vec()), None, Some(b"x".to_vec())];
    assert_eq!(group_identical_files(&paths, &contents), vec![1, 1, 0]);
}

#[test]
fn groups_of_nothing() {
    let paths: Vec<String> = Vec::new();
    let contents: Vec<Option<Vec<u8>>> = Vec::new();
    assert_eq!(group_identical_files(&paths, &contents), Vec::<usize>::new());
}

#[test]
fn ini_file_bytes_skip_a_byte_order_mark() {
    let doc = IniDoc::from_file_bytes(b"\xEF\xBB\xBF[Workspace]\nHome=..\n").unwrap();
    assert_eq!(doc.get_from("Workspace", "Home"), Some("..".to_string()));
    assert!(IniDoc::from_file_bytes(b"[Workspace]\nHome=\xff\n").is_none());
}

#[test]
fn ini_lookup_takes_the_first_section_and_key() {
    let doc = IniDoc::from_file_bytes(b"[A]\nk=1\nk=2\n[a]\nk=3\n[A]\nk=4\n").unwrap();
    assert_eq!(doc.get_from("A", "k"), Some("1".to_string()));
    assert_eq!(doc.get_from("a", "k"), Some("3".to_string()));
    assert_eq!(doc.get_from("A", "missing"), None);
    assert_eq!(doc.values_of("A"), vec!["1".to_string(), "2".to_string()]);
    assert!(doc.has_section("a"));
    assert!(!doc.has_section("B"));
}
