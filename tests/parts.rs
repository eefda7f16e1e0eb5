use yaml_include::{
    directive, merge_yaml_values_in_place, tagged_value_as_str, Directive, Doc, Error, Extension, Glob, GlobEntry,
    GlobError, Mode,
};

fn s(t: &str) -> Doc {
    Doc::Str(t.to_string())
}

fn map(entries: Vec<(&str, Doc)>) -> Doc {
    Doc::Mapping(entries.into_iter().map(|(k, v)| (s(k), v)).collect())
}

fn entry(full: &str, rel: &str) -> GlobEntry {
    GlobEntry { full_path: full.to_string(), relative: Some(rel.to_string()) }
}

#[test]
fn fixed_patterns() {
    assert!(Glob::new("a/b.yml", "/w").unwrap().is_fixed());
    assert!(Glob::new("a\\*b.yml", "/w").unwrap().is_fixed());
    assert!(Glob::new("x\\[1\\].yml", "/w").unwrap().is_fixed());
    assert!(!Glob::new("*.yml", "/w").unwrap().is_fixed());
    assert!(!Glob::new("a?.yml", "/w").unwrap().is_fixed());
    assert!(!Glob::new("{a,b}.yml", "/w").unwrap().is_fixed());
    assert!(!Glob::new("a\\\\*.yml", "/w").unwrap().is_fixed());
}

#[test]
fn invalid_pattern_is_refused() {
    match Glob::new("a{b", "/w") {
        Err(GlobError::GlobPatternError(m)) => assert!(!m.is_empty()),
        _ => panic!("pattern accepted"),
    }
}

#[test]
fn selection_excludes_own_file_and_sorts() {
    let g = Glob::new("*.yml", "/w").unwrap();
    let entries = vec![entry("/w/b.yml", "b.yml"), entry("/w/main.yml", "main.yml"), entry("/w/a.yml", "a.yml")];
    assert_eq!(g.select(&entries, "/w/main.yml"), vec!["/w/a.yml".to_string(), "/w/b.yml".to_string()]);
    assert!(g.matches(&entries[1]));
}

#[test]
fn selection_ignores_listing_order() {
    let g = Glob::new("*.yml", "/w").unwrap();
    let one = vec![entry("/w/c.yml", "c.yml"), entry("/w/a.yml", "a.yml"), entry("/w/b.yml", "b.yml")];
    let two = vec![entry("/w/b.yml", "b.yml"), entry("/w/c.yml", "c.yml"), entry("/w/a.yml", "a.yml")];
    assert_eq!(g.select(&one, "/w/main.yml"), g.select(&two, "/w/main.yml"));
}

#[test]
fn separators_are_matched_literally() {
    let g = Glob::new("*.yml", "/w").unwrap();
    assert!(!g.matches(&entry("/w/sub/a.yml", "sub/a.yml")));
    let deep = Glob::new("**/*.yml", "/w").unwrap();
    assert!(deep.matches(&entry("/w/sub/a.yml", "sub/a.yml")));
    let no_rel = GlobEntry { full_path: "/elsewhere/a.yml".to_string(), relative: None };
    assert!(deep.matches(&no_rel));
}

#[test]
fn extension_classes() {
    assert_eq!(Extension::from_ext(Some("yaml")), Extension::Yaml);
    assert_eq!(Extension::from_ext(Some("yml")), Extension::Yaml);
    assert_eq!(Extension::from_ext(Some("json")), Extension::Yaml);
    assert_eq!(Extension::from_ext(Some("txt")), Extension::Text);
    assert_eq!(Extension::from_ext(Some("markdown")), Extension::Text);
    assert_eq!(Extension::from_ext(Some("md")), Extension::Text);
    assert_eq!(Extension::from_ext(Some("YML")), Extension::Binary);
    assert_eq!(Extension::from_ext(Some("png")), Extension::Binary);
    assert_eq!(Extension::from_ext(None), Extension::Binary);
}

#[test]
fn directives_by_tag() {
    assert_eq!(directive("!env"), Some(Directive::Env));
    assert_eq!(directive("!include"), Some(Directive::Include(Mode::ByExtension)));
    assert_eq!(directive("!include_yaml"), Some(Directive::Include(Mode::Yaml)));
    assert_eq!(directive("!include_yml"), Some(Directive::Include(Mode::Yaml)));
    assert_eq!(directive("!include_text"), Some(Directive::Include(Mode::Text)));
    assert_eq!(directive("!include_txt"), Some(Directive::Include(Mode::Text)));
    assert_eq!(directive("!file"), Some(Directive::Include(Mode::Text)));
    assert_eq!(directive("!include_bin"), Some(Directive::Include(Mode::Binary)));
    assert_eq!(directive("!Include"), None);
    assert_eq!(directive("!binary"), None);
}

#[test]
fn payload_as_text() {
    let d = s("a.yml");
    assert_eq!(tagged_value_as_str(&d), Ok(&"a.yml".to_string()));
    let n = Doc::Number("3".to_string());
    assert_eq!(tagged_value_as_str(&n), Err(Error::InvalidStringValue(Doc::Number("3".to_string()))));
}

#[test]
fn merge_disjoint_keys_either_order() {
    let mut first = map(vec![]);
    merge_yaml_values_in_place(&mut first, map(vec![("a", s("X"))])).unwrap();
    merge_yaml_values_in_place(&mut first, map(vec![("b", s("Y"))])).unwrap();
    assert_eq!(first, map(vec![("a", s("X")), ("b", s("Y"))]));
    let mut second = map(vec![]);
    merge_yaml_values_in_place(&mut second, map(vec![("b", s("Y"))])).unwrap();
    merge_yaml_values_in_place(&mut second, map(vec![("a", s("X"))])).unwrap();
    assert_eq!(second, map(vec![("b", s("Y")), ("a", s("X"))]));
}

#[test]
fn merge_shared_key_recurses() {
    let mut acc = map(vec![("k", map(vec![("x", s("1"))])), ("l", Doc::Sequence(vec![s("a")]))]);
    let more = map(vec![("k", map(vec![("y", s("2"))])), ("l", Doc::Sequence(vec![s("b")]))]);
    merge_yaml_values_in_place(&mut acc, more).unwrap();
    assert_eq!(
        acc,
        map(vec![("k", map(vec![("x", s("1")), ("y", s("2"))])), ("l", Doc::Sequence(vec![s("a"), s("b")]))])
    );
}

#[test]
fn merge_mismatch_fails() {
    let mut a = map(vec![("k", s("1"))]);
    assert_eq!(merge_yaml_values_in_place(&mut a, map(vec![("k", s("2"))])), Err(Error::MergeError));
    let mut b = map(vec![("k", Doc::Sequence(vec![]))]);
    assert_eq!(merge_yaml_values_in_place(&mut b, map(vec![("k", map(vec![]))])), Err(Error::MergeError));
    let mut c = s("scalar");
    assert_eq!(merge_yaml_values_in_place(&mut c, s("other")), Err(Error::MergeError));
}
