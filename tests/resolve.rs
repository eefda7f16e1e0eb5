use yaml_include::{
    read, Doc, Error, Flattener, GlobEntry, GlobError, LoadError, PathInfo, Request, Sources, Stop, Transformer,
};

fn s(t: &str) -> Doc {
    Doc::Str(t.to_string())
}

fn tagged(tag: &str, value: Doc) -> Doc {
    Doc::Tagged(tag.to_string(), Box::new(value))
}

fn map(entries: Vec<(&str, Doc)>) -> Doc {
    Doc::Mapping(entries.into_iter().map(|(k, v)| (s(k), v)).collect())
}

fn file(w: &mut Sources, path: &str) {
    w.add_path(path.to_string(), PathInfo { is_file: true, canonical: Ok(path.to_string()) });
}

fn document(w: &mut Sources, path: &str, d: Doc) {
    file(w, path);
    w.add_document(path.to_string(), Ok(d));
}

fn cycle() -> Sources {
    let mut w = Sources::new();
    document(&mut w, "/w/a.yml", map(vec![("name", s("a")), ("next", tagged("!include", s("b.yml")))]));
    document(&mut w, "/w/b.yml", map(vec![("name", s("b")), ("next", tagged("!include", s("a.yml")))]));
    w
}

#[test]
fn env_value_is_substituted() {
    let mut w = Sources::new();
    document(&mut w, "/w/main.yml", map(vec![("value", tagged("!env", s("MY_VAR")))]));
    w.add_variable("MY_VAR".to_string(), Some("hello".to_string()));
    assert_eq!(read(&w, "/w/main.yml"), Ok(map(vec![("value", s("hello"))])));
}

#[test]
fn env_unset_gives_null() {
    let mut w = Sources::new();
    document(&mut w, "/w/main.yml", map(vec![("value", tagged("!env", s("MY_VAR")))]));
    w.add_variable("MY_VAR".to_string(), None);
    assert_eq!(read(&w, "/w/main.yml"), Ok(map(vec![("value", Doc::Null)])));
}

#[test]
fn missing_facts_are_requested_in_turn() {
    let mut w = Sources::new();
    assert_eq!(read(&w, "/w/main.yml"), Err(Stop::Need(Request::Path("/w/main.yml".to_string()))));
    file(&mut w, "/w/main.yml");
    assert_eq!(read(&w, "/w/main.yml"), Err(Stop::Need(Request::Document("/w/main.yml".to_string()))));
    w.add_document("/w/main.yml".to_string(), Ok(map(vec![("value", tagged("!env", s("MY_VAR")))])));
    assert_eq!(read(&w, "/w/main.yml"), Err(Stop::Need(Request::Env("MY_VAR".to_string()))));
}

#[test]
fn text_include_gives_the_text() {
    let mut w = Sources::new();
    document(&mut w, "/w/main.yml", map(vec![("notes", tagged("!include_text", s("notes.txt")))]));
    file(&mut w, "/w/notes.txt");
    w.add_text("/w/notes.txt".to_string(), Ok("hi\n".to_string()));
    assert_eq!(read(&w, "/w/main.yml"), Ok(map(vec![("notes", s("hi\n"))])));
}

#[test]
fn binary_include_gives_a_binary_record() {
    let mut w = Sources::new();
    document(&mut w, "/w/main.yml", map(vec![("logo", tagged("!include_bin", s("logo.png")))]));
    file(&mut w, "/w/logo.png");
    w.add_bytes("/w/logo.png".to_string(), Ok(vec![1, 2, 3, 255]));
    let expected = map(vec![(
        "logo",
        tagged("!binary", map(vec![("filename", s("logo.png")), ("base64", s("AQID/w=="))])),
    )]);
    assert_eq!(read(&w, "/w/main.yml"), Ok(expected));
}

#[test]
fn include_by_extension() {
    let mut w = Sources::new();
    document(
        &mut w,
        "/w/main.yml",
        map(vec![
            ("doc", tagged("!include", s("sub/part.json"))),
            ("text", tagged("!include", s("/abs/readme.md"))),
            ("data", tagged("!include", s("blob"))),
        ]),
    );
    file(&mut w, "/w/sub/part.json");
    w.add_document("/w/sub/part.json".to_string(), Ok(map(vec![("deep", tagged("!include_txt", s("x.bin")))])));
    file(&mut w, "/w/sub/x.bin");
    w.add_text("/w/sub/x.bin".to_string(), Ok("from sub".to_string()));
    file(&mut w, "/abs/readme.md");
    w.add_text("/abs/readme.md".to_string(), Ok("# title".to_string()));
    file(&mut w, "/w/blob");
    w.add_bytes("/w/blob".to_string(), Ok(b"Man".to_vec()));
    let expected = map(vec![
        ("doc", map(vec![("deep", s("from sub"))])),
        ("text", s("# title")),
        ("data", tagged("!binary", map(vec![("filename", s("blob")), ("base64", s("TWFu"))]))),
    ]);
    assert_eq!(read(&w, "/w/main.yml"), Ok(expected));
}

#[test]
fn unknown_tags_and_scalars_pass_through() {
    let mut w = Sources::new();
    let d = Doc::Sequence(vec![
        tagged("!custom", s("kept")),
        Doc::Number("1.5".to_string()),
        Doc::Bool(true),
        Doc::Null,
        Doc::Mapping(vec![(tagged("!include", s("key-not-resolved")), s("v"))]),
    ]);
    document(&mut w, "/w/main.yml", d.copy());
    assert_eq!(read(&w, "/w/main.yml"), Ok(d));
}

#[test]
fn resolving_twice_gives_the_same_document() {
    let w = cycle();
    let t = Transformer::new(&w, "/w/a.yml", false).unwrap();
    let first = t.parse(&w).unwrap();
    let second = t.parse(&w).unwrap();
    assert_eq!(first, second);
    let mut again = Sources::new();
    document(&mut again, "/w/a.yml", first.copy());
    assert_eq!(read(&again, "/w/a.yml"), Ok(first));
}

#[test]
fn circular_graceful_gives_marker() {
    let w = cycle();
    let t = Transformer::new(&w, "/w/a.yml", false).unwrap();
    let expected = map(vec![
        ("name", s("a")),
        ("next", map(vec![("name", s("b")), ("next", tagged("!circular", s("a.yml")))])),
    ]);
    assert_eq!(t.parse(&w), Ok(expected));
}

#[test]
fn test_transformer_circular_error() {
    let w = cycle();
    let t = Transformer::new(&w, "/w/a.yml", true).unwrap();
    assert_eq!(t.parse(&w), Err(Stop::Fail(Error::CircularReference("/w/a.yml".to_string()))));
}

#[test]
fn self_inclusion_is_circular() {
    let mut w = Sources::new();
    document(&mut w, "/w/main.yml", map(vec![("me", tagged("!include_yaml", s("main.yml")))]));
    assert_eq!(
        read(&w, "/w/main.yml"),
        Err(Stop::Fail(Error::CircularReference("/w/main.yml".to_string())))
    );
}

#[test]
fn siblings_do_not_share_inclusion_history() {
    let mut w = Sources::new();
    document(
        &mut w,
        "/w/main.yml",
        map(vec![("one", tagged("!include", s("c.yml"))), ("two", tagged("!include", s("c.yml")))]),
    );
    document(&mut w, "/w/c.yml", s("common"));
    assert_eq!(read(&w, "/w/main.yml"), Ok(map(vec![("one", s("common")), ("two", s("common"))])));
}

#[test]
fn flattener_is_graceful() {
    let w = cycle();
    let f = Flattener::new(&w, "/w/a.yml", &vec![]).unwrap();
    assert!(f.circular_reference_guard("/w/a.yml"));
    assert!(!f.circular_reference_guard("/w/b.yml"));
    assert_eq!(f.process_path(&w, "b.yml"), Ok("/w/b.yml".to_string()));
    let expected = map(vec![
        ("name", s("a")),
        ("next", map(vec![("name", s("b")), ("next", tagged("!circular", s("a.yml")))])),
    ]);
    assert_eq!(f.parse(&w), Ok(expected));
}

#[test]
fn flattener_process_path_needs_a_file() {
    let mut w = Sources::new();
    w.add_path("/w/dir".to_string(), PathInfo { is_file: false, canonical: Ok("/w/dir".to_string()) });
    file(&mut w, "/w/main.yml");
    file(&mut w, "/w/up.yml");
    let f = Flattener::new(&w, "/w/main.yml", &vec!["/w/up.yml".to_string()]).unwrap();
    assert!(f.circular_reference_guard("/w/up.yml"));
    assert_eq!(
        f.process_path(&w, "dir"),
        Err(Stop::Fail(Error::IncludeError("/w/dir".to_string(), "Not a file".to_string())))
    );
    assert_eq!(f.process_path(&w, "/abs/x.yml"), Err(Stop::Need(Request::Path("/abs/x.yml".to_string()))));
}

#[test]
fn not_a_file_is_an_include_error() {
    let mut w = Sources::new();
    document(&mut w, "/w/main.yml", map(vec![("x", tagged("!include", s("dir")))]));
    w.add_path("/w/dir".to_string(), PathInfo { is_file: false, canonical: Ok("/w/dir".to_string()) });
    assert_eq!(
        read(&w, "/w/main.yml"),
        Err(Stop::Fail(Error::IncludeError("/w/dir".to_string(), "Not a file".to_string())))
    );
}

#[test]
fn document_without_parent_folder() {
    let mut w = Sources::new();
    document(&mut w, "/", map(vec![("x", tagged("!include", s("a.yml")))]));
    assert_eq!(read(&w, "/"), Err(Stop::Fail(Error::NoParentError("/".to_string()))));
}

#[test]
fn directive_payload_must_be_a_string() {
    let mut w = Sources::new();
    document(&mut w, "/w/main.yml", map(vec![("x", tagged("!include", Doc::Bool(true)))]));
    assert_eq!(read(&w, "/w/main.yml"), Err(Stop::Fail(Error::InvalidStringValue(Doc::Bool(true)))));
}

#[test]
fn read_failures_are_reported() {
    let mut w = Sources::new();
    document(
        &mut w,
        "/w/main.yml",
        map(vec![("t", tagged("!file", s("t.txt"))), ("p", tagged("!include", s("bad.yml")))]),
    );
    file(&mut w, "/w/t.txt");
    w.add_text("/w/t.txt".to_string(), Err("stream did not contain valid UTF-8".to_string()));
    assert_eq!(
        read(&w, "/w/main.yml"),
        Err(Stop::Fail(Error::IoError("stream did not contain valid UTF-8".to_string())))
    );
    w.add_text("/w/t.txt".to_string(), Ok("ok".to_string()));
    file(&mut w, "/w/bad.yml");
    w.add_document("/w/bad.yml".to_string(), Err(LoadError::Parse("bad indentation".to_string())));
    assert_eq!(read(&w, "/w/main.yml"), Err(Stop::Fail(Error::ParsingError("bad indentation".to_string()))));
}

#[test]
fn canonicalize_failure_is_an_io_error() {
    let mut w = Sources::new();
    w.add_path("/w/gone.yml".to_string(), PathInfo { is_file: false, canonical: Err("No such file".to_string()) });
    assert_eq!(read(&w, "/w/gone.yml"), Err(Stop::Fail(Error::IoError("No such file".to_string()))));
}

#[test]
fn glob_merges_matches_in_path_order() {
    let mut w = Sources::new();
    document(&mut w, "/w/main.yml", map(vec![("all", tagged("!include", s("*.yml")))]));
    w.add_listing(
        "/w".to_string(),
        Ok(vec![
            GlobEntry { full_path: "/w/y.yml".to_string(), relative: Some("y.yml".to_string()) },
            GlobEntry { full_path: "/w/main.yml".to_string(), relative: Some("main.yml".to_string()) },
            GlobEntry { full_path: "/w/notes.txt".to_string(), relative: Some("notes.txt".to_string()) },
            GlobEntry { full_path: "/w/x.yml".to_string(), relative: Some("x.yml".to_string()) },
        ]),
    );
    w.add_document("/w/x.yml".to_string(), Ok(s("X")));
    w.add_document("/w/y.yml".to_string(), Ok(s("Y")));
    file(&mut w, "/w/x.yml");
    file(&mut w, "/w/y.yml");
    assert_eq!(read(&w, "/w/main.yml"), Ok(map(vec![("all", map(vec![("x", s("X")), ("y", s("Y"))]))])));
}

#[test]
fn glob_needs_a_listing() {
    let mut w = Sources::new();
    document(&mut w, "/w/main.yml", map(vec![("all", tagged("!include_text", s("docs/*.md")))]));
    assert_eq!(read(&w, "/w/main.yml"), Err(Stop::Need(Request::Listing("/w".to_string()))));
    w.add_listing("/w".to_string(), Err(GlobError::FsError("permission denied".to_string())));
    assert_eq!(
        read(&w, "/w/main.yml"),
        Err(Stop::Fail(Error::GlobError(GlobError::FsError("permission denied".to_string()))))
    );
}

#[test]
fn glob_with_same_stems_fails_to_merge() {
    let mut w = Sources::new();
    document(&mut w, "/w/main.yml", map(vec![("all", tagged("!include", s("x.*")))]));
    w.add_listing(
        "/w".to_string(),
        Ok(vec![
            GlobEntry { full_path: "/w/x.yml".to_string(), relative: Some("x.yml".to_string()) },
            GlobEntry { full_path: "/w/x.txt".to_string(), relative: Some("x.txt".to_string()) },
        ]),
    );
    file(&mut w, "/w/x.yml");
    w.add_document("/w/x.yml".to_string(), Ok(map(vec![("k", s("v"))])));
    file(&mut w, "/w/x.txt");
    w.add_text("/w/x.txt".to_string(), Ok("text".to_string()));
    assert_eq!(read(&w, "/w/main.yml"), Err(Stop::Fail(Error::MergeError)));
}

#[test]
fn bad_glob_pattern_is_reported() {
    let mut w = Sources::new();
    document(&mut w, "/w/main.yml", map(vec![("all", tagged("!include", s("[a")))]));
    match read(&w, "/w/main.yml") {
        Err(Stop::Fail(Error::IncludeError(p, m))) => {
            assert_eq!(p, "[a");
            assert!(m.contains("[a"));
        },
        other => panic!("unexpected outcome: {:?}", other),
    }
}

#[test]
fn flattener_compares_canonical_paths() {
    let mut w = cycle();
    w.add_path("/w/x/../a.yml".to_string(), PathInfo { is_file: true, canonical: Ok("/w/a.yml".to_string()) });
    w.add_path("./b.yml".to_string(), PathInfo { is_file: true, canonical: Ok("/w/b.yml".to_string()) });
    let f = Flattener::new(&w, "/w/x/../a.yml", &vec!["./b.yml".to_string()]).unwrap();
    assert!(f.circular_reference_guard("/w/a.yml"));
    assert!(f.circular_reference_guard("/w/b.yml"));
    assert!(!f.circular_reference_guard("/w/x/../a.yml"));
    let expected = map(vec![("name", s("a")), ("next", tagged("!circular", s("b.yml")))]);
    assert_eq!(f.parse(&w), Ok(expected));
}

#[test]
fn flattener_asks_for_unknown_paths() {
    let w = Sources::new();
    assert!(matches!(
        Flattener::new(&w, "/w/a.yml", &vec![]),
        Err(Stop::Need(Request::Path(p))) if p == "/w/a.yml"
    ));
}

#[test]
fn deeply_nested_pattern_is_an_include_error() {
    let mut pattern = String::new();
    for _ in 0..300 {
        pattern.push_str("{a,");
    }
    pattern.push('a');
    for _ in 0..300 {
        pattern.push('}');
    }
    let mut w = Sources::new();
    document(&mut w, "/w/main.yml", map(vec![("all", tagged("!include", s(&pattern)))]));
    match read(&w, "/w/main.yml") {
        Err(Stop::Fail(Error::IncludeError(p, m))) => {
            assert_eq!(p, pattern);
            assert!(!m.is_empty());
        },
        other => panic!("unexpected outcome: {:?}", other),
    }
}
