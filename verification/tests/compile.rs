//! Template compilation: anchors, trailing-slash behavior, typed and
//! untyped placeholders, and the compile-time error cases.

use ferrum_router::recognizer::types::Type;
use ferrum_router::recognizer::types::Types;
use ferrum_router::ParamChunk;
use ferrum_router::PatternError;
use ferrum_router::Recognizer;

#[test]
fn recognizer_parse_glob_direct() {
    let types = Types::new();
    let (regex, params) = Recognizer::parse_glob(b"", &types).unwrap();

    assert!(!regex.is_match("test"));
    assert!(regex.is_match(""));
    assert!(regex.is_match("/"));
    assert!(!regex.is_match("//"));
    assert_eq!(params, Vec::<ParamChunk>::new());

    let (regex, params) = Recognizer::parse_glob(b"/", &types).unwrap();

    assert!(!regex.is_match("test"));
    assert!(!regex.is_match(""));
    assert!(regex.is_match("/"));
    assert!(!regex.is_match("//"));
    assert_eq!(params, Vec::<ParamChunk>::new());

    let (regex, params) = Recognizer::parse_glob(b"/posts/new", &types).unwrap();

    assert!(!regex.is_match(""));
    assert!(!regex.is_match("test"));
    assert!(!regex.is_match("/"));
    assert!(regex.is_match("/posts/new"));
    assert!(regex.is_match("/posts/new/"));
    assert!(!regex.is_match("/posts/new//"));
    assert!(!regex.is_match("/posts/new/test"));
    assert_eq!(params, Vec::<ParamChunk>::new());
}

#[test]
fn parse_glob_single_params() {
    let mut types = Types::new();
    let (regex, params) = Recognizer::parse_glob(b"/posts/{id}", &types).unwrap();

    assert!(!regex.is_match(""));
    assert!(!regex.is_match("test"));
    assert!(!regex.is_match("/"));
    assert!(regex.is_match("/posts/12"));
    assert!(regex.is_match("/posts/12/"));
    assert!(!regex.is_match("/posts/12/test"));
    assert!(regex.is_match("/posts/new"));
    assert!(regex.is_match("/posts/new/"));
    assert!(!regex.is_match("/posts/new/test"));
    assert_eq!(params.len(), 1);
    assert_eq!(params[0].name, "id".to_string());

    types.insert("id", "[0-9]+");
    let (regex, params) = Recognizer::parse_glob(b"/posts/{id}", &types).unwrap();

    assert!(!regex.is_match(""));
    assert!(!regex.is_match("test"));
    assert!(!regex.is_match("/"));
    assert!(regex.is_match("/posts/12"));
    assert!(regex.is_match("/posts/12/"));
    assert!(!regex.is_match("/posts/12/test"));
    assert!(!regex.is_match("/posts/new"));
    assert!(!regex.is_match("/posts/new/"));
    assert!(!regex.is_match("/posts/new/test"));
    assert_eq!(params.len(), 1);
    assert_eq!(params[0].name, "id".to_string());
}

#[test]
fn tests_parse_glob_direct() {
    let types = Types::new();
    let (regex, params) = Recognizer::parse_glob(b"", &types).unwrap();

    assert!(!regex.is_match("test"));
    assert!(regex.is_match(""));
    assert!(regex.is_match("/"));
    assert!(!regex.is_match("//"));
    assert_eq!(params, Vec::<ParamChunk>::new());

    let (regex, params) = Recognizer::parse_glob(b"/", &types).unwrap();

    assert!(!regex.is_match("test"));
    assert!(!regex.is_match(""));
    assert!(regex.is_match("/"));
    assert!(!regex.is_match("//"));
    assert_eq!(params, Vec::<ParamChunk>::new());

    let (regex, params) = Recognizer::parse_glob(b"/posts/new", &types).unwrap();

    assert!(!regex.is_match(""));
    assert!(!regex.is_match("test"));
    assert!(!regex.is_match("/"));
    assert!(regex.is_match("/posts/new"));
    assert!(regex.is_match("/posts/new/"));
    assert!(!regex.is_match("/posts/new//"));
    assert!(!regex.is_match("/posts/new/test"));
    assert_eq!(params, Vec::<ParamChunk>::new());

    let (regex, params) = Recognizer::parse_glob(b"/posts/new", &types).unwrap();

    assert!(!regex.is_match(""));
    assert!(!regex.is_match("test"));
    assert!(!regex.is_match("/"));
    assert!(regex.is_match("/posts/new"));
    assert!(regex.is_match("/posts/new/"));
    assert!(!regex.is_match("/posts/new//"));
    assert!(!regex.is_match("/posts/new/test"));
    assert_eq!(params, Vec::<ParamChunk>::new());
}

#[test]
fn parse_glob_single_param() {
    let mut types = Types::new();
    let (regex, params) = Recognizer::parse_glob(b"/posts/{name}", &types).unwrap();

    assert!(!regex.is_match(""));
    assert!(!regex.is_match("test"));
    assert!(!regex.is_match("/"));
    assert!(regex.is_match("/posts/12"));
    assert!(regex.is_match("/posts/12/"));
    assert!(!regex.is_match("/posts/12/test"));
    assert!(regex.is_match("/posts/new"));
    assert!(regex.is_match("/posts/new/"));
    assert!(!regex.is_match("/posts/new/test"));
    assert_eq!(params, vec![ParamChunk { name: "name".to_string(), start: 7, end: 13 }]);

    let (regex, params) = Recognizer::parse_glob(b"/posts/{tail:.*}", &types).unwrap();

    assert!(!regex.is_match(""));
    assert!(!regex.is_match("test"));
    assert!(!regex.is_match("/"));
    assert!(!regex.is_match("/posts"));
    assert!(regex.is_match("/posts/"));
    assert!(regex.is_match("/posts//"));
    assert!(regex.is_match("/posts/new"));
    assert!(regex.is_match("/posts/new/"));
    assert!(regex.is_match("/posts/new/test"));
    assert!(regex.is_match("/posts/new/test/"));
    assert_eq!(params, vec![ParamChunk { name: "tail".to_string(), start: 7, end: 16 }]);

    let globs = vec![
        "/posts/{id}",
        "/posts/{id:number}",
        "/posts/{ id: number }",
        "/posts/{ id:   number  }",
    ];
    types.insert("id", "[0-9]+");
    types.insert("number", Type::number_pattern());

    for glob in globs {
        let (regex, params) = Recognizer::parse_glob(glob.as_bytes(), &types).unwrap();

        assert!(!regex.is_match(""), "{}", glob);
        assert!(!regex.is_match("test"), "{}", glob);
        assert!(!regex.is_match("/"), "{}", glob);
        assert!(regex.is_match("/posts/12"), "{}", glob);
        assert!(regex.is_match("/posts/12/"), "{}", glob);
        assert!(!regex.is_match("/posts/12a"), "{}", glob);
        assert!(!regex.is_match("/posts/12/test"), "{}", glob);
        assert!(!regex.is_match("/posts/new"), "{}", glob);
        assert!(!regex.is_match("/posts/new/"), "{}", glob);
        assert!(!regex.is_match("/posts/new/test"), "{}", glob);
        assert_eq!(params, vec![ParamChunk { name: "id".to_string(), start: 7, end: glob.len() }]);
    }
}

#[test]
fn literal_template_trailing_slash() {
    // a template that ends in `/` keeps its trailing slash mandatory, one
    // that does not accepts exactly one optional trailing slash
    let types = Types::new();
    let (regex, _) = Recognizer::parse_glob(b"/posts/new/", &types).unwrap();
    assert!(regex.is_match("/posts/new/"));
    assert!(!regex.is_match("/posts/new"));
    assert!(!regex.is_match("/posts/new//"));

    let (regex, _) = Recognizer::parse_glob(b"/posts/new", &types).unwrap();
    assert!(regex.is_match("/posts/new"));
    assert!(regex.is_match("/posts/new/"));
    assert!(!regex.is_match("/posts/new//"));
    assert!(!regex.is_match("/posts/newt"));
}

#[test]
fn default_fragment_binding() {
    // `/posts/{id}` with nothing registered uses the default fragment and
    // binds both numeric and word segments
    let types = Types::new();
    let recognizer = Recognizer::new(b"/posts/{id}", Some(&types)).unwrap();

    let params = recognizer.recognize("/posts/12").unwrap();
    assert_eq!(params.get("id"), Some(&"12".to_string()));

    let params = recognizer.recognize("/posts/new").unwrap();
    assert_eq!(params.get("id"), Some(&"new".to_string()));

    // registering a fragment under the parameter's own name narrows it
    let mut types = Types::new();
    types.insert("id", "[0-9]+");
    let recognizer = Recognizer::new(b"/posts/{id}", Some(&types)).unwrap();
    assert!(recognizer.recognize("/posts/12").is_some());
    assert!(recognizer.recognize("/posts/new").is_none());
}

#[test]
fn typed_placeholder_binding() {
    // `{id:number}` with `number` registered takes only digit runs
    let mut types = Types::new();
    types.insert("number", "[0-9]+");
    let recognizer = Recognizer::new(b"/posts/{id:number}", Some(&types)).unwrap();
    assert!(recognizer.recognize("/posts/12").is_some());
    assert!(recognizer.recognize("/posts/12a").is_none());
}

#[test]
fn inline_regex_placeholder() {
    // an unregistered type is used as an inline regex fragment
    let types = Types::new();
    let (regex, params) = Recognizer::parse_glob(b"/posts/{id:[0-9]+}", &types).unwrap();
    assert!(regex.is_match("/posts/12"));
    assert!(!regex.is_match("/posts/new"));
    assert_eq!(params, vec![ParamChunk { name: "id".to_string(), start: 7, end: 18 }]);
}

#[test]
fn literal_placeholder_kept_verbatim() {
    // a placeholder whose name is no identifier is re-emitted literally
    let types = Types::new();
    let (regex, params) = Recognizer::parse_glob(b"/a{2,3}", &types).unwrap();
    assert_eq!(params, Vec::<ParamChunk>::new());
    assert!(regex.is_match("/aaa"));
    assert!(!regex.is_match("/a"));
}

#[test]
fn empty_placeholder_emits_nothing() {
    let types = Types::new();
    let (regex, params) = Recognizer::parse_glob(b"/a{}b", &types).unwrap();
    assert_eq!(params, Vec::<ParamChunk>::new());
    assert!(regex.is_match("/ab"));
    assert!(!regex.is_match("/a{}b"));
}

#[test]
fn bad_inline_regex_is_rejected() {
    let types = Types::new();
    let err = Recognizer::parse_glob(b"/posts/{id:[}", &types).unwrap_err();
    assert_eq!(err, PatternError::InvalidRegex);
}

#[test]
fn invalid_utf8_template_is_rejected() {
    let types = Types::new();
    let err = Recognizer::parse_glob(b"/a\xff", &types).unwrap_err();
    assert_eq!(err, PatternError::InvalidUtf8);

    let err = Recognizer::parse_glob(b"/a/{n\xffme}", &types).unwrap_err();
    assert_eq!(err, PatternError::InvalidUtf8);
}
