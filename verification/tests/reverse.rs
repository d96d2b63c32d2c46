//! Reverse URI generation: splicing by template offsets, splicing by
//! capture spans, leftover parameters as a sorted query string, and the
//! round trip from a registered route id.

use ferrum_router::uri_for;
use ferrum_router::uri_for::generate_for_regex_captures;
use ferrum_router::uri_for::replace_params;
use ferrum_router::uri_for::replace_regex_captures;
use ferrum_router::recognizer::glob::Glob;
use ferrum_router::recognizer::types::Types;
use ferrum_router::BaseUri;
use ferrum_router::Id;
use ferrum_router::Params;
use ferrum_router::Recognizer;
use ferrum_router::Router;
use ferrum_router::UriError;

fn base(uri_path: &str) -> BaseUri {
    BaseUri::new(Some("http".to_string()), Some("localhost".to_string()), uri_path.to_string())
}

fn params_of(pairs: Vec<(&str, &str)>) -> Params {
    let mut params = Params::new();
    for (key, value) in pairs {
        params.insert(key.to_string(), value.to_string());
    }
    params
}

#[test]
fn test_uri_replace() {
    let samples = vec![
        ("/foo/{user:.+}", vec![("user", "bam")], "/foo/bar/baz", "http://localhost/foo/bam"),
        ("/foo/{user:.+}/", vec![("user", "bam")], "/foo/bar/baz/", "http://localhost/foo/bam/"),
        ("/foo/{user}", vec![("user", "bam")], "/foo/bar/", "http://localhost/foo/bam/"),
        (
            "/{controller}/{action}/{id:[0-9]*}",
            vec![("controller", "test"), ("action", "run"), ("id", "some")],
            "/foo/bar/5",
            "http://localhost/test/run/some",
        ),
        (
            "/{controller}/{action}/{id:[0-9]*}",
            vec![("controller", "test"), ("action", "run"), ("id", "some")],
            "/foo/bar/",
            "http://localhost/test/run/some",
        ),
        (
            "/{controller}/{action}/{id:[0-9]*}",
            vec![("id", "some")],
            "/foo/",
            "http://localhost/foo/?id=some",
        ),
        (
            "/{controller}/{action}/{id:[0-9]*}",
            vec![("controller", "test"), ("action", "run"), ("id", "some")],
            "/foo/",
            "http://localhost/foo/?action=run&controller=test&id=some",
        ),
        (
            "/{controller}/{action}/{id:[0-9]*}",
            vec![],
            "/foo/bar/baz",
            "http://localhost/foo/bar/baz",
        ),
    ];

    for (pattern, replacements_and_params, source_path, target_uri) in samples {
        let recognizer = Recognizer::new(pattern.as_bytes(), None).unwrap();
        let uri = base(source_path).replace(&recognizer.glob_regex, params_of(replacements_and_params));
        assert_eq!(target_uri, uri);
    }
}

#[test]
fn test_uri_generate() {
    let samples = vec![
        ("/foo/{user:.+}", vec![("user", "bam")], "/foo/bar/baz", "http://localhost/foo/bam"),
        ("/foo/{user:.+}/", vec![("user", "bam")], "/foo/bar/baz/", "http://localhost/foo/bam/"),
        ("/foo/{user}", vec![("user", "bam")], "/foo/bar/", "http://localhost/foo/bam"),
        (
            "/{controller}/{action}/{id:[0-9]*}",
            vec![("controller", "test"), ("action", "run"), ("id", "some")],
            "/foo/bar/5",
            "http://localhost/test/run/some",
        ),
        (
            "/{controller}/{action}/{id:[0-9]*}",
            vec![("controller", "test"), ("action", "run"), ("id", "some")],
            "/foo/bar/",
            "http://localhost/test/run/some",
        ),
        (
            "/{controller}/{action}/{id:[0-9]*}",
            vec![("controller", "test"), ("action", "run"), ("id", "some"), ("query", "param")],
            "/foo/bar/",
            "http://localhost/test/run/some?query=param",
        ),
        (
            "/{controller}/{action}/{id:[0-9]*}",
            vec![("id", "some")],
            "/foo/",
            "http://localhost/{controller}/{action}/some",
        ),
        (
            "/{controller}/{action}/{id:[0-9]*}",
            vec![("controller", "test"), ("action", "run"), ("id", "some")],
            "/foo/",
            "http://localhost/test/run/some",
        ),
        (
            "/{controller}/{action}/{id:[0-9]*}",
            vec![],
            "/foo/bar/baz",
            "http://localhost/{controller}/{action}/{id:[0-9]*}",
        ),
    ];

    for (pattern, replacements_and_params, source_path, target_uri) in samples {
        let recognizer = Recognizer::new(pattern.as_bytes(), None).unwrap();
        let uri = base(source_path).generate(
            Some(pattern),
            &recognizer,
            params_of(replacements_and_params),
        );
        assert_eq!(target_uri, uri);
    }
}

#[test]
fn test_replace_regex_captures() {
    let samples = vec![
        ("", vec![], "", ""),
        ("", vec![], "test", "test"),
        (
            "(?P<first>[\\w]+),\\s(?P<second>[0-9]*)",
            vec![],
            "values: november, 12",
            "values: november, 12",
        ),
        (
            "(?P<first>[\\w]+),\\s(?P<second>[0-9]*)",
            vec![("second", "42")],
            "values: november, 12",
            "values: november, 42",
        ),
        (
            "(?P<first>[\\w]+),\\s(?P<second>[0-9]*)",
            vec![("first", "test"), ("second", "42")],
            "values: november, 12",
            "values: test, 42",
        ),
        (
            "(?P<first>[\\w]+),\\s(?P<second>[0-9]*)",
            vec![("first", "test"), ("second", "42")],
            "values: november, ",
            "values: test, 42",
        ),
        (
            "(?P<first>[\\w]+),\\s(?P<second>[0-9]*)",
            vec![("first", "test"), ("second", "42")],
            "(values: november, 12).",
            "(values: test, 42).",
        ),
        (
            "^/upload/(?P<first>[\\w]+)/(?P<second>[0-9]+)/?$",
            vec![("first", "test"), ("second", "42")],
            "/upload/data/99",
            "/upload/test/42",
        ),
        (
            "^/upload/(?P<first>[\\w]+)/(?P<second>[0-9]+)/?$",
            vec![("first", "test"), ("second", "42")],
            "/upload/data/1/",
            "/upload/test/42/",
        ),
        (
            "^/upload/(?P<first>[\\w]+)/(?P<second>[0-9]+)/?$",
            vec![("first", "test"), ("second", "42")],
            "/upload/",
            "/upload/",
        ),
    ];

    for (pattern, replacements, source, target) in samples {
        let regex = regex::Regex::new(pattern).unwrap();
        let mut params = params_of(replacements);
        let result = replace_regex_captures(source, &regex, &mut params);
        assert_eq!(target, result);
    }
}

#[test]
fn test_generate_for_regex_captures() {
    let samples = vec![
        ("", vec![], "", ""),
        ("", vec![], "test", "test"),
        (
            "(?P<first>[\\w]+),\\s(?P<second>[0-9]*)",
            vec![],
            "values: november, 12",
            "values: november, 12",
        ),
        (
            "(?P<first>[\\w]+),\\s(?P<second>[0-9]*)",
            vec![("second", "42")],
            "values: november, 12",
            "values: november, 42",
        ),
        (
            "(?P<first>[\\w]+),\\s(?P<second>[0-9]*)",
            vec![("first", "test"), ("second", "42")],
            "values: november, 12",
            "values: test, 42",
        ),
        (
            "(?P<first>[\\w]+),\\s(?P<second>[0-9]*)",
            vec![("first", "test"), ("second", "42")],
            "values: november, ",
            "values: test, 42",
        ),
        (
            "(?P<first>[\\w]+),\\s(?P<second>[0-9]*)",
            vec![("first", "test"), ("second", "42")],
            "(values: november, 12).",
            "(values: test, 42).",
        ),
        (
            "^/upload/(?P<first>[\\w]+)/(?P<second>[0-9]+)/?$",
            vec![("first", "test"), ("second", "42")],
            "/upload/data/99",
            "/upload/test/42",
        ),
        (
            "^/upload/(?P<first>[\\w]+)/(?P<second>[0-9]+)/?$",
            vec![("first", "test"), ("second", "42")],
            "/upload/data/1/",
            "/upload/test/42/",
        ),
        (
            "^/upload/(?P<first>[\\w]+)/(?P<second>[0-9]+)/?$",
            vec![("first", "test"), ("second", "42")],
            "/upload/",
            "/upload/",
        ),
    ];

    for (pattern, replacements, source, target) in samples {
        let regex = regex::Regex::new(pattern).unwrap();
        let mut params = params_of(replacements);
        let result = generate_for_regex_captures(source, &regex, &mut params);
        assert_eq!(target, result);
    }
}

#[test]
fn test_uri_for() {
    let mut router: Router<i32> = Router::new();
    router.get(Glob::new(b"/foo", None), 1, Id::some("foo")).unwrap();
    router.get(Glob::new(b"/foo/{bar}", None), 2, Id::some("bar")).unwrap();

    let request_base = BaseUri::new(
        Some("http".to_string()),
        Some("www.rust-lang.org".to_string()),
        "/foo".to_string(),
    );
    let uri = uri_for(&router, &request_base, "foo", params_of(vec![
        ("query", "test"),
        ("extraparam", "param"),
    ]))
        .unwrap();
    assert_eq!("http://www.rust-lang.org/foo?extraparam=param&query=test", uri);

    let request_base = BaseUri::new(
        Some("http".to_string()),
        Some("www.rust-lang.org".to_string()),
        "/foo/foo".to_string(),
    );
    let uri = uri_for(&router, &request_base, "bar", params_of(vec![
        ("bar", "test"),
        ("query", "param"),
    ]))
        .unwrap();
    assert_eq!("http://www.rust-lang.org/foo/test?query=param", uri);
}

#[test]
fn uri_for_round_trip() {
    // compiling a route, resolving it by its id and generating with a
    // parameter set substitutes the placeholder
    let mut router: Router<i32> = Router::new();
    let types = Types::with_default_types();
    router
        .post(Glob::new(b"/send/{id:number}", Some(&types)), 1, Id::some("send"))
        .unwrap();

    let request_base = BaseUri::new(
        Some("http".to_string()),
        Some("host".to_string()),
        "/anything".to_string(),
    );
    let uri = uri_for(&router, &request_base, "send", params_of(vec![("id", "7")])).unwrap();
    assert_eq!("http://host/send/7", uri);
}

#[test]
fn uri_for_unknown_id() {
    let router: Router<i32> = Router::new();
    let request_base = base("/x");
    let err = uri_for(&router, &request_base, "nope", Params::new()).unwrap_err();
    assert_eq!(err, UriError::UnknownRouteId);
}

#[test]
fn star_base_is_returned_unchanged() {
    let mut router: Router<i32> = Router::new();
    router.get(Glob::new(b"/foo", None), 1, Id::some("foo")).unwrap();
    let star = BaseUri::new(None, None, "*".to_string());
    let uri = uri_for(&router, &star, "foo", Params::new()).unwrap();
    assert_eq!("*", uri);
}

#[test]
fn replace_params_splices_by_offsets() {
    let result = replace_params(
        "/a/b/c",
        vec![(1, 2, "one".to_string()), (3, 4, "two".to_string())],
    );
    assert_eq!("/one/two/c", result);

    // order of the triples does not matter
    let result = replace_params(
        "/a/b/c",
        vec![(3, 4, "two".to_string()), (1, 2, "one".to_string())],
    );
    assert_eq!("/one/two/c", result);

    // no replacements: the source comes back unchanged
    let result = replace_params("/a/b/c", vec![]);
    assert_eq!("/a/b/c", result);

    // overlapping ranges are refused: the source comes back unchanged
    let result = replace_params(
        "/a/b/c",
        vec![(1, 4, "one".to_string()), (3, 5, "two".to_string())],
    );
    assert_eq!("/a/b/c", result);
}
