//! Route tables: registration, per-method dispatch, wildcard fallback,
//! route-id bookkeeping, and the OPTIONS / HEAD handling rules.

use ferrum_router::recognizer::glob::Glob;
use ferrum_router::recognizer::types::Type;
use ferrum_router::recognizer::types::Types;
use ferrum_router::Handling;
use ferrum_router::Id;
use ferrum_router::Method;
use ferrum_router::RouteError;
use ferrum_router::Router;

fn plain(path: &str) -> Glob<'_> {
    Glob::new(path.as_bytes(), None)
}

#[test]
fn router_test_handle_options_post() {
    let mut router: Router<i32> = Router::new();
    router.post(plain("/"), 1, None).unwrap();
    let allowed = router.handle_options("/");
    assert_eq!(allowed, vec![Method::Post]);
}

#[test]
fn router_test_handle_options_get_head() {
    let mut router: Router<i32> = Router::new();
    router.get(plain("/"), 1, None).unwrap();
    let allowed = router.handle_options("/");
    assert_eq!(allowed, vec![Method::Get, Method::Head]);
}

#[test]
fn router_test_handle_any_ok() {
    let mut router: Router<i32> = Router::new();
    router.post(plain("/post"), 1, None).unwrap();
    router.any(plain("/post"), 2, None).unwrap();
    router.put(plain("/post"), 3, None).unwrap();
    router.any(plain("/get"), 4, Id::some("any")).unwrap();

    assert!(router.recognize(&Method::Get, "/post").is_some());
    assert!(router.recognize(&Method::Get, "/get").is_some());
}

#[test]
fn router_test_request() {
    let mut router: Router<i32> = Router::new();
    router.post(plain("/post"), 1, None).unwrap();
    router.get(plain("/post"), 2, None).unwrap();

    assert!(router.recognize(&Method::Post, "/post").is_some());
    assert!(router.recognize(&Method::Get, "/post").is_some());
    assert!(router.recognize(&Method::Put, "/post").is_none());
    assert!(router.recognize(&Method::Get, "/post/").is_some());
    assert!(router.recognize(&Method::Post, "/post/").is_some());
}

#[test]
fn router_test_not_found() {
    let mut router: Router<i32> = Router::new();
    router.put(plain("/put"), 1, None).unwrap();
    assert!(router.recognize(&Method::Patch, "/patch").is_none());
}

#[test]
fn router_test_same_route_id() {
    let mut router: Router<i32> = Router::new();
    router.put(plain("/put"), 1, Id::some("my_route_id")).unwrap();
    let err = router.get(plain("/get"), 2, Id::some("my_route_id")).unwrap_err();
    assert_eq!(err, RouteError::DuplicateId);
}

#[test]
fn tests_test_same_route_id() {
    let mut router: Router<i32> = Router::new();
    router.put(plain("/put"), 1, Id::some("my_route_id")).unwrap();
    // the same id under the same template is idempotent
    router.put(plain("/put"), 2, Id::some("my_route_id")).unwrap();
    assert_eq!(router.route_ids_len(), 1);
    // the same id under a different template is a conflict
    let err = router.get(plain("/get"), 3, Id::some("my_route_id")).unwrap_err();
    assert_eq!(err, RouteError::DuplicateId);
}

#[test]
fn router_test_wildcard_regression() {
    let mut router: Router<i32> = Router::new();
    router.options(plain(".*"), 1, Id::some("id1")).unwrap();
    router.put(plain("/upload/{filename}"), 2, Id::some("id2")).unwrap();
    assert!(router.recognize(&Method::Options, "/foo").is_some());
    assert!(router.recognize(&Method::Put, "/foo").is_none());
    assert!(router.recognize(&Method::Put, "/upload/foo").is_some());
}

#[test]
fn tests_test_wildcard_regression() {
    let mut router: Router<i32> = Router::new();
    router.options(plain(".*"), 1, None).unwrap();
    router.put(plain("/upload/{filename}"), 2, None).unwrap();
    assert!(router.recognize(&Method::Options, "/foo").is_some());
    assert!(router.recognize(&Method::Put, "/foo").is_none());
    assert!(router.recognize(&Method::Put, "/upload/foo").is_some());
}

#[test]
fn tests_test_handle_options_post() {
    let mut router: Router<i32> = Router::new();
    router.post(plain("/"), 1, None).unwrap();
    let allowed = router.handle_options("/");
    assert_eq!(allowed, vec![Method::Post]);
}

#[test]
fn tests_test_handle_options_get_head() {
    let mut router: Router<i32> = Router::new();
    router.get(plain("/"), 1, None).unwrap();
    let allowed = router.handle_options("/");
    assert_eq!(allowed, vec![Method::Get, Method::Head]);
}

#[test]
fn tests_test_handle_any_ok() {
    let mut router: Router<i32> = Router::new();
    router.post(plain("/post"), 1, None).unwrap();
    router.any(plain("/post"), 2, None).unwrap();
    router.put(plain("/post"), 3, None).unwrap();
    router.any(plain("/get"), 4, Id::some("any")).unwrap();

    assert!(router.recognize(&Method::Get, "/post").is_some());
    assert!(router.recognize(&Method::Get, "/get").is_some());
}

#[test]
fn tests_test_request() {
    let mut router: Router<i32> = Router::new();
    router.post(plain("/post"), 1, None).unwrap();
    router.get(plain("/post"), 2, None).unwrap();

    assert!(router.recognize(&Method::Post, "/post").is_some());
    assert!(router.recognize(&Method::Get, "/post").is_some());
    assert!(router.recognize(&Method::Put, "/post").is_none());
    assert!(router.recognize(&Method::Get, "/post/").is_some());
    assert!(router.recognize(&Method::Post, "/post/").is_some());
}

#[test]
fn tests_test_not_found() {
    let mut router: Router<i32> = Router::new();
    router.put(plain("/put"), 1, None).unwrap();
    assert!(router.recognize(&Method::Patch, "/patch").is_none());
}

#[test]
fn test_glob_types() {
    let mut router: Router<i32> = Router::new();
    let types = Types::with_default_types();

    router.get(plain(".*"), 1, None).unwrap();
    router.post(plain("/upload/{filename}"), 2, None).unwrap();
    router.post(Glob::new(b"/send/{id:number}", Some(&types)), 3, None).unwrap();

    assert!(router.recognize(&Method::Get, "/foo").is_some());
    assert!(router.recognize(&Method::Post, "/foo").is_none());
    assert!(router.recognize(&Method::Post, "/upload/foo").is_some());
    assert!(router.recognize(&Method::Post, "/send/12").is_some());
    assert!(router.recognize(&Method::Post, "/send/no").is_none());
}

#[test]
fn test_route_ids() {
    let mut router: Router<i32> = Router::new();
    let types = Types::with_default_types();

    router.get(plain(".*"), 1, Id::some("id1")).unwrap();
    router.post(plain("/upload/{filename}"), 2, Id::some("id2")).unwrap();
    router.post(Glob::new(b"/send/{id:number}", Some(&types)), 3, Id::some("id3")).unwrap();

    assert_eq!(3, router.route_ids_len());

    let entry = router.resolve_id("id1").unwrap();
    assert_eq!(".*", entry.glob_path);
    assert_eq!("^.*/?$", entry.recognizer.glob_regex.as_str());

    let entry = router.resolve_id("id2").unwrap();
    assert_eq!("/upload/{filename}", entry.glob_path);
    assert_eq!(
        &format!("^/upload/(?P<filename>{})/?$", Type::string_pattern()),
        entry.recognizer.glob_regex.as_str()
    );

    let entry = router.resolve_id("id3").unwrap();
    assert_eq!("/send/{id:number}", entry.glob_path);
    assert_eq!(
        &format!("^/send/(?P<id>{})/?$", Type::number_pattern()),
        entry.recognizer.glob_regex.as_str()
    );
}

#[test]
fn test_methods_expand() {
    let types = Types::with_default_types();

    let mut router: Router<i32> = Router::new();
    router.get(plain("/"), 1, Id::some("index")).unwrap();
    router.get(plain("/{query}"), 2, None).unwrap();
    router.post(plain("/"), 3, Id::some("post")).unwrap();

    let mut router: Router<i32> = Router::new();
    router.get(plain("/foo"), 1, None).unwrap();
    router.post(plain("/bar/"), 2, Id::some("a")).unwrap();
    router.put(plain("/bar/baz"), 3, Id::some("b")).unwrap();
    router.delete(plain("/bar/baz"), 4, Id::some("c")).unwrap();
    router.head(plain("/foo"), 5, Id::some("d")).unwrap();
    router.patch(plain("/bar/baz"), 6, Id::some("e")).unwrap();
    router.options(plain("/foo"), 7, Id::some("f")).unwrap();
    router.any(plain("/"), 8, Id::some("g")).unwrap();
    router.get(plain("/foo/{id:[0-9]+}"), 9, Id::some("h")).unwrap();
    router.get(Glob::new(b"/foo/{name:string}", Some(&types)), 10, Id::some("i")).unwrap();
}

#[test]
fn dispatch_is_order_sensitive() {
    // a method-specific route registered first wins over a later wildcard
    let mut router: Router<i32> = Router::new();
    router.get(plain("/foo"), 1, None).unwrap();
    router.any(plain(".*"), 2, None).unwrap();

    let matched = router.recognize(&Method::Get, "/foo").unwrap();
    assert_eq!(*matched.handler, 1);

    // the wildcard still answers what no specific route does
    let matched = router.recognize(&Method::Get, "/bar").unwrap();
    assert_eq!(*matched.handler, 2);
}

#[test]
fn handle_falls_back_for_head_and_options() {
    let mut router: Router<i32> = Router::new();
    router.get(plain("/page"), 1, None).unwrap();

    // HEAD falls back to the GET route
    match router.handle(Method::Head, "/page") {
        Handling::Matched(m) => assert_eq!(*m.handler, 1),
        _ => panic!("expected the GET route"),
    }

    // unmatched OPTIONS synthesizes the allow set
    match router.handle(Method::Options, "/page") {
        Handling::Options(allowed) => assert_eq!(allowed, vec![Method::Get, Method::Head]),
        _ => panic!("expected an allow set"),
    }

    // anything else is a missing route
    assert!(matches!(router.handle(Method::Post, "/page"), Handling::NotFound));
    assert!(matches!(router.handle(Method::Get, "/other"), Handling::NotFound));
}

#[test]
fn matched_route_extracts_params() {
    let mut router: Router<i32> = Router::new();
    router.get(plain("/posts/{id}"), 7, None).unwrap();

    let matched = router.recognize(&Method::Get, "/posts/12").unwrap();
    assert_eq!(*matched.handler, 7);
    assert_eq!(matched.params.get("id"), Some(&"12".to_string()));

    let matched = router.recognize(&Method::Get, "/posts/new").unwrap();
    assert_eq!(matched.params.get("id"), Some(&"new".to_string()));
}
