//! The type registry, the template builder, the parameter set, and the
//! small label and error types.

use ferrum_router::glob::Glob;
use ferrum_router::recognizer::types::Type;
use ferrum_router::recognizer::types::Types;
use ferrum_router::Id;
use ferrum_router::NoRoute;
use ferrum_router::Params;
use ferrum_router::TrailingSlash;

#[test]
fn create_glob() {
    // a builder with nothing set produces nothing
    let glob = Glob::without_suffixes();
    assert_eq!(glob.prefix, b"".to_vec());
    assert_eq!(glob.postfix, b"".to_vec());
    assert!(glob.types.get(b"key").is_none());

    // prefix and registry entries carry into what it produces
    let mut glob = Glob::without_suffixes();
    glob.prefix = b"^".to_vec();
    glob.types.insert("key", "value");

    let value = glob.types.get(b"key").unwrap();
    assert_eq!(*value, b"value".to_vec());
    assert_eq!(glob.prefix, b"^".to_vec());
    assert_eq!(glob.postfix, b"".to_vec());
    assert_eq!(glob.produce(b"/ignored"), b"^".to_vec());

    let mut glob = Glob::without_suffixes();
    glob.prefix = b"^".to_vec();
    glob.postfix = b"$".to_vec();
    assert_eq!(glob.produce(b"/p"), b"^$".to_vec());
}

#[test]
fn default_types() {
    assert_eq!(Types::default_type(), "[^/.]+");
    assert_eq!(Type::string_name(), "string");
    assert_eq!(Type::string_pattern(), "[^/.]+");
    assert_eq!(Type::number_name(), "number");
    assert_eq!(Type::number_pattern(), "[0-9]+");

    let types = Types::with_default_types();
    assert_eq!(*types.get(b"string").unwrap(), b"[^/.]+".to_vec());
    assert_eq!(*types.get(b"number").unwrap(), b"[0-9]+".to_vec());
    assert!(types.get(b"date").is_none());
}

#[test]
fn registry_insert_shadows() {
    let mut types = Types::new();
    types.insert("key", "value");
    assert_eq!(*types.get(b"key").unwrap(), b"value".to_vec());
    types.insert("key", "other");
    assert_eq!(*types.get(b"key").unwrap(), b"other".to_vec());
}

#[test]
fn params_sorted_and_replaced() {
    let mut params = Params::new();
    assert!(params.is_empty());
    params.insert("zeta".to_string(), "1".to_string());
    params.insert("alpha".to_string(), "2".to_string());
    params.insert("mid".to_string(), "3".to_string());
    assert_eq!(params.len(), 3);

    // entries are kept in name order
    assert_eq!(params.entry_at(0).0, "alpha");
    assert_eq!(params.entry_at(1).0, "mid");
    assert_eq!(params.entry_at(2).0, "zeta");

    // inserting again replaces the value
    params.insert("mid".to_string(), "9".to_string());
    assert_eq!(params.len(), 3);
    assert_eq!(params.get("mid"), Some(&"9".to_string()));

    // removal hands the value back
    assert_eq!(params.remove("mid"), Some("9".to_string()));
    assert_eq!(params.remove("mid"), None);
    assert_eq!(params.len(), 2);
}

#[test]
fn id_labels() {
    assert_eq!(Id::some("route"), Some(Id::new("route")));
    assert_eq!(Id::none(), Option::<Id>::None);
    assert_eq!(Id::new("route").as_str(), "route");
}

#[test]
fn error_messages() {
    assert_eq!(NoRoute.message(), "No matching route found.");
    assert_eq!(TrailingSlash.message(), "The request had a trailing slash.");
}
