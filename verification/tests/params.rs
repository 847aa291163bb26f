use uncovr::params::PathParams;
use uncovr::params::QueryParams;

#[test]
fn test_path_params() {
    let pairs = vec![
        ("id".to_string(), "42".to_string()),
        ("name".to_string(), "alice".to_string()),
    ];

    let params = PathParams::new(pairs);

    assert_eq!(params.get("id"), Some("42"));
    assert_eq!(params.get_u64("id"), Some(42));
    assert_eq!(params.get("name"), Some("alice"));
    assert!(params.contains("id"));
    assert!(!params.contains("age"));
}

#[test]
fn test_query_params() {
    let pairs = vec![
        ("page".to_string(), "2".to_string()),
        ("limit".to_string(), "10".to_string()),
    ];

    let params = QueryParams::new(pairs);

    assert_eq!(params.get_u32("page"), Some(2));
    assert_eq!(params.get_u32("limit"), Some(10));
    assert_eq!(params.get("page"), Some("2"));
}

#[test]
fn path_params_typed_accessors() {
    let pairs = vec![
        ("neg".to_string(), "-17".to_string()),
        ("big".to_string(), "18446744073709551615".to_string()),
        ("flag".to_string(), "true".to_string()),
        ("off".to_string(), "false".to_string()),
        ("word".to_string(), "alice".to_string()),
    ];
    let params = PathParams::new(pairs);

    assert_eq!(params.get_i64("neg"), Some(-17));
    assert_eq!(params.get_i32("neg"), Some(-17));
    assert_eq!(params.get_u64("neg"), None);
    assert_eq!(params.get_u32("neg"), None);
    assert_eq!(params.get_u64("big"), Some(u64::MAX));
    assert_eq!(params.get_u32("big"), None);
    assert_eq!(params.get_i64("big"), None);
    assert_eq!(params.get_bool("flag"), Some(true));
    assert_eq!(params.get_bool("off"), Some(false));
    assert_eq!(params.get_bool("word"), None);
    assert_eq!(params.get_u64("word"), None);
    assert_eq!(params.get_u64("absent"), None);
    assert_eq!(params.get_string("word"), Some("alice".to_string()));
    assert_eq!(params.get_string("absent"), None);
}

#[test]
fn path_params_later_pair_overrides() {
    let pairs = vec![
        ("id".to_string(), "1".to_string()),
        ("id".to_string(), "2".to_string()),
    ];
    let params = PathParams::new(pairs);
    assert_eq!(params.get("id"), Some("2"));
    let keys = params.keys();
    assert_eq!(keys, vec!["id"]);
}

#[test]
fn path_params_empty_and_default() {
    let empty = PathParams::empty();
    assert_eq!(empty.get("any"), None);
    assert!(!empty.contains("any"));
    assert!(empty.keys().is_empty());

    let default = PathParams::default();
    assert!(default.keys().is_empty());
}

#[test]
fn path_params_keys_and_clone() {
    let pairs = vec![
        ("a".to_string(), "1".to_string()),
        ("b".to_string(), "2".to_string()),
    ];
    let params = PathParams::new(pairs);
    let mut keys = params.keys();
    keys.sort();
    assert_eq!(keys, vec!["a", "b"]);

    let copy = params.clone();
    assert_eq!(copy.get("a"), Some("1"));
    assert_eq!(copy.get("b"), Some("2"));
    assert!(!copy.contains("c"));
}

#[test]
fn query_params_typed_accessors() {
    let pairs = vec![
        ("page".to_string(), "+3".to_string()),
        ("cursor".to_string(), "-2147483648".to_string()),
        ("verbose".to_string(), "true".to_string()),
    ];
    let params = QueryParams::new(pairs);

    assert_eq!(params.get_u32("page"), Some(3));
    assert_eq!(params.get_u64("page"), Some(3));
    assert_eq!(params.get_i32("cursor"), Some(i32::MIN));
    assert_eq!(params.get_u32("cursor"), None);
    assert_eq!(params.get_bool("verbose"), Some(true));
    assert_eq!(params.get_string("verbose"), Some("true".to_string()));
    assert_eq!(params.get_i64("missing"), None);
}

#[test]
fn query_params_empty_clone_default() {
    let empty = QueryParams::empty();
    assert_eq!(empty.get("q"), None);
    assert!(QueryParams::default().keys().is_empty());

    let pairs = vec![("q".to_string(), "rust".to_string())];
    let params = QueryParams::new(pairs);
    let copy = params.clone();
    assert_eq!(copy.get("q"), Some("rust"));
    assert_eq!(copy.keys(), vec!["q"]);
}
