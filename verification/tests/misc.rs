use velo::boundary::{shows_fallback, BoundaryStack};
use velo::cli::{patch_template, validate_app_name, workspace_root};
use velo::fetch::{check_status, decimal, header_value, FetchError};
use velo::query::{parse_query_string, query_pieces};
use velo::route_match::ParamMap;

#[test]
fn query_string_pairs_and_flags() {
    let m = parse_query_string("?a=1&b=two&flag");
    assert_eq!(m.get("a"), Some("1".to_string()));
    assert_eq!(m.get("b"), Some("two".to_string()));
    assert_eq!(m.get("flag"), Some(String::new()));
    assert_eq!(m.get("c"), None);
}

#[test]
fn query_string_decodes_and_keeps_last() {
    let m = parse_query_string("q=hello%20world&q=again&x=a=b");
    assert_eq!(m.get("q"), Some("again".to_string()));
    assert_eq!(m.get("x"), Some("a=b".to_string()));
    let m = parse_query_string("name=J%C3%BCrgen");
    assert_eq!(m.get("name"), Some("Jürgen".to_string()));
    let m = parse_query_string("k%20ey=v");
    assert_eq!(m.get("k ey"), Some("v".to_string()));
}

#[test]
fn query_string_empty() {
    assert!(parse_query_string("").pairs().is_empty());
    assert!(parse_query_string("?").pairs().is_empty());
}

#[test]
fn fetch_error_messages() {
    assert_eq!(FetchError::Network("offline".to_string()).message(), "fetch network error: offline");
    assert_eq!(
        FetchError::Status { code: 404, reason: "Not Found".to_string() }.message(),
        "fetch returned 404 Not Found"
    );
    assert_eq!(FetchError::Decode("bad".to_string()).message(), "fetch JSON decode error: bad");
    assert_eq!(
        FetchError::from_js_message(None).message(),
        "fetch network error: unknown JS fetch error"
    );
    assert_eq!(
        FetchError::from_js_message(Some("boom".to_string())).message(),
        "fetch network error: boom"
    );
}

#[test]
fn decimal_text() {
    assert_eq!(decimal(0), "0");
    assert_eq!(decimal(7), "7");
    assert_eq!(decimal(200), "200");
    assert_eq!(decimal(65535), "65535");
    assert_eq!(decimal(u64::MAX), u64::MAX.to_string());
}

#[test]
fn status_check_and_headers() {
    assert!(check_status(true, 200, "OK".to_string()).is_ok());
    match check_status(false, 503, "Unavailable".to_string()) {
        Err(FetchError::Status { code, reason }) => {
            assert_eq!(code, 503);
            assert_eq!(reason, "Unavailable");
        },
        _ => panic!("expected a status error"),
    }
    assert_eq!(header_value(Some("x".to_string())), Some("x".to_string()));
    assert_eq!(header_value(Some(String::new())), None);
    assert_eq!(header_value(None), None);
}

#[test]
fn app_name_validation() {
    assert!(validate_app_name("my-app_2").is_ok());
    assert_eq!(
        validate_app_name("bad name"),
        Err("Invalid name 'bad name': use only alphanumeric, dash, or underscore".to_string())
    );
    assert!(validate_app_name("../x").is_err());
}

#[test]
fn template_renaming() {
    assert_eq!(
        patch_template("name = \"cli-template\"\n# cli-template\n", "shop"),
        "name = \"shop\"\n# shop\n"
    );
    assert_eq!(patch_template("cli-templatecli-template", "a"), "aa");
    assert_eq!(patch_template("cli-cli-template", "x"), "cli-x");
    assert_eq!(patch_template("", "x"), "");
    assert_eq!(patch_template("no marker", "x"), "no marker");
}

#[test]
fn nested_boundaries_fault_goes_to_innermost() {
    let mut st = BoundaryStack::new();
    st.enter();
    st.enter();
    st.fault("broken".to_string());
    assert_eq!(st.exit(), Some("broken".to_string()));
    assert_eq!(st.exit(), None);
    assert_eq!(st.depth(), 0);
    st.fault("ignored".to_string());
    assert_eq!(st.depth(), 0);
}

#[test]
fn fallback_decision() {
    assert!(!shows_fallback(true, &None));
    assert!(shows_fallback(true, &Some("x".to_string())));
    assert!(shows_fallback(false, &None));
}

#[test]
fn query_pieces_before_decoding() {
    let p = query_pieces("?a=1&b%20c=x%20y&flag&k=v=w");
    assert_eq!(
        p,
        vec![
            ("a".to_string(), Some("1".to_string())),
            ("b%20c".to_string(), Some("x%20y".to_string())),
            ("flag".to_string(), None),
            ("k".to_string(), Some("v=w".to_string())),
        ]
    );
    assert!(query_pieces("").is_empty());
    assert_eq!(query_pieces("&"), vec![(String::new(), None), (String::new(), None)]);
}

#[test]
fn bindings_keep_the_last_value() {
    let m = ParamMap::from_pairs(vec![
        ("a".to_string(), "1".to_string()),
        ("b".to_string(), "2".to_string()),
        ("a".to_string(), "3".to_string()),
    ]);
    assert_eq!(m.get("a"), Some("3".to_string()));
    assert_eq!(m.get("b"), Some("2".to_string()));
    assert_eq!(m.get("c"), None);
}

#[test]
fn workspace_root_is_two_levels_up() {
    assert_eq!(workspace_root("/home/me/velo/crates/velo-cli"), Some("/home/me/velo".to_string()));
    assert_eq!(workspace_root("/a/b"), Some("/".to_string()));
    assert_eq!(workspace_root("/w/crates/velo-cli"), Some("/w".to_string()));
    assert_eq!(workspace_root("/a"), None);
    assert_eq!(workspace_root("/"), None);
}
