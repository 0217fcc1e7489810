use mdbook_outline::config::{config_key, parse_env};

#[test]
fn parse_env_vars() {
    let inputs = vec![
        ("FOO", None),
        ("MDBOOK_foo", Some("foo")),
        ("MDBOOK_FOO__bar__baz", Some("foo.bar.baz")),
        ("MDBOOK_FOO_bar__baz", Some("foo-bar.baz")),
    ];

    for (src, should_be) in inputs {
        let got = parse_env(src);
        let should_be = should_be.map(|s| s.to_string());

        assert_eq!(got, should_be);
    }
}

#[test]
fn parse_env_lowercases_and_maps_underscores() {
    assert_eq!(parse_env("MDBOOK_BOOK__TITLE"), Some("book.title".to_string()));
    assert_eq!(parse_env("MDBOOK_"), Some(String::new()));
    assert_eq!(parse_env("MDBOOK_A___B"), Some("a.-b".to_string()));
    assert_eq!(parse_env("mdbook_foo"), None);
}

#[test]
fn config_key_maps_underscores() {
    assert_eq!(config_key("foo_bar__baz"), "foo-bar.baz");
    assert_eq!(config_key(""), "");
    assert_eq!(config_key("____"), "..");
}
