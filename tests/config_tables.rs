use http_redirector::config::{init, init_map, lookup, normalize_url};

const EXAMPLE_CONFIG: &str = r#"
rust    www.rust-lang.org/

trpl    doc.rust-lang.org/stable/book/
trpl-cn kaisery.github.io/trpl-zh-cn/
"#;

#[test]
fn lib_happypath() {
    let map = init_map(EXAMPLE_CONFIG, false).unwrap();
    assert_eq!(
        map.get("rust").unwrap().as_str(),
        "https://www.rust-lang.org/"
    );
    assert_eq!(
        map.get("trpl-cn").unwrap().as_str(),
        "https://kaisery.github.io/trpl-zh-cn/"
    );
}

#[test]
fn lib_config_redundant_value() {
    let config = "key val redundance\nkey val";
    assert!(matches!(init_map(config, false), None));
}

#[test]
fn lib_config_lack_value() {
    let config = "key val\nkey";
    assert!(matches!(init_map(config, false), None));
}

#[test]
fn happypath() {
    let config = EXAMPLE_CONFIG.to_string();
    let map = init(config).unwrap();
    assert_eq!(
        lookup("/rust", &map),
        Some("https://www.rust-lang.org/".to_string())
    );
    assert_eq!(
        lookup("/trpl-cn", &map),
        Some("https://kaisery.github.io/trpl-zh-cn/".to_string())
    );
}

#[test]
fn config_redundant_value() {
    let config = "key val redundance\nkey val".to_string();
    assert_eq!(init(config), None);
}

#[test]
fn config_lack_value() {
    let config = "key val\nkey".to_string();
    assert_eq!(init(config), None);
}

#[test]
fn path_no_prefix() {
    let config = EXAMPLE_CONFIG.to_string();
    let map = init(config).unwrap();
    assert_eq!(lookup("rust", &map), None);
}

#[test]
fn one_entry_per_line_in_order() {
    let map = init_map("a x.org\n\nb\ty.org/p\r\nc   z.org\n", false).unwrap();
    assert_eq!(map.len(), 3);
    assert_eq!(map.key_at(0).as_str(), "a");
    assert_eq!(map.value_at(0).as_str(), "https://x.org");
    assert_eq!(map.key_at(1).as_str(), "b");
    assert_eq!(map.value_at(1).as_str(), "https://y.org/p");
    assert_eq!(map.key_at(2).as_str(), "c");
    assert_eq!(map.value_at(2).as_str(), "https://z.org");
}

#[test]
fn empty_text_gives_empty_table() {
    let map = init_map("", false).unwrap();
    assert_eq!(map.len(), 0);
    let map = init_map("\n\n", false).unwrap();
    assert_eq!(map.len(), 0);
}

#[test]
fn blank_line_of_spaces_is_rejected() {
    assert!(init_map("a x.org\n   \nb y.org", false).is_none());
}

#[test]
fn single_token_line_is_rejected() {
    assert!(init_map("a x.org\nlonely", false).is_none());
}

#[test]
fn three_token_line_is_rejected() {
    assert!(init_map("a x.org y.org", false).is_none());
}

#[test]
fn duplicate_key_is_rejected() {
    assert!(init_map("a x.org\nb y.org\na z.org", false).is_none());
    assert_eq!(init("a x.org\na x.org".to_string()), None);
}

#[test]
fn schemed_values_are_kept() {
    let map = init_map("a http://x.org\nb https://y.org\nc z.org\nd httpz.org", false).unwrap();
    assert_eq!(map.get("a").unwrap().as_str(), "http://x.org");
    assert_eq!(map.get("b").unwrap().as_str(), "https://y.org");
    assert_eq!(map.get("c").unwrap().as_str(), "https://z.org");
    assert_eq!(map.get("d").unwrap().as_str(), "https://httpz.org");
}

#[test]
fn no_fill_keeps_values() {
    let map = init_map("c z.org", true).unwrap();
    assert_eq!(map.get("c").unwrap().as_str(), "z.org");
}

#[test]
fn normalize_prefixes_plain_value() {
    assert_eq!(normalize_url(&"ex.com/a".to_string(), false), "https://ex.com/a");
    assert_eq!(normalize_url(&"http://ex.com".to_string(), false), "http://ex.com");
    assert_eq!(normalize_url(&"ex.com".to_string(), true), "ex.com");
}

#[test]
fn lookup_misses_unknown_key() {
    let map = init_map("a x.org", false).unwrap();
    assert_eq!(lookup("/b", &map), None);
    assert_eq!(lookup("/", &map), None);
    assert_eq!(lookup("", &map), None);
    assert_eq!(lookup("/a", &map), Some("https://x.org".to_string()));
    assert!(map.get("b").is_none());
}

#[test]
fn whitespace_runs_split_tokens() {
    let map = init("k1 \t v1\nk2\u{3000}v2".to_string()).unwrap();
    assert_eq!(map.len(), 2);
    assert_eq!(map.get("k1").unwrap().as_str(), "https://v1");
    assert_eq!(map.get("k2").unwrap().as_str(), "https://v2");
}

#[test]
fn edge_whitespace_is_not_a_token() {
    let map = init("  key val".to_string()).unwrap();
    assert_eq!(map.get("key").unwrap().as_str(), "https://val");
    let map = init("key val ".to_string()).unwrap();
    assert_eq!(map.get("key").unwrap().as_str(), "https://val");
    assert!(init_map("  key val ", false).is_some());
}

#[test]
fn one_token_or_blank_line_is_rejected_by_init() {
    assert_eq!(init(" k".to_string()), None);
    assert_eq!(init("a b
   ".to_string()), None);
    assert_eq!(init("a b c".to_string()), None);
}

#[test]
fn snapshot_copies_entries() {
    let map = init_map("a x.org\nb y.org", false).unwrap();
    let copy = map.snapshot();
    assert_eq!(copy, map);
}
