use http_redirector::config::init_map;
use http_redirector::log::frame_record;
use http_redirector::request::{
    answer_lookup, dispatch, forwarded_from, header_text, split_path, update_route_name,
    update_status, Dispatch, Reply, RequestInfo, Settings,
};
use http_redirector::setup::{build_table, parse_scope_list, InitError};
use http_redirector::table::{prepare_update, ScopeEntry, ScopeTable, UpdateResult};

fn settings(allow_update: bool) -> Settings {
    Settings {
        req_id_header: None,
        update_key: None,
        allow_update,
        return_value: false,
        no_fill_https: false,
    }
}

fn table_of(list: &str, texts: &[&str]) -> ScopeTable {
    let scopes = parse_scope_list(list, "__update__").unwrap();
    let texts: Vec<String> = texts.iter().map(|t| t.to_string()).collect();
    build_table(&scopes, &texts, false).unwrap()
}

fn route(s: &Settings, path: &str) -> Dispatch {
    dispatch(s, true, path, &None, &None, &None, "10.0.0.1:4000")
}

fn info_of(d: Dispatch) -> RequestInfo {
    match d {
        Dispatch::Lookup(i) | Dispatch::Update(i) => i,
        Dispatch::Reject(s) => panic!("rejected with {}", s),
    }
}

#[test]
fn end_to_end_lookup_and_update() {
    let text = "foo bar.example.com/x";
    let mut table = table_of("a,local.txt", &[text]);
    let s = settings(true);

    let info = match route(&s, "/a/foo") {
        Dispatch::Lookup(i) => i,
        other => panic!("unexpected {:?}", other),
    };
    let (reply, hit) = answer_lookup(&table, &info.scope, &info.key, s.return_value);
    assert!(hit);
    assert_eq!(reply, Reply::Redirect("https://bar.example.com/x".to_string()));

    let info = info_of(route(&s, "/a/missing"));
    let (reply, hit) = answer_lookup(&table, &info.scope, &info.key, s.return_value);
    assert!(!hit);
    assert_eq!(reply, Reply::Empty(404));

    let info = match route(&s, "/__update__/a") {
        Dispatch::Update(i) => i,
        other => panic!("unexpected {:?}", other),
    };
    let source = table.source_of(&info.key).unwrap();
    assert_eq!(source, "local.txt");
    let result = table.apply_update(&info.key, Ok(text.to_string()), false);
    assert_eq!(update_status(&result), 200);
    match result {
        UpdateResult::Succeed { new, old } => {
            assert_eq!(new, old);
            assert_eq!(new.map.len(), 1);
            assert_eq!(new.map.get("foo").unwrap().as_str(), "https://bar.example.com/x");
        }
        other => panic!("unexpected {:?}", other),
    }
}

#[test]
fn update_replaces_whole_entry() {
    let mut table = table_of("a,src-a;b,src-b", &["k one.org", "k two.org"]);
    let result = table.apply_update("a", Ok("k three.org\nm four.org".to_string()), false);
    assert!(matches!(result, UpdateResult::Succeed { .. }));
    assert_eq!(table.get("a", "k"), Some("https://three.org".to_string()));
    assert_eq!(table.get("a", "m"), Some("https://four.org".to_string()));
    assert_eq!(table.get("b", "k"), Some("https://two.org".to_string()));
    assert_eq!(table.read("a").unwrap().source, "src-a");
}

#[test]
fn failed_fetch_keeps_entry() {
    let mut table = table_of("a,src-a", &["k one.org"]);
    let before: ScopeEntry = table.read("a").unwrap().clone();
    let result = table.apply_update("a", Err("connection refused".to_string()), false);
    assert_eq!(result, UpdateResult::FetchError("connection refused".to_string()));
    assert_eq!(update_status(&result), 500);
    assert_eq!(table.read("a").unwrap(), &before);
}

#[test]
fn failed_parse_keeps_entry() {
    let mut table = table_of("a,src-a", &["k one.org"]);
    let before: ScopeEntry = table.read("a").unwrap().clone();
    let result = table.apply_update("a", Ok("k one.org extra".to_string()), false);
    assert_eq!(result, UpdateResult::ParseError);
    assert_eq!(update_status(&result), 500);
    assert_eq!(table.read("a").unwrap(), &before);
}

#[test]
fn update_of_unknown_scope() {
    let mut table = table_of("a,src-a", &["k one.org"]);
    let result = table.apply_update("zz", Ok("k x.org".to_string()), false);
    assert_eq!(result, UpdateResult::ScopeNotFound);
    assert_eq!(update_status(&result), 404);
    assert!(table.source_of("zz").is_none());
}

#[test]
fn commit_returns_previous_entry() {
    let mut table = table_of("a,src-a", &["k one.org"]);
    let entry = ScopeEntry { source: "src-a".to_string(), map: init_map("k new.org", false).unwrap() };
    let prev = table.commit("a", entry).unwrap();
    assert_eq!(prev.map.get("k").unwrap().as_str(), "https://one.org");
    assert_eq!(table.get("a", "k"), Some("https://new.org".to_string()));
    let other = ScopeEntry { source: "s".to_string(), map: init_map("", false).unwrap() };
    assert!(table.commit("nope", other).is_none());
}

#[test]
fn return_value_mode_answers_text() {
    let table = table_of("a,src", &["k v.org"]);
    let (reply, hit) = answer_lookup(&table, "a", "k", true);
    assert!(hit);
    assert_eq!(reply, Reply::Text("https://v.org".to_string()));
    let (reply, hit) = answer_lookup(&table, "nope", "k", false);
    assert!(!hit);
    assert_eq!(reply, Reply::Empty(404));
}

#[test]
fn non_get_is_rejected() {
    let s = settings(true);
    let d = dispatch(&s, false, "/a/b", &None, &None, &None, "p");
    assert!(matches!(d, Dispatch::Reject(405)));
}

#[test]
fn bad_paths_are_not_found() {
    let s = settings(true);
    for path in ["/", "/a", "/a/", "//b", "/a/b/c", "/a/b/", "a/b", ""] {
        assert!(matches!(route(&s, path), Dispatch::Reject(404)), "{}", path);
    }
    assert_eq!(split_path("/x/y"), Some(("x".to_string(), "y".to_string())));
}

#[test]
fn invalid_header_is_bad_request() {
    let s = settings(false);
    let bad = Some(vec![b'a', 0x01u8]);
    let d = dispatch(&s, true, "/a/b", &bad, &None, &None, "p");
    assert!(matches!(d, Dispatch::Reject(400)));
    let d = dispatch(&s, true, "/a/b", &None, &Some(vec![0xffu8]), &None, "p");
    assert!(matches!(d, Dispatch::Reject(400)));
    assert_eq!(header_text(&Some(vec![b'x', b'\t', b'y'])), Ok(Some("x\ty".to_string())));
    assert_eq!(header_text(&None), Ok(None));
    assert_eq!(header_text(&Some(vec![127u8])), Err(()));
}

#[test]
fn request_id_header_only_when_configured() {
    let mut s = settings(false);
    let rid = Some(b"req-1".to_vec());
    let bad = Some(vec![0x02u8]);
    let info = info_of(dispatch(&s, true, "/a/b", &None, &None, &bad, "p"));
    assert_eq!(info.req_id, None);
    s.req_id_header = Some("X-Request-Id".to_string());
    let info = info_of(dispatch(&s, true, "/a/b", &None, &None, &rid, "p"));
    assert_eq!(info.req_id, Some("req-1".to_string()));
    assert!(matches!(dispatch(&s, true, "/a/b", &None, &None, &bad, "p"), Dispatch::Reject(400)));
}

#[test]
fn forwarded_chain_ends_with_peer() {
    let s = settings(false);
    let xff = Some(b"1.1.1.1, 2.2.2.2".to_vec());
    let ua = Some(b"curl/8".to_vec());
    let info = info_of(dispatch(&s, true, "/a/b", &xff, &ua, &None, "3.3.3.3:5"));
    assert_eq!(info.from, vec!["1.1.1.1".to_string(), " 2.2.2.2".to_string(), "3.3.3.3:5".to_string()]);
    assert_eq!(info.ua, Some("curl/8".to_string()));
    assert_eq!(info.scope, "a");
    assert_eq!(info.key, "b");
    assert_eq!(forwarded_from(&None, "p"), vec!["p".to_string()]);
}

#[test]
fn update_route_needs_permission() {
    let s = settings(false);
    assert!(matches!(route(&s, "/__update__/a"), Dispatch::Lookup(_)));
    let mut s = settings(true);
    s.update_key = Some("refresh".to_string());
    assert!(matches!(route(&s, "/refresh/a"), Dispatch::Update(_)));
    assert!(matches!(route(&s, "/__update__/a"), Dispatch::Lookup(_)));
    assert_eq!(update_route_name(&None), "__update__");
    assert_eq!(update_route_name(&Some("k".to_string())), "k");
}

#[test]
fn scope_list_is_read_in_order() {
    let list = parse_scope_list("a,https://x/a.txt;b,local.txt", "__update__").unwrap();
    assert_eq!(list, vec![
        ("a".to_string(), "https://x/a.txt".to_string()),
        ("b".to_string(), "local.txt".to_string()),
    ]);
}

#[test]
fn scope_list_errors() {
    assert_eq!(parse_scope_list("a", "__update__"), Err(InitError::BadScopeList));
    assert_eq!(parse_scope_list("a,b,c", "__update__"), Err(InitError::BadScopeList));
    assert_eq!(parse_scope_list("a,x;", "__update__"), Err(InitError::BadScopeList));
    assert_eq!(parse_scope_list("__update__,x", "__update__"), Err(InitError::ScopeNameConflict));
}

#[test]
fn build_errors() {
    let list = parse_scope_list("a,x;a,y", "__update__").unwrap();
    let texts = vec!["k v".to_string(), "k w".to_string()];
    assert_eq!(build_table(&list, &texts, false).err(), Some(InitError::DuplicateScope));
    let list = parse_scope_list("a,x;b,y", "__update__").unwrap();
    let texts = vec!["k v".to_string(), "k".to_string()];
    assert_eq!(build_table(&list, &texts, false).err(), Some(InitError::ConfigParseError(1)));
}

#[test]
fn built_table_lists_scopes() {
    let table = table_of("a,x;b,y", &["k v", "k w"]);
    assert_eq!(table.len(), 2);
    assert_eq!(table.name_at(1).as_str(), "b");
    assert_eq!(table.entry_at(1).source, "y");
    assert_eq!(table.get("b", "k"), Some("https://w".to_string()));
    assert_eq!(ScopeTable::new().len(), 0);
}

#[test]
fn record_is_one_line() {
    assert_eq!(frame_record("{\"a\":1}"), b"{\"a\":1}\n".to_vec());
    assert_eq!(frame_record(""), b"\n".to_vec());
}

#[test]
fn prepare_then_install() {
    let mut table = table_of("a,src-a", &["k one.org"]);
    let failed = prepare_update("src-a".to_string(), Err("timeout".to_string()), false);
    assert_eq!(failed.err(), Some(UpdateResult::FetchError("timeout".to_string())));
    let failed = prepare_update("src-a".to_string(), Ok("k".to_string()), false);
    assert_eq!(failed.err(), Some(UpdateResult::ParseError));
    let new = prepare_update("src-a".to_string(), Ok("k two.org".to_string()), false).unwrap();
    assert_eq!(new.source, "src-a");
    assert_eq!(new.map.get("k").unwrap().as_str(), "https://two.org");
    match table.install("a", new) {
        UpdateResult::Succeed { new, old } => {
            assert_eq!(old.map.get("k").unwrap().as_str(), "https://one.org");
            assert_eq!(new.map.get("k").unwrap().as_str(), "https://two.org");
        }
        other => panic!("unexpected {:?}", other),
    }
    assert_eq!(table.get("a", "k"), Some("https://two.org".to_string()));
    let spare = prepare_update("s".to_string(), Ok(String::new()), false).unwrap();
    assert_eq!(table.install("zz", spare), UpdateResult::ScopeNotFound);
}
