use parcad::mcp::{client_of, is_live, status, too_large, Activity, ClientInfo, BODY_LIMIT, SESSION_IDLE_LIMIT_SECS, TOO_LARGE};

fn fresh() -> Activity {
    Activity { sessions: Vec::new(), client: None, tool_calls: 0, last_tool: None, last_seen: None }
}

#[test]
fn a_session_is_counted_until_it_hangs_up_or_goes_quiet() {
    let mut a = fresh();
    a.note_request(None, false, Some("initialize"), Some("inspector 1.0".to_string()), None, 10);
    a.note_reply(Some("s1"), Some("inspector 1.0".to_string()), 10);
    a.note_request(Some("s2"), false, Some("tools/list"), None, None, 20);
    a.note_request(Some("s1"), false, Some("tools/call"), None, Some("evaluate".to_string()), 30);
    let s = status(&mut a, 40, 7777);
    assert_eq!(s.clients, 2);
    assert_eq!(s.client.as_deref(), Some("inspector 1.0"));
    assert_eq!(s.tool_calls, 1);
    assert_eq!(s.last_tool.as_deref(), Some("evaluate"));
    assert_eq!(s.idle_secs, Some(10));
    assert_eq!(s.url, "http://127.0.0.1:7777/mcp");
    assert_eq!(a.sessions[0].client.as_deref(), Some("inspector 1.0"));
    assert_eq!(a.sessions[1].client, None);

    a.note_request(Some("s2"), true, None, None, None, 50);
    assert_eq!(status(&mut a, 50, 7777).clients, 1);

    let s = status(&mut a, 30 + SESSION_IDLE_LIMIT_SECS, 7777);
    assert_eq!(s.clients, 0, "a client silent past the limit is not shown connected");
    assert!(a.sessions.is_empty());
}

#[test]
fn a_request_without_a_session_changes_no_session() {
    let mut a = fresh();
    a.note_request(None, true, Some("tools/call"), None, Some("save".to_string()), 5);
    assert!(a.sessions.is_empty());
    assert_eq!(a.tool_calls, 1);
    assert_eq!(a.last_seen, Some(5));
    assert!(is_live(SESSION_IDLE_LIMIT_SECS - 1) && !is_live(SESSION_IDLE_LIMIT_SECS));
}

#[test]
fn a_tool_call_body_is_counted_with_its_tool() {
    let mut a = fresh();
    let body = br#"{"jsonrpc":"2.0","id":3,"method":"tools/call","params":{"name":"render","arguments":{}}}"#;
    a.note_body(Some("s1"), false, body, 5);
    assert_eq!(a.tool_calls, 1);
    assert_eq!(a.last_tool.as_deref(), Some("render"));
    assert_eq!(a.last_seen, Some(5));
    assert_eq!(a.sessions.len(), 1);
    assert_eq!(a.sessions[0].id, "s1");
}

#[test]
fn a_handshake_body_names_its_client() {
    let mut a = fresh();
    let body = br#"{"method":"initialize","params":{"clientInfo":{"name":"inspector","version":"0.9"}}}"#;
    a.note_body(None, false, body, 1);
    assert_eq!(a.client.as_deref(), Some("inspector 0.9"));
    assert_eq!(a.tool_calls, 0);
    assert!(a.sessions.is_empty());
}

#[test]
fn a_body_that_is_not_json_only_marks_the_time() {
    let mut a = fresh();
    a.note_body(Some("s1"), false, b"not json", 7);
    assert_eq!(a.tool_calls, 0);
    assert_eq!(a.client, None);
    assert_eq!(a.last_seen, Some(7));
    assert_eq!(a.sessions.len(), 1);
}

#[test]
fn a_goodbye_body_removes_its_session() {
    let mut a = fresh();
    a.note_body(Some("s1"), false, b"{}", 1);
    a.note_body(Some("s2"), false, b"{}", 2);
    a.note_body(Some("s1"), true, b"", 3);
    assert_eq!(a.sessions.len(), 1);
    assert_eq!(a.sessions[0].id, "s2");
}

#[test]
fn a_client_is_shown_by_name_and_version_or_as_it_wrote_itself() {
    let both = ClientInfo { name: Some(Some("inspector".to_string())), version: Some(Some("1".to_string())), text: "{}".to_string() };
    assert_eq!(client_of(&Some(both)).as_deref(), Some("inspector 1"));
    let odd = ClientInfo { name: Some(None), version: Some(Some("2".to_string())), text: "x".to_string() };
    assert_eq!(client_of(&Some(odd)).as_deref(), Some("? 2"));
    let nameless = ClientInfo { name: None, version: Some(Some("2".to_string())), text: r#"{"version":"2"}"#.to_string() };
    assert_eq!(client_of(&Some(nameless)).as_deref(), Some(r#"{"version":"2"}"#));
    assert_eq!(client_of(&None), None);
}

#[test]
fn a_body_over_the_limit_is_refused() {
    assert_eq!(BODY_LIMIT, 32 * 1024 * 1024);
    assert!(!too_large(BODY_LIMIT));
    assert!(too_large(BODY_LIMIT + 1));
    assert!(TOO_LARGE.contains("32 MB"));
}
