use github_mcp_server::error::MCPError;
use github_mcp_server::json::{parse_json, Json};
use github_mcp_server::protocol::{request_from_json, Response};
use github_mcp_server::server::{Server, ServerAction, ServerEvent};
use github_mcp_server::tools::{Repository, SearchRepositoriesParams, SearchRepositoriesResult};
use github_mcp_server::transport::{frame_line, strip_line_terminator, MemTransport, Transport};

fn server() -> Server {
    Server::new(b"github-mcp-server".to_vec(), b"0.1.0".to_vec())
}

fn step_line(s: &Server, line: &str) -> ServerAction {
    s.step(ServerEvent::Message(line.as_bytes().to_vec()))
}

fn field<'a>(j: &'a Json, key: &[u8]) -> Option<&'a Json> {
    match j {
        Json::Obj(fs) => fs.iter().find(|(k, _)| k == key).map(|(_, v)| v),
        _ => None,
    }
}

fn reply_json(a: ServerAction) -> Json {
    match a {
        ServerAction::Reply(line) => parse_json(&line).expect("reply must be valid JSON"),
        other => panic!("expected a reply, got {:?}", other),
    }
}

fn error_code(reply: &Json) -> i64 {
    match field(reply, b"error").and_then(|e| field(e, b"code")) {
        Some(Json::Int(c)) => *c,
        other => panic!("expected an error code, got {:?}", other),
    }
}

#[test]
fn id_is_echoed_verbatim() {
    let s = server();
    let r = reply_json(step_line(&s, "{\"jsonrpc\":\"2.0\",\"id\":42,\"method\":\"listTools\"}"));
    assert_eq!(field(&r, b"id"), Some(&Json::Int(42)));

    let r = reply_json(step_line(
        &s,
        "{\"jsonrpc\":\"2.0\",\"id\":{\"k\":[1,2]},\"method\":\"listTools\"}",
    ));
    assert_eq!(
        field(&r, b"id"),
        Some(&Json::Obj(vec![(
            b"k".to_vec(),
            Json::Arr(vec![Json::Int(1), Json::Int(2)])
        )]))
    );

    let r = reply_json(step_line(&s, "{\"jsonrpc\":\"2.0\",\"method\":\"listTools\"}"));
    assert_eq!(field(&r, b"id"), Some(&Json::Null));
}

#[test]
fn non_integer_id_is_echoed_verbatim() {
    let s = server();
    let r = reply_json(step_line(
        &s,
        "{\"jsonrpc\":\"2.0\",\"id\":1.5,\"method\":\"listTools\"}",
    ));
    assert_eq!(field(&r, b"id"), Some(&Json::Num(b"1.5".to_vec())));
    let r = reply_json(step_line(
        &s,
        "{\"jsonrpc\":\"2.0\",\"id\":18446744073709551615,\"method\":\"listTools\"}",
    ));
    assert_eq!(
        field(&r, b"id"),
        Some(&Json::Num(b"18446744073709551615".to_vec()))
    );
}

#[test]
fn result_and_error_are_mutually_exclusive() {
    let s = server();
    let ok = reply_json(step_line(&s, "{\"jsonrpc\":\"2.0\",\"id\":1,\"method\":\"listTools\"}"));
    assert!(field(&ok, b"result").is_some());
    assert!(field(&ok, b"error").is_none());

    let err = reply_json(step_line(&s, "{\"jsonrpc\":\"2.0\",\"id\":1,\"method\":\"nope\"}"));
    assert!(field(&err, b"result").is_none());
    assert!(field(&err, b"error").is_some());
}

#[test]
fn response_round_trips_through_the_codec() {
    let make = || Response {
        jsonrpc: b"2.0".to_vec(),
        id: Some(Json::Int(7)),
        result: Some(Json::Obj(vec![(b"x".to_vec(), Json::Str(b"y".to_vec()))])),
        error: None,
    };
    let line = github_mcp_server::protocol::encode_response(make());
    let back = parse_json(&line).expect("encoded response parses");
    let again = github_mcp_server::protocol::response_to_json(make());
    assert_eq!(back, again);
    let req_like = request_from_json(back);
    assert!(req_like.is_err());
}

#[test]
fn list_tools_is_static_and_ignores_params() {
    let s = server();
    let a = reply_json(step_line(&s, "{\"jsonrpc\":\"2.0\",\"id\":1,\"method\":\"listTools\"}"));
    let b = reply_json(step_line(
        &s,
        "{\"jsonrpc\":\"2.0\",\"id\":2,\"method\":\"listTools\",\"params\":{\"junk\":true}}",
    ));
    assert_eq!(field(&a, b"result"), field(&b, b"result"));
    let tools = field(&a, b"result").and_then(|r| field(r, b"tools")).unwrap();
    match tools {
        Json::Arr(items) => {
            assert_eq!(items.len(), 1);
            assert_eq!(
                field(&items[0], b"name"),
                Some(&Json::Str(b"search_repositories".to_vec()))
            );
            assert!(field(&items[0], b"description").is_some());
            assert!(field(&items[0], b"input_schema").is_some());
        },
        other => panic!("tools should be an array, got {:?}", other),
    }
}

#[test]
fn call_tool_dispatches_with_defaults() {
    let s = server();
    let a = step_line(
        &s,
        "{\"jsonrpc\":\"2.0\",\"id\":5,\"method\":\"callTool\",\"params\":{\"name\":\"search_repositories\",\"params\":{\"query\":\"tokio\"}}}",
    );
    match a {
        ServerAction::Search(id, params) => {
            assert_eq!(id, Some(Json::Int(5)));
            assert_eq!(params.query, b"tokio".to_vec());
            assert_eq!(params.page, None);
            assert_eq!(params.per_page, None);
            assert_eq!(params.effective_page(), 1);
            assert_eq!(params.effective_per_page(), 30);
            let result = SearchRepositoriesResult::from_parts(
                Some(2),
                vec![Repository::from_parts(
                    b"tokio".to_vec(),
                    Some(b"tokio-rs/tokio".to_vec()),
                    None,
                    Some(b"https://github.com/tokio-rs/tokio".to_vec()),
                    Some(28000),
                )],
            );
            let line = s.step_search(id, Ok(result));
            let r = parse_json(&line).expect("search reply parses");
            assert!(field(&r, b"error").is_none());
            let res = field(&r, b"result").unwrap();
            assert_eq!(field(res, b"total_count"), Some(&Json::Int(2)));
            match field(res, b"items").unwrap() {
                Json::Arr(items) => {
                    assert_eq!(items.len(), 1);
                    assert_eq!(field(&items[0], b"description"), Some(&Json::Null));
                    assert_eq!(field(&items[0], b"stargazers_count"), Some(&Json::Int(28000)));
                },
                other => panic!("items should be an array, got {:?}", other),
            }
        },
        other => panic!("expected a search, got {:?}", other),
    }
}

#[test]
fn call_tool_missing_query_is_a_parse_error() {
    let s = server();
    let r = reply_json(step_line(
        &s,
        "{\"jsonrpc\":\"2.0\",\"id\":1,\"method\":\"callTool\",\"params\":{\"name\":\"search_repositories\",\"params\":{}}}",
    ));
    assert_eq!(error_code(&r), -32700);
    assert_eq!(field(&r, b"id"), Some(&Json::Int(1)));
}

#[test]
fn call_tool_missing_params_is_invalid_request() {
    let s = server();
    let r = reply_json(step_line(&s, "{\"jsonrpc\":\"2.0\",\"id\":1,\"method\":\"callTool\"}"));
    assert_eq!(error_code(&r), -32600);
    let r = reply_json(step_line(
        &s,
        "{\"jsonrpc\":\"2.0\",\"id\":1,\"method\":\"callTool\",\"params\":{\"name\":\"search_repositories\"}}",
    ));
    assert_eq!(error_code(&r), -32600);
}

#[test]
fn missing_tool_name_is_invalid_request() {
    let s = server();
    let r = reply_json(step_line(
        &s,
        "{\"jsonrpc\":\"2.0\",\"id\":1,\"method\":\"callTool\",\"params\":{\"params\":{}}}",
    ));
    assert_eq!(error_code(&r), -32600);
    let r = reply_json(step_line(
        &s,
        "{\"jsonrpc\":\"2.0\",\"id\":1,\"method\":\"callTool\",\"params\":{\"params\":{},\"name\":5}}",
    ));
    assert_eq!(error_code(&r), -32600);
    let msg = field(&r, b"error").and_then(|e| field(e, b"message")).unwrap();
    assert_eq!(msg, &Json::Str(b"Invalid request: Missing tool name".to_vec()));
}

#[test]
fn out_of_range_page_or_per_page_is_rejected() {
    let s = server();
    let bad = [
        "{\"jsonrpc\":\"2.0\",\"id\":1,\"method\":\"callTool\",\"params\":{\"name\":\"search_repositories\",\"params\":{\"query\":\"q\",\"page\":0}}}",
        "{\"jsonrpc\":\"2.0\",\"id\":1,\"method\":\"callTool\",\"params\":{\"name\":\"search_repositories\",\"params\":{\"query\":\"q\",\"per_page\":0}}}",
        "{\"jsonrpc\":\"2.0\",\"id\":1,\"method\":\"callTool\",\"params\":{\"name\":\"search_repositories\",\"params\":{\"query\":\"q\",\"per_page\":101}}}",
        "{\"jsonrpc\":\"2.0\",\"id\":1,\"method\":\"callTool\",\"params\":{\"name\":\"search_repositories\",\"params\":{\"query\":\"q\",\"page\":-1}}}",
    ];
    for line in bad {
        let r = reply_json(step_line(&s, line));
        assert_eq!(error_code(&r), -32700);
    }
    let ok = step_line(
        &s,
        "{\"jsonrpc\":\"2.0\",\"id\":1,\"method\":\"callTool\",\"params\":{\"name\":\"search_repositories\",\"params\":{\"query\":\"q\",\"page\":1,\"per_page\":100}}}",
    );
    match ok {
        ServerAction::Search(_, p) => {
            assert_eq!(p.page, Some(1));
            assert_eq!(p.per_page, Some(100));
        },
        other => panic!("expected a search, got {:?}", other),
    }
}

#[test]
fn unknown_tool_is_method_not_found_and_loop_survives() {
    let s = server();
    let r = reply_json(step_line(
        &s,
        "{\"jsonrpc\":\"2.0\",\"id\":1,\"method\":\"callTool\",\"params\":{\"name\":\"nonexistent_tool\",\"params\":{}}}",
    ));
    assert_eq!(error_code(&r), -32601);
    let next = reply_json(step_line(&s, "{\"jsonrpc\":\"2.0\",\"id\":2,\"method\":\"listTools\"}"));
    assert!(field(&next, b"result").is_some());
}

#[test]
fn unknown_method_is_method_not_found() {
    let s = server();
    let r = reply_json(step_line(&s, "{\"jsonrpc\":\"2.0\",\"id\":9,\"method\":\"frobnicate\"}"));
    assert_eq!(error_code(&r), -32601);
    let msg = field(&r, b"error").and_then(|e| field(e, b"message")).unwrap();
    assert_eq!(msg, &Json::Str(b"Method not found: frobnicate".to_vec()));
}

#[test]
fn malformed_line_gets_an_error_reply_with_null_id() {
    let s = server();
    let r = reply_json(step_line(&s, "this is not json"));
    assert_eq!(error_code(&r), -32700);
    assert_eq!(field(&r, b"id"), Some(&Json::Null));
}

#[test]
fn closure_shuts_down_without_writing() {
    let s = server();
    assert_eq!(s.step(ServerEvent::Closed), ServerAction::Shutdown);
}

#[test]
fn framing_appends_exactly_one_newline() {
    assert_eq!(frame_line(b"abc".to_vec()), b"abc\n".to_vec());
    assert_eq!(strip_line_terminator(b"abc\r\n".to_vec()), b"abc".to_vec());
    assert_eq!(strip_line_terminator(b"abc\n".to_vec()), b"abc".to_vec());
    assert_eq!(strip_line_terminator(b"abc".to_vec()), b"abc".to_vec());
}

#[test]
fn mem_transport_keeps_messages_whole_and_signals_closure() {
    let mut t = MemTransport::new(vec![b"one".to_vec(), b"two".to_vec()]);
    assert_eq!(t.read_message(), Ok(b"one".to_vec()));
    assert_eq!(t.read_message(), Ok(b"two".to_vec()));
    assert!(matches!(t.read_message(), Err(MCPError::Transport(_))));
    t.write_message(&b"alpha".to_vec()).unwrap();
    t.write_message(&b"beta".to_vec()).unwrap();
    assert_eq!(t.outgoing, vec![b"alpha".to_vec(), b"beta".to_vec()]);
}

#[test]
fn a_full_session_over_a_mock_transport() {
    let s = server();
    let mut t = MemTransport::new(vec![
        b"{\"jsonrpc\":\"2.0\",\"id\":1,\"method\":\"listTools\"}\n".to_vec(),
        b"{\"jsonrpc\":\"2.0\",\"id\":2,\"method\":\"frobnicate\"}\r\n".to_vec(),
    ]);
    loop {
        let ev = match t.read_message() {
            Ok(line) => ServerEvent::Message(strip_line_terminator(line)),
            Err(_) => ServerEvent::Closed,
        };
        match s.step(ev) {
            ServerAction::Reply(line) => {
                t.write_message(&frame_line(line)).unwrap();
            },
            ServerAction::Search(..) => panic!("no search expected here"),
            ServerAction::Shutdown => break,
        }
    }
    assert_eq!(t.outgoing.len(), 2);
    for line in &t.outgoing {
        assert_eq!(line.last(), Some(&b'\n'));
        assert_eq!(line.iter().filter(|&&b| b == b'\n').count(), 1);
    }
    let first = parse_json(&strip_line_terminator(t.outgoing[0].clone())).unwrap();
    assert_eq!(field(&first, b"id"), Some(&Json::Int(1)));
    let second = parse_json(&strip_line_terminator(t.outgoing[1].clone())).unwrap();
    assert_eq!(error_code(&second), -32601);
}

#[test]
fn error_kinds_have_distinct_codes_and_messages() {
    assert_eq!(MCPError::Parse(b"x".to_vec()).code(), -32700);
    assert_eq!(MCPError::InvalidRequest(b"x".to_vec()).code(), -32600);
    assert_eq!(MCPError::MethodNotFound(b"x".to_vec()).code(), -32601);
    assert_eq!(MCPError::GitHub(b"x".to_vec()).code(), -32000);
    assert_eq!(
        MCPError::GitHub(b"rate limited".to_vec()).message(),
        b"GitHub API error: rate limited".to_vec()
    );
    assert_eq!(
        MCPError::Parse(b"bad".to_vec()).message(),
        b"Parse error: bad".to_vec()
    );
}

#[test]
fn repository_from_parts_fills_defaults() {
    let r = Repository::from_parts(b"n".to_vec(), None, None, None, None);
    assert_eq!(r.full_name, b"".to_vec());
    assert_eq!(r.html_url, b"".to_vec());
    assert_eq!(r.description, None);
    assert_eq!(r.stargazers_count, 0);
    let res = SearchRepositoriesResult::from_parts(None, vec![]);
    assert_eq!(res.total_count, 0);
    assert_eq!(res.items.len(), 0);
}

#[test]
fn search_failure_becomes_an_error_reply() {
    let s = server();
    let line = s.step_search(Some(Json::Int(3)), Err(b"boom".to_vec()));
    let r = parse_json(&line).unwrap();
    assert_eq!(error_code(&r), -32000);
    assert_eq!(
        field(&r, b"error").and_then(|e| field(e, b"message")),
        Some(&Json::Str(b"GitHub API error: boom".to_vec()))
    );
    assert_eq!(field(&r, b"id"), Some(&Json::Int(3)));
}

#[test]
fn per_page_and_page_must_be_integers() {
    let s = server();
    let r = reply_json(step_line(
        &s,
        "{\"jsonrpc\":\"2.0\",\"id\":1,\"method\":\"callTool\",\"params\":{\"name\":\"search_repositories\",\"params\":{\"query\":\"q\",\"page\":\"x\"}}}",
    ));
    assert_eq!(error_code(&r), -32700);
    let a = step_line(
        &s,
        "{\"jsonrpc\":\"2.0\",\"id\":1,\"method\":\"callTool\",\"params\":{\"name\":\"search_repositories\",\"params\":{\"query\":\"q\",\"page\":2,\"per_page\":50}}}",
    );
    match a {
        ServerAction::Search(_, p) => {
            assert_eq!(p.page, Some(2));
            assert_eq!(p.per_page, Some(50));
        },
        other => panic!("expected a search, got {:?}", other),
    }
}

#[test]
fn params_struct_round_trips_through_dispatch() {
    let p = SearchRepositoriesParams { query: b"rust".to_vec(), page: Some(3), per_page: None };
    assert_eq!(p.effective_page(), 3);
    assert_eq!(p.effective_per_page(), 30);
}
