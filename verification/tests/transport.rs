use astrolabe_core::lsp::codec::{read_json, read_published, write_json};
use astrolabe_core::lsp::frame::{
    find_header_end, parse_content_length, write_frame, FrameParser, MAX_BODY_BYTES,
};
use astrolabe_core::lsp::json::{table1, Json};
use astrolabe_core::lsp::session::{
    definition_params, diagnostic_params, diagnostics_reply, folder_name, initialize_params,
    language_id, references_params, rename_params, LspSession,
};
use astrolabe_core::lsp::transport::{
    dispatch, message_frame, poll_tick, ps_bytes, reap_step, reverse_request_result,
    rpc_notification, rpc_request, rss_bytes, should_retry, shutdown_outcome, split_batch,
    start_error, timeout_from_env, Event, Life, LspTransport, Poll, ProcessState, ReapStep, Sent,
    StdioSpawn, Told, Waited, CONTENT_MODIFIED_ATTEMPTS, DEFAULT_TIMEOUT, MAX_NOTIFICATIONS,
    QUIET_PERIOD, SETTLE_WINDOW,
};
use astrolabe_core::lsp::uri::RepoRoot;
use astrolabe_core::lsp::wire::{
    diagnostics_from_pull, locations_from_value, path_to_file_uri, percent_decode,
    range_from_value, severity_from_u64, uri_to_rel, uri_to_resolve, workspace_edit_from_value,
    Published,
};
use astrolabe_core::lsp::{LspError, Position, Range, ServerSpec, Severity};
use astrolabe_core::types::{Language, RelPath};

fn json(text: &str) -> Json {
    read_json(text.as_bytes()).expect("valid JSON")
}

fn server_spec(language: Language) -> ServerSpec {
    ServerSpec {
        language,
        command: "fake".into(),
        args: vec![],
        install_hint: "install rust-analyzer".into(),
    }
}

fn transport(timeout: u64) -> LspTransport {
    LspTransport::new(server_spec(Language::Python), 42, timeout, None)
}

fn hear(t: &mut LspTransport, text: &str) -> Event {
    t.receive(json(text))
}

fn encode_frame(body: &[u8]) -> Vec<u8> {
    let mut buf = format!("Content-Length: {}\r\n\r\n", body.len()).into_bytes();
    buf.extend_from_slice(body);
    buf
}

#[test]
fn parser_half_packet_header_then_body() {
    let body = br#"{"ok":true}"#;
    let frame = encode_frame(body);
    let split = frame.iter().position(|&b| b == b'{').unwrap();
    let mut parser = FrameParser::new();
    parser.ingest(&frame[..split]);
    assert!(parser.next().unwrap().is_none());
    parser.ingest(&frame[split..]);
    assert_eq!(parser.next().unwrap().unwrap(), body);
}

#[test]
fn parser_sticky_packets() {
    let a = encode_frame(br#"{"a":1}"#);
    let b = encode_frame(br#"{"b":2}"#);
    let mut combined = a;
    combined.extend_from_slice(&b);
    let mut parser = FrameParser::new();
    parser.ingest(&combined);
    assert_eq!(parser.next().unwrap().unwrap(), br#"{"a":1}"#);
    assert_eq!(parser.next().unwrap().unwrap(), br#"{"b":2}"#);
    assert!(parser.next().unwrap().is_none());
}

#[test]
fn parser_large_message() {
    let blob = "x".repeat(1_000_000);
    let body = format!("{{\"blob\":\"{blob}\"}}").into_bytes();
    let frame = encode_frame(&body);
    let mut parser = FrameParser::new();
    parser.ingest(&frame);
    assert_eq!(parser.next().unwrap().unwrap(), body);
}

#[test]
fn parser_extra_headers_and_lf_only() {
    let body = br#"{}"#;
    let mut frame =
        b"Content-Type: application/vscode-jsonrpc; charset=utf-8\nContent-Length: 2\n\n".to_vec();
    frame.extend_from_slice(body);
    let mut parser = FrameParser::new();
    parser.ingest(&frame);
    assert_eq!(parser.next().unwrap().unwrap(), body);
}

#[test]
fn parser_rejects_missing_content_length() {
    let mut parser = FrameParser::new();
    parser.ingest(b"X-Ignore: 1\r\n\r\n{}");
    let err = parser.next().unwrap_err();
    assert!(matches!(err, LspError::Protocol(_)));
}

#[test]
fn parser_rejects_oversize_payload() {
    let header = format!("Content-Length: {}\r\n\r\n", MAX_BODY_BYTES + 1);
    let mut parser = FrameParser::new();
    parser.ingest(header.as_bytes());
    let err = parser.next().unwrap_err();
    assert!(matches!(err, LspError::Protocol(_)));
}

#[test]
fn parser_one_byte_reads_reassemble_two_frames() {
    let frames = [encode_frame(br#"{"a":1}"#), encode_frame(br#"{"b":2}"#)].concat();
    let mut parser = FrameParser::new();
    let mut messages = Vec::new();
    for byte in frames {
        parser.ingest(&[byte]);
        while let Some(body) = parser.next().expect("frame") {
            messages.push(body);
        }
    }
    assert_eq!(
        messages,
        vec![br#"{"a":1}"#.to_vec(), br#"{"b":2}"#.to_vec()]
    );
}

#[test]
fn frames_are_read_as_they_were_written() {
    for body in [&b""[..], b"x", "{\"k\":\"测\"}".as_bytes()] {
        let frame = write_frame(body);
        assert_eq!(frame, encode_frame(body));
        let mut parser = FrameParser::new();
        parser.ingest(&frame);
        assert_eq!(parser.next().unwrap().unwrap(), body);
    }
}

#[test]
fn parser_rejects_an_endless_header() {
    let mut parser = FrameParser::new();
    parser.ingest(&vec![b'a'; 10_000]);
    assert!(matches!(parser.next(), Err(LspError::Protocol(_))));
}

#[test]
fn headers_end_at_an_empty_line() {
    assert_eq!(find_header_end(b"a: 1\r\n\r\nbody"), Some(8));
    assert_eq!(find_header_end(b"a: 1\n\nbody"), Some(6));
    assert_eq!(find_header_end(b"a: 1\r\n"), None);
    assert_eq!(parse_content_length(b"content-LENGTH:  12 \r\n\r\n"), Some(12));
    assert_eq!(parse_content_length(b"Content-Length: x\r\n\r\n"), None);
}

#[test]
fn missing_binary_is_unavailable() {
    match start_error(&server_spec(Language::Rust), true, "no such file") {
        LspError::Unavailable(Language::Rust, hint) => {
            assert!(hint.contains("rust-analyzer"));
        }
        other => panic!("expected Unavailable, got {other:?}"),
    }
    assert!(matches!(
        start_error(&server_spec(Language::Rust), false, "denied"),
        LspError::Startup(Language::Rust, _)
    ));
}

#[test]
fn ping_pairs_request_and_response() {
    let mut t = transport(5_000);
    let (id, failed) = t.open_request("ping", false);
    let id = id.unwrap();
    assert!(failed.is_empty());
    assert_eq!(
        rpc_request(id, "ping", json(r#"{"token":"abc"}"#)),
        json(&format!(
            r#"{{"id":{id},"jsonrpc":"2.0","method":"ping","params":{{"token":"abc"}}}}"#
        ))
        .sorted_like_a_request()
    );
    assert_eq!(t.note_sent(Some(id), Sent::Written), (Ok(()), vec![]));
    let reply = match hear(&mut t, &format!(r#"{{"id":{id},"result":{{"token":"abc"}}}}"#)) {
        Event::Deliver(to, reply) => {
            assert_eq!(to, id);
            reply
        }
        other => panic!("expected a delivery, got {other:?}"),
    };
    assert!(t.pending.is_empty());
    let (result, _) = t.close_request(id, Waited::Reply(reply), 5_000);
    assert_eq!(result.unwrap().text_at("token").as_deref(), Some("abc"));
}

trait AsRequest {
    fn sorted_like_a_request(self) -> Json;
}

impl AsRequest for Json {
    fn sorted_like_a_request(self) -> Json {
        let take = |key: &str| self.get(key).expect("field").copy();
        Json::table()
            .with("jsonrpc", take("jsonrpc"))
            .with("id", take("id"))
            .with("method", take("method"))
            .with("params", take("params"))
    }
}

#[test]
fn handshake_initialize_and_shutdown() {
    let (params, workspace) = initialize_params(7, "/work/repo", "/", "0.1.0", None, false);
    assert_eq!(workspace.0, "file:///work/repo");
    assert_eq!(workspace.1, "repo");
    assert_eq!(params.text_at("rootUri").as_deref(), Some("file:///work/repo"));
    assert_eq!(params.unsigned_at("processId"), Some(7));
    let mut t = transport(5_000);
    t.workspace = Some(workspace);
    assert!(t.is_alive());
    t.note_shutdown();
    assert_eq!(t.life, Life::Shutdown);
    assert_eq!(shutdown_outcome(Ok(Json::Null)), Ok(()));
    assert_eq!(shutdown_outcome(Err(LspError::Crashed)), Ok(()));
}

#[test]
fn concurrent_requests_match_by_id() {
    let mut t = transport(5_000);
    let ids: Vec<u64> = (0..8)
        .map(|_| t.open_request("ping", false).0.unwrap())
        .collect();
    assert_eq!(t.pending.len(), 8);
    let mut seen = Vec::new();
    for (i, id) in ids.iter().enumerate().rev() {
        match hear(&mut t, &format!(r#"{{"id":{id},"result":{i}}}"#)) {
            Event::Deliver(to, Ok(Json::Number(n))) => {
                assert_eq!(to, *id);
                seen.push(n.parse::<u64>().unwrap());
            }
            other => panic!("expected a delivery, got {other:?}"),
        }
    }
    seen.sort();
    assert_eq!(seen, (0..8).collect::<Vec<_>>());
    assert!(
        matches!(
            hear(&mut t, &format!(r#"{{"id":{},"result":1}}"#, ids[0])),
            Event::Nothing
        ),
        "a reply is delivered once"
    );
}

fn published(message: &str) -> Published {
    let at = Position {
        line: 0,
        character: 0,
    };
    Published {
        range: Range { start: at, end: at },
        severity: Some(Severity::Error),
        message: message.into(),
        code: None,
    }
}

fn publish(t: &mut LspTransport, uri: &str, diagnostics: &str) {
    let note = format!(
        r#"{{"method":"textDocument/publishDiagnostics","params":{{"uri":"{uri}","diagnostics":[{diagnostics}]}}}}"#
    );
    assert!(matches!(hear(t, &note), Event::Nothing));
}

fn diagnostic(message: &str) -> String {
    format!(
        r#"{{"range":{{"start":{{"line":0,"character":0}},"end":{{"line":0,"character":1}}}},"message":"{message}","severity":1}}"#
    )
}

#[test]
fn publish_diagnostics_are_captured() {
    let mut t = transport(5_000);
    publish(&mut t, "file:///tmp/fake.py", &diagnostic("old"));
    publish(&mut t, "file:///tmp/fake.py", &diagnostic("boom"));
    assert_eq!(t.published.len(), 1);
    let (uri, items) = &t.published_diagnostics()[0];
    assert_eq!(uri, "file:///tmp/fake.py");
    assert_eq!(items.len(), 1);
    assert_eq!(items[0].message, "boom");
}

#[test]
fn reverse_progress_request_is_answered() {
    let mut t = transport(5_000);
    let event = hear(
        &mut t,
        r#"{"id":"rev-1","method":"window/workDoneProgress/create","params":{"token":"t1"}}"#,
    );
    match event {
        Event::Answer(answer) => {
            assert_eq!(answer.text_at("id").as_deref(), Some("rev-1"));
            assert_eq!(answer.get("result"), Some(&Json::Null));
        }
        other => panic!("expected an answer, got {other:?}"),
    }
}

#[test]
fn reverse_configuration_returns_matching_nulls() {
    let mut t = transport(5_000);
    let event = hear(
        &mut t,
        r#"{"id":77,"method":"workspace/configuration","params":{"items":[{"section":"a"},{"section":"b"}]}}"#,
    );
    match event {
        Event::Answer(answer) => {
            assert_eq!(answer.get("result"), Some(&json("[null, null]")));
        }
        other => panic!("expected an answer, got {other:?}"),
    }
}

#[test]
fn reverse_folders_and_edits_are_answered() {
    let workspace = Some(("file:///r".to_string(), "r".to_string()));
    assert_eq!(
        reverse_request_result("workspace/workspaceFolders", &Json::Null, &workspace),
        Json::List(vec![Json::table()
            .with("uri", Json::text("file:///r"))
            .with("name", Json::text("r"))])
    );
    assert_eq!(
        reverse_request_result("workspace/applyEdit", &Json::Null, &None),
        table1("applied", Json::Bool(false))
    );
    assert_eq!(
        reverse_request_result("anything/else", &Json::Null, &None),
        Json::Null
    );
}

#[test]
fn process_sticky_frames_dispatch_notification_and_response() {
    let mut t = transport(5_000);
    let id = t.open_request("listen-sticky", false).0.unwrap();
    publish(&mut t, "file:///sticky.py", "");
    match hear(&mut t, &format!(r#"{{"id":{id},"result":{{"sticky":true}}}}"#)) {
        Event::Deliver(_, Ok(result)) => {
            assert_eq!(result.get("sticky"), Some(&Json::Bool(true)));
        }
        other => panic!("expected a delivery, got {other:?}"),
    }
    assert!(t.published.iter().any(|(uri, _)| uri == "file:///sticky.py"));
}

#[test]
fn timeout_returns_timeout_error() {
    let mut t = transport(150);
    let id = t.open_request("hang", false).0.unwrap();
    let (result, cancel) = t.close_request(id, Waited::TimedOut(None), 150);
    assert_eq!(result, Err(LspError::Timeout(150)));
    assert!(cancel, "the server is told to drop the request");
    assert!(t.pending.is_empty());
    assert!(t.is_alive());
}

#[test]
fn a_reply_that_came_at_the_last_moment_counts() {
    let mut t = transport(150);
    let id = t.open_request("hang", false).0.unwrap();
    let (result, _) = t.close_request(id, Waited::TimedOut(Some(Ok(Json::Bool(true)))), 150);
    assert_eq!(result, Ok(Json::Bool(true)));
}

#[test]
fn crash_surfaces_as_crashed_not_hang() {
    let mut t = transport(5_000);
    let id = t.open_request("crash", false).0.unwrap();
    assert_eq!(t.on_reader_exit(), vec![id]);
    let (result, _) = t.close_request(id, Waited::Disconnected, 5_000);
    assert_eq!(result, Err(LspError::Crashed));
    assert_eq!(t.open_request("ping", false).0, Err(LspError::Crashed));
    assert!(!t.is_alive());
}

#[test]
fn protocol_error_is_surfaced() {
    let mut t = transport(5_000);
    let id = t.open_request("fail", false).0.unwrap();
    let event = hear(
        &mut t,
        &format!(r#"{{"id":{id},"error":{{"code":-32000,"message":"intentional failure"}}}}"#),
    );
    match event {
        Event::Deliver(_, Err(LspError::Protocol(message))) => {
            assert!(message.contains("intentional"));
        }
        other => panic!("expected Protocol, got {other:?}"),
    }
}

#[test]
fn modified_content_is_worth_another_try() {
    let mut t = transport(5_000);
    let id = t.open_request("x", false).0.unwrap();
    let event = hear(
        &mut t,
        &format!(r#"{{"id":{id},"error":{{"code":-32801,"message":"content modified"}}}}"#),
    );
    match event {
        Event::Deliver(_, reply) => {
            assert_eq!(reply, Err(LspError::ContentModified));
            assert!(should_retry(1, &reply));
            assert!(!should_retry(CONTENT_MODIFIED_ATTEMPTS, &reply));
        }
        other => panic!("expected a delivery, got {other:?}"),
    }
    assert!(!should_retry(1, &Err(LspError::Crashed)));
    assert!(!should_retry(1, &Ok(Json::Null)));
}

#[test]
fn memory_bytes_is_observable_on_this_os() {
    let status = "Name:\tgopls\nVmPeak:\t 9000 kB\nVmRSS:\t   2048 kB\nThreads:\t4\n";
    assert_eq!(rss_bytes(status), Some(2048 * 1024));
    assert_eq!(transport(1).memory_bytes(Told::Status(status)), Some(2048 * 1024));
    assert_eq!(rss_bytes("Name:\tgopls\n"), None);
}

#[test]
fn transport_is_send_sync() {
    fn assert_send_sync<T: Send + Sync>() {}
    assert_send_sync::<LspTransport>();
    assert_send_sync::<LspSession>();
    assert_send_sync::<StdioSpawn>();
}

#[test]
fn stdio_spawn_language_server_queries() {
    let spawn = StdioSpawn::new("/r".into(), None);
    assert_eq!(spawn.timeout, DEFAULT_TIMEOUT);
    assert_eq!(spawn.with_timeout(5_000).timeout, 5_000);

    let mut session = LspSession::new(Language::Python, "/r".into(), false);
    let path = RelPath::new("hello.py");
    assert!(session.needs_open(&path));
    let opened = session
        .open_params(&path, "/", Ok("def greet():\n    return 1\n"))
        .unwrap();
    let document = opened.get("textDocument").unwrap();
    assert_eq!(document.text_at("languageId").as_deref(), Some("python"));
    assert_eq!(document.text_at("uri").as_deref(), Some("file:///r/hello.py"));
    session.note_open(&path);
    assert!(!session.needs_open(&path));
    assert!(session.open_params(&path, "/", Err("gone")).is_err());

    let root = RepoRoot::plain("/r");
    let uri = session.file_uri(&path, "/");
    let refs = locations_from_value(
        &json(&format!(
            r#"[{{"uri":"{uri}","range":{{"start":{{"line":0,"character":4}},"end":{{"line":0,"character":4}}}}}}]"#
        )),
        &root,
    );
    assert_eq!(refs.len(), 1);
    assert_eq!(refs[0].path.as_str(), "hello.py");
    let edit = workspace_edit_from_value(
        &json(&format!(
            r#"{{"changes":{{"{uri}":[{{"range":{{"start":{{"line":0,"character":4}},"end":{{"line":0,"character":4}}}},"newText":"hi"}}]}}}}"#
        )),
        &root,
    );
    assert_eq!(edit.edits.len(), 1);
    assert_eq!(edit.edits[0].1[0].new_text, "hi");
    let none = diagnostics_reply(
        Ok(json(r#"{"kind":"full","items":[]}"#)),
        &vec![],
        &uri,
        &path,
    );
    assert!(none.unwrap().is_empty());
}

#[test]
fn workspace_edit_prefers_document_changes() {
    let uri_a = path_to_file_uri("/r/a.rs", "/", false);
    let uri_b = path_to_file_uri("/r/b.rs", "/", false);
    let root = RepoRoot::plain("/r");
    let changes = format!(
        r#""changes":{{"{uri_a}":[{{"range":{{"start":{{"line":0,"character":0}},"end":{{"line":0,"character":5}}}},"newText":"from_changes"}}]}}"#
    );
    let val = json(&format!(
        r#"{{{changes},"documentChanges":[{{"textDocument":{{"uri":"{uri_b}"}},"edits":[{{"range":{{"start":{{"line":1,"character":0}},"end":{{"line":1,"character":5}}}},"newText":"from_doc_changes"}}]}}]}}"#
    ));
    let edit = workspace_edit_from_value(&val, &root);
    assert_eq!(edit.edits.len(), 1);
    assert_eq!(edit.edits[0].0.as_str(), "b.rs");
    assert_eq!(edit.edits[0].1[0].new_text, "from_doc_changes");

    let val_empty_doc = json(&format!(r#"{{{changes},"documentChanges":[]}}"#));
    let edit_empty_doc = workspace_edit_from_value(&val_empty_doc, &root);
    assert_eq!(edit_empty_doc.edits.len(), 1);
    assert_eq!(edit_empty_doc.edits[0].0.as_str(), "a.rs");
    assert_eq!(edit_empty_doc.edits[0].1[0].new_text, "from_changes");
}

#[test]
fn warm_lsp_wait_until_ready_fast_path() {
    let mut t = transport(5_000);
    let mut watch = t.start_wait(0, 10_000).expect("a cold server is waited for");
    let mut now = 0;
    let outcome = loop {
        match t.poll_ready(&mut watch, now) {
            Poll::Sleep => now += 50,
            other => break other,
        }
    };
    assert!(matches!(outcome, Poll::Ready));
    assert!(now >= SETTLE_WINDOW && now < 10_000);
    assert!(t.ready_confirmed);
    assert!(
        t.start_wait(now, 5_000).is_none(),
        "a warm server is not waited for"
    );
}

#[test]
fn a_server_is_ready_once_its_work_has_ended_for_a_while() {
    let mut t = transport(5_000);
    let mut watch = t.start_wait(0, 60_000).unwrap();
    let begin = r#"{"method":"$/progress","params":{"token":"t1","value":{"kind":"begin"}}}"#;
    let end = r#"{"method":"$/progress","params":{"token":"t1","value":{"kind":"end"}}}"#;
    hear(&mut t, begin);
    assert!(t.is_busy());
    assert!(matches!(t.poll_ready(&mut watch, 5_000), Poll::Sleep));
    hear(&mut t, end);
    assert!(!t.is_busy());
    assert!(matches!(t.poll_ready(&mut watch, 6_000), Poll::Sleep));
    assert!(matches!(
        t.poll_ready(&mut watch, 6_000 + QUIET_PERIOD),
        Poll::Ready
    ));

    let mut busy = transport(5_000);
    let mut watch = busy.start_wait(0, 4_000).unwrap();
    hear(&mut busy, begin);
    assert!(matches!(busy.poll_ready(&mut watch, 4_000), Poll::NotReady));
}

#[test]
fn a_server_that_was_quiet_too_shortly_is_not_ready_at_the_deadline() {
    let mut t = transport(5_000);
    let mut watch = t.start_wait(0, 4_000).unwrap();
    let begin = r#"{"method":"$/progress","params":{"token":"t1","value":{"kind":"begin"}}}"#;
    let end = r#"{"method":"$/progress","params":{"token":"t1","value":{"kind":"end"}}}"#;
    hear(&mut t, begin);
    assert!(matches!(t.poll_ready(&mut watch, 3_000), Poll::Sleep));
    hear(&mut t, end);
    assert!(matches!(t.poll_ready(&mut watch, 3_500), Poll::Sleep));
    assert!(matches!(t.poll_ready(&mut watch, 4_000), Poll::NotReady));
    assert!(!t.ready_confirmed);
    assert!(t.start_wait(4_000, 1_000).is_some());
}

#[test]
fn write_rpc_failure_fails_pending_requests() {
    let mut t = transport(5_000);
    let first = t.open_request("x", false).0.unwrap();
    let second = t.open_request("y", false).0.unwrap();
    let (result, failed) = t.note_sent(Some(second), Sent::Broken);
    assert_eq!(result, Err(LspError::Crashed));
    assert_eq!(t.life, Life::Dead);
    assert!(failed.contains(&first));
    assert!(t.pending.is_empty());
}

#[test]
fn diagnostics_fallback_empty_returns_protocol_error() {
    let path = RelPath::new("test.py");
    let refused = || Err(LspError::Protocol("Method not found".into()));
    match diagnostics_reply(refused(), &vec![], "file:///r/test.py", &path) {
        Err(LspError::Protocol(msg)) => {
            assert!(msg.contains("pull diagnostic unsupported and push diagnostics empty"));
        }
        other => panic!("expected Protocol error, got {other:?}"),
    }
    let pushed = vec![("file:///r/test.py".to_string(), vec![published("boom")])];
    let found = diagnostics_reply(refused(), &pushed, "file:///r/test.py", &path).unwrap();
    assert_eq!(found[0].message, "boom");
    assert_eq!(
        diagnostics_reply(
            Err(LspError::Crashed),
            &pushed,
            "file:///r/test.py",
            &path
        ),
        Err(LspError::Crashed)
    );
}

#[test]
fn file_uris_come_back_as_their_paths() {
    let root = RepoRoot::plain("/my repo");
    for rel in ["src/a.rs", "a b/测.go", "100%/x~y.ts", "a+b&c.js"] {
        let uri = path_to_file_uri(&format!("/my repo/{rel}"), "/", false);
        assert!(uri.starts_with("file:///my%20repo/"), "{uri}");
        assert_eq!(uri_to_rel(&uri, &root).unwrap().as_str(), rel);
    }
    assert_eq!(path_to_file_uri("x.rs", "/w", false), "file:///w/x.rs");
    assert!(uri_to_rel("file:///elsewhere/x", &root).is_none());
    assert_eq!(
        uri_to_resolve("file:///elsewhere/a%20b", false).as_deref(),
        Some("/elsewhere/a b")
    );
}

#[test]
fn what_is_no_text_is_decoded_all_the_same() {
    assert_eq!(percent_decode("a%20b"), "a b");
    assert_eq!(percent_decode("%E6%B5%8B"), "测");
    assert_eq!(percent_decode("%zz%4"), "%zz%4");
    assert_eq!(percent_decode("%FF"), "\u{fffd}");
}

#[test]
fn diagnostics_are_read_off_a_reply() {
    let path = RelPath::new("a.py");
    let found = diagnostics_from_pull(
        &json(
            r#"{"kind":"full","items":[
                {"range":{"start":{"line":1,"character":2},"end":{"line":1,"character":3}},
                 "message":"m","severity":2,"code":"E1"},
                {"message":"no range"},
                {"range":{"start":{"line":1,"character":2},"end":{"line":1,"character":3}},
                 "message":"n","code":7}]}"#,
        ),
        &path,
    );
    assert_eq!(found[0].severity, Severity::Warning);
    assert_eq!(found[0].code.as_deref(), Some("E1"));
    let last = found.last().unwrap();
    assert_eq!(last.code.as_deref(), Some("7"));
    assert_eq!(severity_from_u64(Some(4)), Severity::Hint);
    assert_eq!(severity_from_u64(None), Severity::Information);
    assert_eq!(last.severity, Severity::Information);
    assert!(range_from_value(&json(r#"{"start":{"line":1,"character":2}}"#)).is_none());
}

#[test]
fn parameters_of_requests() {
    let at = Position {
        line: 2,
        character: 5,
    };
    let uri = "file:///r/a.go";
    let document = r#"{"uri":"file:///r/a.go"}"#;
    let position = r#"{"line":2,"character":5}"#;
    let refs = references_params(uri, at);
    assert_eq!(refs.get("textDocument"), Some(&json(document)));
    assert_eq!(
        refs.get("context"),
        Some(&json(r#"{"includeDeclaration":true}"#))
    );
    assert_eq!(
        definition_params(uri, at).get("position").unwrap().unsigned_at("line"),
        Some(2)
    );
    let rename = rename_params(uri, at, "new");
    assert_eq!(rename.text_at("newName").as_deref(), Some("new"));
    assert_eq!(
        rename.get("position").unwrap().unsigned_at("character"),
        json(position).unsigned_at("character")
    );
    assert_eq!(
        diagnostic_params(uri).get("textDocument"),
        Some(&json(document))
    );
    assert_eq!(
        rpc_notification("exit", Json::Null).get("id"),
        None,
        "a notification has no number"
    );
    assert_eq!(language_id(Language::Tsx), "typescriptreact");
    assert_eq!(folder_name("/a/b", false), "b");
}

#[test]
fn batches_are_taken_apart() {
    assert_eq!(split_batch(json("[1,2,3]")).len(), 3);
    assert_eq!(split_batch(json(r#"{"id":1}"#)), vec![json(r#"{"id":1}"#)]);
}

#[test]
fn settings_of_the_transport() {
    assert_eq!(timeout_from_env(Some("30")), Some(30));
    assert_eq!(timeout_from_env(Some("x")), None);
    assert_eq!(timeout_from_env(Some("0")), None);
    assert_eq!(timeout_from_env(None), None);
    assert_eq!(StdioSpawn::new("/r".into(), Some("30")).timeout, 30_000);
    assert!(poll_tick(10) <= 50);
}

#[test]
fn what_a_server_tells_is_kept_up_to_a_limit() {
    let mut t = transport(5_000);
    for _ in 0..(MAX_NOTIFICATIONS + 10) {
        hear(&mut t, r#"{"method":"window/logMessage","params":{"message":"m"}}"#);
    }
    assert_eq!(t.notifications().len(), MAX_NOTIFICATIONS);
    assert_eq!(t.notifications()[0].0, "window/logMessage");
    assert_eq!(t.notifications()[0].1, json(r#"{"message":"m"}"#));
    assert_eq!((t.pid(), t.root()), (42, None));
}

#[test]
fn nothing_is_asked_of_a_server_that_has_exited() {
    let mut t = transport(5_000);
    let id = t.open_request("x", false).0.unwrap();
    let (refused, failed) = t.open_request("y", true);
    assert_eq!(refused, Err(LspError::Crashed));
    assert_eq!(failed, vec![id]);
    let mut other = transport(5_000);
    other.open_request("x", false).0.unwrap();
    other.note_shutdown();
    assert!(other.open_request("y", false).0.is_err());
    assert_eq!(other.force_stop().len(), 1);
    assert_eq!(other.life, Life::Dead);
}

#[test]
fn values_are_written_with_their_names_in_order() {
    let value = json(r#"{ "b": [1, -2, 1.50, true], "a": null, "c": "\u00e4\n" }"#);
    assert_eq!(
        write_json(&value),
        "{\"a\":null,\"b\":[1,-2,1.5,true],\"c\":\"ä\\n\"}"
    );
    let twice = Json::table()
        .with("k", Json::number(1))
        .with("a", Json::Bool(true))
        .with("k", Json::number(2));
    assert_eq!(write_json(&twice), r#"{"a":true,"k":2}"#);
    assert!(read_json(b"{").is_none());
    assert!(read_json(b"").is_none());
}

#[test]
fn numbers_keep_their_text() {
    let value = json(r#"{"n": 18446744073709551615, "f": 1e3, "neg": -1}"#);
    assert_eq!(value.unsigned_at("n"), Some(u64::MAX));
    assert_eq!(value.unsigned_at("f"), None);
    assert_eq!(value.unsigned_at("neg"), None);
    assert_eq!(Json::number(7), json("7"));
}

#[test]
fn bodies_hold_one_message_or_a_batch() {
    assert_eq!(dispatch(br#"[{"id":1},{"id":2}]"#).len(), 2);
    assert_eq!(dispatch(br#"{"id":1}"#), vec![json(r#"{"id":1}"#)]);
    assert!(dispatch(b"not json").is_empty());
    assert_eq!(
        message_frame(&rpc_notification("exit", Json::Null)),
        encode_frame(br#"{"jsonrpc":"2.0","method":"exit"}"#)
    );
}

#[test]
fn tokens_are_told_apart_by_how_they_are_written() {
    let mut t = transport(5_000);
    hear(
        &mut t,
        r#"{"method":"$/progress","params":{"token":7,"value":{"kind":"begin"}}}"#,
    );
    assert_eq!(t.active, vec!["7"]);
    hear(
        &mut t,
        r#"{"method":"$/progress","params":{"token":"7","value":{"kind":"end"}}}"#,
    );
    assert!(!t.is_busy());
}

#[test]
fn published_diagnostics_are_read_as_a_whole() {
    let read = |text: &str| read_published(&json(text));
    let good = diagnostic("m");
    let (uri, found) =
        read(&format!(r#"{{"uri":"u","version":3,"diagnostics":[{good}]}}"#)).unwrap();
    assert_eq!(uri, "u");
    assert_eq!(found[0].severity, Some(Severity::Error));
    assert_eq!(found[0].message, "m");
    assert_eq!(found[0].range.end.character, 1);
    assert!(read(r#"{"uri":"u"}"#).unwrap().1.is_empty());
    assert!(read(&format!(r#"{{"diagnostics":[{good}]}}"#)).is_none());
    assert!(read(&format!(r#"{{"uri":"u","diagnostics":[{good},{{}}]}}"#)).is_none());
    assert!(read(r#"{"uri":1,"diagnostics":[]}"#).is_none());
    assert!(read(r#"["u",[]]"#).is_some());
    assert!(read("[]").is_none());
    assert!(read("null").is_none());
}

#[test]
fn severities_beyond_the_four_have_no_name() {
    let text = diagnostic("m").replace(r#""severity":1"#, r#""severity":9,"code":"E1""#);
    let (_, found) = read_published(&json(&format!(
        r#"{{"uri":"u","diagnostics":[{text}]}}"#
    )))
    .unwrap();
    assert_eq!(found[0].severity, None);
    assert_eq!(
        found[0].code,
        Some(astrolabe_core::lsp::wire::Code::Text("E1".into()))
    );
}

fn read_frames(t: &mut LspTransport, parser: &mut FrameParser, bytes: &[u8]) -> Vec<Event> {
    parser.ingest(bytes);
    let mut events = Vec::new();
    while let Some(body) = parser.next().expect("frame") {
        for msg in dispatch(&body) {
            events.push(t.receive(msg));
        }
    }
    events
}

#[test]
fn process_split_frame_still_completes() {
    let mut t = transport(5_000);
    let mut parser = FrameParser::new();
    let id = t.open_request("listen-split", false).0.unwrap();
    let body = format!(r#"{{"jsonrpc":"2.0","id":{id},"result":{{"split":true}}}}"#);
    let frame = encode_frame(body.as_bytes());
    let cut = find_header_end(&frame).unwrap();
    assert!(read_frames(&mut t, &mut parser, &frame[..cut]).is_empty());
    let mut events = read_frames(&mut t, &mut parser, &frame[cut..]);
    assert_eq!(events.len(), 1);
    match events.remove(0) {
        Event::Deliver(to, Ok(result)) => {
            assert_eq!(to, id);
            assert_eq!(result.get("split"), Some(&Json::Bool(true)));
        }
        other => panic!("expected a delivery, got {other:?}"),
    }
}

#[test]
fn large_payload_round_trip() {
    let mut t = transport(10_000);
    let mut parser = FrameParser::new();
    let n = 200_000;
    let id = t.open_request("blob", false).0.unwrap();
    let reply = Json::table()
        .with("jsonrpc", Json::text("2.0"))
        .with("id", Json::number(id))
        .with("result", table1("blob", Json::text(&"x".repeat(n))));
    let frame = message_frame(&reply);
    let mut events = Vec::new();
    for chunk in frame.chunks(8192) {
        events.append(&mut read_frames(&mut t, &mut parser, chunk));
    }
    assert_eq!(events.len(), 1);
    match events.remove(0) {
        Event::Deliver(_, Ok(result)) => {
            assert_eq!(result.text_at("blob").unwrap().len(), n);
        }
        other => panic!("expected a delivery, got {other:?}"),
    }
}

#[test]
fn reads_of_any_size_give_back_the_bodies() {
    let bodies: [&[u8]; 4] = [br#"{"a":1}"#, b"", b"\r\n\r\n", br#"{"text":"x\n\ny"}"#];
    let stream: Vec<u8> = bodies.iter().flat_map(|b| write_frame(b)).collect();
    for size in 1..=stream.len() {
        let mut parser = FrameParser::new();
        let mut got: Vec<Vec<u8>> = Vec::new();
        for read in stream.chunks(size) {
            parser.ingest(read);
            while let Some(body) = parser.next().expect("a partial frame is no error") {
                got.push(body);
            }
        }
        assert_eq!(got, bodies, "reads of {size} bytes");
        parser.ingest(b"Content-Length: 1\r\n\r\nz");
        assert_eq!(parser.next().unwrap().unwrap(), b"z", "nothing was left");
    }
}

#[test]
fn memory_is_read_off_what_ps_prints() {
    assert_eq!(ps_bytes("  2048\n"), Some(2048 * 1024));
    assert_eq!(ps_bytes("18446744073709551615"), Some(u64::MAX));
    assert_eq!(ps_bytes("18446744073709551616"), None);
    assert_eq!(ps_bytes("\n"), None);
    assert_eq!(ps_bytes("2048 kB"), None);
    assert_eq!(transport(1).memory_bytes(Told::Ps(" 3\n")), Some(3072));
    let mut dead = transport(1);
    dead.force_stop();
    assert_eq!(dead.memory_bytes(Told::Ps("3")), None);
}

#[test]
fn processes_that_do_not_end_are_killed() {
    assert_eq!(reap_step(ProcessState::Ended, 0, 200), ReapStep::Leave);
    assert_eq!(reap_step(ProcessState::Unknown, 0, 200), ReapStep::Leave);
    assert_eq!(reap_step(ProcessState::Running, 0, 200), ReapStep::Sleep(5));
    assert_eq!(reap_step(ProcessState::Running, 199, 200), ReapStep::Sleep(5));
    assert_eq!(reap_step(ProcessState::Running, 200, 200), ReapStep::Kill);
    assert_eq!(reap_step(ProcessState::Running, 0, 0), ReapStep::Kill);
}

#[test]
fn paths_below_the_root_keep_their_text() {
    let root = RepoRoot::plain("/repo");
    let rel = |uri: &str| uri_to_rel(uri, &root).map(|p| p.as_str().to_string());
    assert_eq!(rel("file:///repo/a//b.go").as_deref(), Some("a//b.go"));
    assert_eq!(rel("file:///repo//./a/./b.go/").as_deref(), Some("a/./b.go"));
    assert_eq!(rel("file:///repo").as_deref(), Some(""));
    assert_eq!(rel("file:///repos/a.go"), None);
    assert_eq!(rel("a//b.go").as_deref(), Some("a//b.go"));
    let bare = RepoRoot::plain("/");
    assert_eq!(uri_to_rel("file:///x//y", &bare).unwrap().as_str(), "x//y");
    let none = RepoRoot::plain("");
    assert_eq!(uri_to_rel("file:///x//y/", &none).unwrap().as_str(), "x//y");
}

#[test]
fn windows_paths_stand_behind_a_slash_in_uris() {
    let uri = |path: &str| path_to_file_uri(path, "D:\\work", true);
    assert_eq!(uri("C:\\Users\\me\\a b.rs"), "file:///C:/Users/me/a%20b.rs");
    assert_eq!(uri("C:/x"), "file:///C:/x");
    assert_eq!(uri("src\\a.rs"), "file:///D:/work/src/a.rs");
    assert_eq!(uri("\\x"), "file:///D:/x");
    assert_eq!(path_to_file_uri("C:\\x", "/", false), "file:///C:/x");
    let session = LspSession::new(Language::Python, "C:\\repo\\".into(), true);
    assert_eq!(session.file_uri(&RelPath::new("a/b.py"), "D:\\"), "file:///C:/repo/a/b.py");
    assert_eq!(folder_name("C:\\work\\repo", true), "repo");
    assert_eq!(folder_name("C:\\", true), "workspace");
    assert_eq!(uri_to_resolve("file:///C:/x", true), None);
    assert_eq!(uri_to_resolve("C:/x", true).as_deref(), Some("C:/x"));
    let root = RepoRoot {
        windows: true,
        ..RepoRoot::plain("C:\\repo")
    };
    let rel = |uri: &str| uri_to_rel(uri, &root).map(|p| p.as_str().to_string());
    assert_eq!(rel("c:/repo/src//a.rs").as_deref(), Some("src//a.rs"));
    assert_eq!(rel("D:/repo/src/a.rs"), None);
    assert_eq!(rel("file:///C:/repo/a.rs").as_deref(), Some("C:/repo/a.rs"));
}
