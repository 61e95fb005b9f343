use nats_core::client::{
    check_inbox, check_queue, check_subject, parse_nats_uri, sub_command, Client, ConnectAction,
    CIRCUIT_BREAKER_ROUNDS_BEFORE_BREAKING, CIRCUIT_BREAKER_WAIT_BETWEEN_ROUNDS_MS, DEFAULT_PORT,
};
use nats_core::errors::{ErrorKind, NatsClientError};
use nats_core::parser::{ParseResult, Parser};
use nats_core::session::{
    ack_action, check_info_line, check_pong_line, connect_command, retry_action, AckAction,
    RetryAction,
};

fn endpoints(c: &Client) -> Vec<(String, u16)> {
    let mut v: Vec<(String, u16)> = c.servers().iter().map(|s| (s.host.clone(), s.port)).collect();
    v.sort();
    v
}

#[test]
fn client_keeps_every_endpoint() {
    let uris = vec![
        "nats://a.example:4000".to_string(),
        "nats://b.example".to_string(),
        "nats://c.example:1".to_string(),
        "nats://a.example:4000".to_string(),
    ];
    for _ in 0..20 {
        let c = Client::new(uris.clone()).unwrap();
        assert_eq!(
            endpoints(&c),
            vec![
                ("a.example".to_string(), 4000),
                ("a.example".to_string(), 4000),
                ("b.example".to_string(), DEFAULT_PORT),
                ("c.example".to_string(), 1),
            ]
        );
        assert_eq!(c.server_index(), 0);
        assert_eq!(c.next_sid(), 1);
        assert_eq!(c.subscription_count(), 0);
    }
}

#[test]
fn client_from_one_uri() {
    let c = Client::new("nats://demo.nats.io").unwrap();
    assert_eq!(endpoints(&c), vec![("demo.nats.io".to_string(), 4222)]);
}

#[test]
fn uri_errors() {
    assert_eq!(parse_nats_uri("http://host:1").unwrap_err().kind, ErrorKind::InvalidSchemeError);
    assert_eq!(parse_nats_uri("not a uri").unwrap_err().kind, ErrorKind::InvalidClientConfig);
    assert_eq!(
        parse_nats_uri("not a uri").unwrap_err().message(),
        "relative URL without a base".to_string()
    );
    let u = parse_nats_uri("nats:path-only").unwrap();
    assert_eq!((u.host, u.port), (None, None));
    let e = Client::new("nats:path-only").unwrap_err();
    assert_eq!((e.kind, e.description), (ErrorKind::InvalidClientConfig, "Missing host"));
    let s = parse_nats_uri("nats://host:5555").unwrap();
    assert_eq!((s.host.as_deref(), s.port), (Some("host"), Some(5555)));
    let s = parse_nats_uri("nats://host").unwrap();
    assert_eq!(s.port, None);
    assert!(Client::new(Vec::<String>::new()).is_err());
    let e = Client::new(vec!["nats://ok".to_string(), "http://bad".to_string()]).unwrap_err();
    assert_eq!(e.kind, ErrorKind::InvalidSchemeError);
}

#[test]
fn whitespace_checks() {
    assert!(check_subject("foo.bar").is_ok());
    let e = check_subject("foo bar").unwrap_err();
    assert_eq!((e.kind, e.description), (ErrorKind::ClientProtocolError, "Subject can't contain spaces"));
    assert_eq!(check_queue("my queue").unwrap_err().description, "Queue name can't contain spaces");
    assert_eq!(check_inbox("_INBOX. x").unwrap_err().description, "Inbox name can't contain spaces");
    assert_eq!(check_queue("q\t1").unwrap_err().kind, ErrorKind::ClientProtocolError);
    assert_eq!(check_inbox("in\r\nbox").unwrap_err().kind, ErrorKind::ClientProtocolError);
}

#[test]
fn sub_command_decodes_back() {
    let frame = sub_command("time.us", Some("workers"), 1234567);
    assert_eq!(frame, b"SUB time.us workers 1234567\r\n".to_vec());
    let mut p = Parser::new();
    let (res, n) = p.parse(&frame).unwrap();
    assert_eq!(n, frame.len());
    match res {
        ParseResult::Sub(s) => {
            assert_eq!(s.subject, "time.us");
            assert_eq!(s.queue, Some("workers".to_string()));
            assert_eq!(s.sid, "1234567");
        },
        _ => panic!("expected a subscription"),
    }
    assert_eq!(sub_command("x", None, 0), b"SUB x 0\r\n".to_vec());
}

#[test]
fn failed_subscribe_changes_nothing() {
    let mut c = Client::new("nats://host").unwrap();
    let req = c.prepare_subscribe("foo", None).unwrap();
    assert_eq!(req.frame, b"SUB foo 1\r\n".to_vec());
    let failure = NatsClientError::new(ErrorKind::IoError, "I/O error");
    let r = c.commit_subscribe(req, Err(failure));
    assert_eq!(c.subscription_count(), 0);
    assert_eq!(r.unwrap_err().kind, ErrorKind::IoError);
    assert_eq!(c.subscription_count(), 0);
    assert_eq!(c.next_sid(), 1);

    let req = c.prepare_subscribe("foo", Some("q")).unwrap();
    assert_eq!(req.sid, 1);
    let ch = c.commit_subscribe(req, Ok(())).unwrap();
    assert_eq!(ch.sid, 1);
    assert_eq!(c.subscription_count(), 1);
    assert_eq!(c.next_sid(), 2);
}

#[test]
fn subscribe_rejects_whitespace_before_anything() {
    let c = Client::new("nats://host").unwrap();
    assert_eq!(c.prepare_subscribe("a b", None).unwrap_err().kind, ErrorKind::ClientProtocolError);
    assert_eq!(
        c.prepare_subscribe("ab", Some("q q")).unwrap_err().kind,
        ErrorKind::ClientProtocolError
    );
    assert_eq!(c.next_sid(), 1);
}

#[test]
fn ack_lines() {
    assert!(matches!(ack_action("+OK\r\n"), AckAction::Done));
    assert!(matches!(ack_action("PING\r\n"), AckAction::SendPong));
    match ack_action("-ERR 'bad'\r\n") {
        AckAction::Fail(e) => {
            assert_eq!(e.kind, ErrorKind::ServerProtocolError);
            assert_eq!(e.detail.as_deref(), Some("-ERR 'bad'\r\n"));
            assert_eq!(
                e.message(),
                "Received unexpect response from server: -ERR 'bad'\r\n".to_string()
            );
        },
        _ => panic!("expected a failure"),
    }
    match ack_action("OK") {
        AckAction::Fail(e) => {
            assert_eq!(e.kind, ErrorKind::IoError);
            assert_eq!(e.message(), "Incomplete server response".to_string());
        },
        _ => panic!("expected a failure"),
    }
}

#[test]
fn handshake_with_wrong_reply_moves_to_next_candidate() {
    let mut c = Client::new(vec!["nats://a".to_string(), "nats://b".to_string()]).unwrap();
    let (mut progress, first) = c.begin_connect();
    assert!(matches!(first, ConnectAction::Try(0)));
    assert!(check_info_line("INFO {}\r\n").is_ok());
    assert_eq!(connect_command("{}"), "CONNECT {}\nPING\n".to_string());
    let reply = check_pong_line("+OK\r\n");
    assert_eq!(reply.unwrap_err().kind, ErrorKind::IoError);
    assert!(matches!(c.connect_failed(&mut progress), ConnectAction::Try(1)));
    assert_eq!(c.server_index(), 1);
    assert!(check_pong_line("PONG\r\n").is_ok());
}

#[test]
fn info_line_checks() {
    assert_eq!(check_info_line("INFO\r\n").unwrap_err().kind, ErrorKind::IoError);
    assert_eq!(check_info_line("HELLO {}\r\n").unwrap_err().description, "Server INFO not received");
    assert_eq!(
        check_info_line("INFO {not json\r\n").unwrap_err().description,
        "Invalid JSON object sent by the server"
    );
    assert!(check_info_line("INFO {\"server_id\":\"x\",\"max_payload\":1048576}\r\n").is_ok());
    assert!(check_info_line("INFO [1, 2]\r\n").is_err());
    assert!(check_info_line("INFO null\r\n").is_err());
}

#[test]
fn breaker_gives_up_after_every_round() {
    let mut c = Client::new(vec![
        "nats://a".to_string(),
        "nats://b".to_string(),
        "nats://c".to_string(),
    ])
    .unwrap();
    let (mut progress, mut action) = c.begin_connect();
    let mut attempts = 0;
    let mut paused_ms = 0;
    loop {
        match action {
            ConnectAction::Try(i) => {
                assert_eq!(i, c.server_index());
                attempts += 1;
                action = c.connect_failed(&mut progress);
            },
            ConnectAction::Pause(ms) => {
                paused_ms += ms;
                action = c.resume_connect(&progress);
            },
            ConnectAction::GiveUp(e) => {
                assert_eq!(e.kind, ErrorKind::ClusterUnreachable);
                break;
            },
        }
    }
    assert_eq!(attempts, 3 * CIRCUIT_BREAKER_ROUNDS_BEFORE_BREAKING as usize);
    assert_eq!(
        paused_ms,
        CIRCUIT_BREAKER_ROUNDS_BEFORE_BREAKING as u64 * CIRCUIT_BREAKER_WAIT_BETWEEN_ROUNDS_MS
    );
    assert_eq!(progress.paused_ms, paused_ms);
}

#[test]
fn retry_harness_decisions() {
    assert_eq!(retry_action(1, true), RetryAction::Finish);
    assert_eq!(retry_action(1, false), RetryAction::Reconnect);
    assert_eq!(retry_action(5, false), RetryAction::GiveUp);
}
