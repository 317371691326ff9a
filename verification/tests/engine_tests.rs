use minipg::engine::{respond_query, step, ConnAction, ConnEvent, ConnState, StepResult};
use minipg::sqlast::{
    Expr, Ident, Query, Select, SelectItem, SetExpr, Statement, TableFactor, TableWithJoins,
};

fn sent(r: &StepResult) -> Vec<u8> {
    let mut out = Vec::new();
    for a in &r.actions {
        if let ConnAction::Send(v) = a {
            out.extend_from_slice(v);
        }
    }
    out
}

fn queries(r: &StepResult) -> Vec<String> {
    let mut out = Vec::new();
    for a in &r.actions {
        if let ConnAction::RunQuery(q) = a {
            out.push(q.clone());
        }
    }
    out
}

fn valid_statement() -> Statement {
    Statement::Query(Query {
        with: false,
        order_by: 0,
        limit: false,
        offset: false,
        fetch: false,
        body: SetExpr::Select(Select {
            distinct: false,
            top: false,
            lateral_views: 0,
            cluster_by: 0,
            distribute_by: 0,
            sort_by: 0,
            from: vec![TableWithJoins {
                relation: TableFactor::Table { name: vec![Ident { value: "t".to_string() }] },
                joins: 0,
            }],
            selection: false,
            projection: vec![SelectItem::UnnamedExpr(Expr::Identifier(Ident {
                value: "session_user".to_string(),
            }))],
        }),
    })
}

/// Split a response byte stream into (tag, payload) frames.
fn split_frames(mut bytes: &[u8]) -> Vec<(u8, Vec<u8>)> {
    let mut frames = Vec::new();
    while !bytes.is_empty() {
        let tag = bytes[0];
        let len = u32::from_be_bytes([bytes[1], bytes[2], bytes[3], bytes[4]]) as usize;
        let payload = bytes[5..1 + len].to_vec();
        frames.push((tag, payload));
        bytes = &bytes[1 + len..];
    }
    frames
}

#[test]
fn ssl_request_draws_exactly_one_byte_then_a_second_startup() {
    // major 1234, minor 5679
    let packet = vec![0x04, 0xd2, 0x16, 0x2f];
    let r = step(&ConnState::AwaitStartup, ConnEvent::Startup(packet));
    assert_eq!(r.state, ConnState::AwaitSecondStartup);
    assert_eq!(sent(&r), vec![b'N']);
    assert!(queries(&r).is_empty());

    // the re-read packet is accepted without a second look at the version
    let second = vec![0x00, 0x03, 0x00, 0x00, 0x00];
    let r2 = step(&r.state, ConnEvent::Startup(second));
    assert_eq!(r2.state, ConnState::Ready { error_latch: false });
    let frames = split_frames(&sent(&r2));
    let tags: Vec<u8> = frames.iter().map(|f| f.0).collect();
    assert_eq!(tags, vec![b'R', b'K', b'Z']);
}

#[test]
fn gss_request_draws_the_same_single_byte() {
    let packet = vec![0x04, 0xd2, 0x16, 0x30];
    let r = step(&ConnState::AwaitStartup, ConnEvent::Startup(packet));
    assert_eq!(r.state, ConnState::AwaitSecondStartup);
    assert_eq!(sent(&r), vec![b'N']);
}

#[test]
fn cancel_request_closes_silently() {
    let packet = vec![0x04, 0xd2, 0x16, 0x2e];
    let r = step(&ConnState::AwaitStartup, ConnEvent::Startup(packet));
    assert_eq!(r.state, ConnState::Closed);
    assert!(r.actions.is_empty());
}

#[test]
fn plain_startup_greets_and_echoes_the_client_encoding() {
    let mut packet = vec![0x00, 0x03, 0x00, 0x00];
    packet.extend_from_slice(b"client_encoding\0UTF8\0\0");
    let r = step(&ConnState::AwaitStartup, ConnEvent::Startup(packet));
    assert_eq!(r.state, ConnState::Ready { error_latch: false });
    let frames = split_frames(&sent(&r));
    assert_eq!(frames.len(), 4);
    assert_eq!(frames[0], (b'R', vec![0, 0, 0, 0]));
    assert_eq!(frames[1], (b'S', b"client_encoding\0UTF8\0".to_vec()));
    assert_eq!(frames[2], (b'K', b"abcdefgh".to_vec()));
    assert_eq!(frames[3], (b'Z', vec![b'I']));
}

#[test]
fn startup_with_invalid_utf8_parameters_is_fatal() {
    let mut packet = vec![0x00, 0x03, 0x00, 0x00];
    packet.extend_from_slice(&[0xff, 0xfe, 0x00, b'v', 0x00, 0x00]);
    let r = step(&ConnState::AwaitStartup, ConnEvent::Startup(packet));
    assert_eq!(r.state, ConnState::Closed);
    assert!(sent(&r).is_empty());
}

#[test]
fn named_prepared_statement_latches_with_one_error_response() {
    let ready = ConnState::Ready { error_latch: false };
    let mut payload = b"stmt\0".to_vec();
    payload.extend_from_slice(b"SELECT 1\0");
    payload.extend_from_slice(&[0, 0]);
    let r = step(&ready, ConnEvent::Message(b'P', payload));
    assert_eq!(r.state, ConnState::Ready { error_latch: true });
    let frames = split_frames(&sent(&r));
    assert_eq!(frames.len(), 1);
    assert_eq!(frames[0].0, b'E');
}

#[test]
fn latched_extended_messages_are_discarded_until_sync() {
    let latched = ConnState::Ready { error_latch: true };
    for tag in [b'P', b'B', b'D', b'E'] {
        let r = step(&latched, ConnEvent::Message(tag, b"x\0y\0\0\0\0\0".to_vec()));
        assert_eq!(r.state, latched);
        assert!(r.actions.is_empty());
    }
    let r = step(&latched, ConnEvent::Message(b'S', Vec::new()));
    assert_eq!(r.state, ConnState::Ready { error_latch: false });
    assert_eq!(sent(&r), vec![b'Z', 0, 0, 0, 5, b'I']);
}

#[test]
fn unnamed_parse_gets_parse_complete() {
    let ready = ConnState::Ready { error_latch: false };
    let mut payload = b"\0".to_vec();
    payload.extend_from_slice(b"SELECT 1\0");
    payload.extend_from_slice(&[0, 0]);
    let r = step(&ready, ConnEvent::Message(b'P', payload));
    assert_eq!(r.state, ready);
    assert_eq!(sent(&r), vec![b'1', 0, 0, 0, 4]);
}

#[test]
fn declared_parameter_types_latch_with_an_error() {
    let ready = ConnState::Ready { error_latch: false };
    let mut payload = b"\0".to_vec();
    payload.extend_from_slice(b"SELECT $1\0");
    payload.extend_from_slice(&[0, 1]);
    let r = step(&ready, ConnEvent::Message(b'P', payload));
    assert_eq!(r.state, ConnState::Ready { error_latch: true });
    let frames = split_frames(&sent(&r));
    assert_eq!(frames.len(), 1);
    assert_eq!(frames[0].0, b'E');
}

#[test]
fn bind_and_describe_reply_without_doing_anything() {
    let ready = ConnState::Ready { error_latch: false };
    let r = step(&ready, ConnEvent::Message(b'B', Vec::new()));
    assert_eq!(sent(&r), vec![b'2', 0, 0, 0, 4]);
    let r = step(&ready, ConnEvent::Message(b'D', Vec::new()));
    assert_eq!(sent(&r), vec![b't', 0, 0, 0, 6, 0, 0]);
}

#[test]
fn execute_reads_its_payload_and_stays_quiet() {
    let ready = ConnState::Ready { error_latch: false };
    let mut payload = b"\0".to_vec();
    payload.extend_from_slice(&[0, 0, 0, 10]);
    let r = step(&ready, ConnEvent::Message(b'E', payload));
    assert_eq!(r.state, ready);
    assert!(r.actions.is_empty());
}

#[test]
fn query_message_hands_out_the_text() {
    let ready = ConnState::Ready { error_latch: false };
    let r = step(&ready, ConnEvent::Message(b'Q', b"SELECT session_user FROM t\0".to_vec()));
    assert_eq!(r.state, ready);
    assert!(sent(&r).is_empty());
    assert_eq!(queries(&r), vec!["SELECT session_user FROM t".to_string()]);
}

#[test]
fn terminate_ends_the_connection() {
    let ready = ConnState::Ready { error_latch: false };
    let r = step(&ready, ConnEvent::Message(b'X', Vec::new()));
    assert_eq!(r.state, ConnState::Closed);
    assert!(r.actions.is_empty());
}

#[test]
fn unknown_tags_are_skipped() {
    let ready = ConnState::Ready { error_latch: true };
    let r = step(&ready, ConnEvent::Message(b'?', vec![1, 2, 3]));
    assert_eq!(r.state, ready);
    assert!(r.actions.is_empty());
}

#[test]
fn query_response_emits_one_data_row_per_store_row() {
    let stmts = Ok(vec![valid_statement()]);
    let rows = vec![Some(5), None, Some(-7)];
    let (bytes, fatal) = respond_query(&stmts, &rows);
    assert!(!fatal);
    let frames = split_frames(&bytes);
    let tags: Vec<u8> = frames.iter().map(|f| f.0).collect();
    assert_eq!(tags, vec![b'T', b'D', b'D', b'D', b'C', b'Z']);
    // row 0: both columns length-prefixed decimal text
    assert_eq!(frames[1].1, vec![0, 2, 0, 0, 0, 1, b'0', 0, 0, 0, 1, b'5']);
    // row 1: a null value is a column of length -1
    assert_eq!(frames[2].1, vec![0, 2, 0, 0, 0, 1, b'1', 0xff, 0xff, 0xff, 0xff]);
    // row 2: negative values render with a sign
    assert_eq!(frames[3].1, vec![0, 2, 0, 0, 0, 1, b'2', 0, 0, 0, 2, b'-', b'7']);
    assert_eq!(frames[4].1, b"SELECT\0".to_vec());
    assert_eq!(frames[5].1, vec![b'I']);
}

#[test]
fn rejected_statement_becomes_an_error_response() {
    let mut stmt = valid_statement();
    if let Statement::Query(q) = &mut stmt {
        q.order_by = 1;
    }
    let stmts = Ok(vec![stmt]);
    let rows = vec![Some(1)];
    let (bytes, fatal) = respond_query(&stmts, &rows);
    assert!(!fatal);
    let frames = split_frames(&bytes);
    let tags: Vec<u8> = frames.iter().map(|f| f.0).collect();
    assert_eq!(tags, vec![b'E', b'Z']);
    let payload = &frames[0].1;
    let text = String::from_utf8_lossy(payload);
    assert!(text.contains("42000"));
    assert!(text.contains("Not supported: ORDER BY"));
}

#[test]
fn each_statement_answers_in_order() {
    let mut bad = valid_statement();
    if let Statement::Query(q) = &mut bad {
        q.limit = true;
    }
    let stmts = Ok(vec![valid_statement(), bad]);
    let rows = vec![Some(1), Some(2)];
    let (bytes, _) = respond_query(&stmts, &rows);
    let frames = split_frames(&bytes);
    let tags: Vec<u8> = frames.iter().map(|f| f.0).collect();
    assert_eq!(tags, vec![b'T', b'D', b'D', b'C', b'E', b'Z']);
}

#[test]
fn syntax_errors_answer_with_sqlstate_42601() {
    let stmts: Result<Vec<Statement>, String> = Err("unexpected token".to_string());
    let rows = Vec::new();
    let (bytes, fatal) = respond_query(&stmts, &rows);
    assert!(!fatal);
    let frames = split_frames(&bytes);
    let tags: Vec<u8> = frames.iter().map(|f| f.0).collect();
    assert_eq!(tags, vec![b'E', b'Z']);
    let text = String::from_utf8_lossy(&frames[0].1);
    assert!(text.contains("42601"));
    assert!(text.contains("Syntax error"));
    assert!(text.contains("unexpected token"));
}

#[test]
fn empty_store_yields_no_data_rows() {
    let stmts = Ok(vec![valid_statement()]);
    let rows: Vec<Option<i64>> = Vec::new();
    let (bytes, fatal) = respond_query(&stmts, &rows);
    assert!(!fatal);
    let frames = split_frames(&bytes);
    let tags: Vec<u8> = frames.iter().map(|f| f.0).collect();
    assert_eq!(tags, vec![b'T', b'C', b'Z']);
}

#[test]
fn empty_statement_list_answers_ready_alone() {
    let stmts: Result<Vec<Statement>, String> = Ok(Vec::new());
    let (bytes, fatal) = respond_query(&stmts, &Vec::new());
    assert!(!fatal);
    assert_eq!(bytes, vec![b'Z', 0, 0, 0, 5, b'I']);
}

#[test]
fn second_startup_skips_the_version_special_cases() {
    // a second SSL request is not treated as a pseudo-request again; its
    // bytes are taken as an ordinary startup packet
    let packet = vec![0x04, 0xd2, 0x16, 0x2f];
    let r = step(&ConnState::AwaitSecondStartup, ConnEvent::Startup(packet));
    assert_eq!(r.state, ConnState::Ready { error_latch: false });
    let frames = split_frames(&sent(&r));
    let tags: Vec<u8> = frames.iter().map(|f| f.0).collect();
    assert_eq!(tags, vec![b'R', b'K', b'Z']);
}

#[test]
fn short_startup_packet_is_fatal() {
    let r = step(&ConnState::AwaitStartup, ConnEvent::Startup(vec![0, 3]));
    assert_eq!(r.state, ConnState::Closed);
    assert!(r.actions.is_empty());
}

#[test]
fn repeated_client_encoding_keeps_the_last_value() {
    let mut packet = vec![0x00, 0x03, 0x00, 0x00];
    packet.extend_from_slice(b"client_encoding\0LATIN1\0client_encoding\0UTF8\0\0");
    let r = step(&ConnState::AwaitStartup, ConnEvent::Startup(packet));
    let frames = split_frames(&sent(&r));
    assert_eq!(frames[1], (b'S', b"client_encoding\0UTF8\0".to_vec()));
}

#[test]
fn startup_events_in_ready_state_are_ignored() {
    let ready = ConnState::Ready { error_latch: false };
    let r = step(&ready, ConnEvent::Startup(vec![0, 3, 0, 0]));
    assert_eq!(r.state, ready);
    assert!(r.actions.is_empty());
}
