use postgres_intermediary::{
    decode_text, describe_reply, format_codes, parameter_values, write_handshake, ClientMessage, Column, CommandCompleteTag,
    DefaultServerParameters, Describe, FormatCode, MessageReader, ParameterValue, PasswordMessage,
    ProtocolError, ResultWriter, ServerMessage, StartupMessage,
};

fn frame(tag: u8, payload: &[u8]) -> Vec<u8> {
    let mut v = vec![tag];
    v.extend_from_slice(&((payload.len() + 4) as u32).to_be_bytes());
    v.extend_from_slice(payload);
    v
}

fn parse_one(bytes: Vec<u8>) -> Result<ClientMessage, ProtocolError> {
    let mut r = MessageReader::new(bytes);
    ClientMessage::from_stream(&mut r)
}

fn cols(n: usize) -> Vec<Column> {
    (0..n).map(|i| Column { name: format!("c{}", i), column_type: 23 }).collect()
}

#[test]
fn no_result_format_means_all_text() {
    let f = format_codes(&cols(3), &vec![]).unwrap();
    assert_eq!(f, vec![FormatCode::Text; 3]);
}

#[test]
fn one_result_format_applies_to_all() {
    let f = format_codes(&cols(3), &vec![FormatCode::Binary]).unwrap();
    assert_eq!(f, vec![FormatCode::Binary; 3]);
}

#[test]
fn per_column_result_formats_pair_in_order() {
    let given = vec![FormatCode::Binary, FormatCode::Text, FormatCode::Binary];
    assert_eq!(format_codes(&cols(3), &given).unwrap(), given);
}

#[test]
fn mismatched_result_formats_are_rejected() {
    let given = vec![FormatCode::Binary, FormatCode::Text];
    assert_eq!(format_codes(&cols(3), &given), Err(ProtocolError::FormatCountMismatch));
    let w = ResultWriter::new(given);
    assert!(matches!(w.start_writing(&cols(3)), Err(ProtocolError::FormatCountMismatch)));
}

#[test]
fn parameters_follow_negotiated_formats() {
    let values = vec![Some(b"ab".to_vec()), None, Some(vec![0, 1])];
    let v = parameter_values(&vec![], &values).unwrap();
    assert!(matches!(&v[0], ParameterValue::Text(s) if s == "ab"));
    assert!(matches!(&v[1], ParameterValue::Null));
    assert!(matches!(&v[2], ParameterValue::Text(s) if s == "\u{0}\u{1}"));
    let v = parameter_values(&vec![FormatCode::Binary], &values).unwrap();
    assert!(matches!(&v[0], ParameterValue::Binary(b) if b == b"ab"));
    assert!(matches!(&v[2], ParameterValue::Binary(b) if b == &vec![0u8, 1]));
    let per = vec![FormatCode::Binary, FormatCode::Text, FormatCode::Text];
    let v = parameter_values(&per, &values).unwrap();
    assert!(matches!(&v[0], ParameterValue::Binary(_)));
    assert!(matches!(&v[2], ParameterValue::Text(_)));
    let bad = vec![FormatCode::Binary, FormatCode::Text];
    assert!(matches!(parameter_values(&bad, &values), Err(ProtocolError::FormatCountMismatch)));
}

#[test]
fn bind_with_null_parameter_parses() {
    let mut b = b"p\0s\0".to_vec();
    b.extend_from_slice(&[0, 1, 0, 1]);
    b.extend_from_slice(&[0, 2, 0xff, 0xff, 0xff, 0xff, 0, 0, 0, 1, 7]);
    b.extend_from_slice(&[0, 0]);
    match parse_one(frame(b'B', &b)).unwrap() {
        ClientMessage::Bind { portal, name, parameter_format_codes, parameters, result_format_codes } => {
            assert_eq!(portal, "p");
            assert_eq!(name, "s");
            assert_eq!(parameter_format_codes, vec![FormatCode::Binary]);
            assert_eq!(parameters, vec![None, Some(vec![7])]);
            assert!(result_format_codes.is_empty());
        }
        other => panic!("unexpected {:?}", other),
    }
}

#[test]
fn parse_message_keeps_type_oids() {
    let mut b = b"s\0SELECT $1\0".to_vec();
    b.extend_from_slice(&[0, 2, 0, 0, 0, 23, 0, 0, 0, 25]);
    match parse_one(frame(b'P', &b)).unwrap() {
        ClientMessage::Parse { name, query, parameters_types } => {
            assert_eq!(name, "s");
            assert_eq!(query, "SELECT $1");
            assert_eq!(parameters_types, vec![23, 25]);
        }
        other => panic!("unexpected {:?}", other),
    }
}

#[test]
fn unknown_type_oid_is_rejected() {
    let mut b = b"s\0q\0".to_vec();
    b.extend_from_slice(&[0, 1, 0, 0x0f, 0x42, 0x3f]);
    assert_eq!(parse_one(frame(b'P', &b)).unwrap_err(), ProtocolError::UnknownType(999_999));
}

#[test]
fn invalid_utf8_is_decoded_lossily() {
    match parse_one(frame(b'Q', &[b'a', 0xff, 0])).unwrap() {
        ClientMessage::Query { query } => assert_eq!(query, "a\u{FFFD}"),
        other => panic!("unexpected {:?}", other),
    }
}

#[test]
fn execute_and_describe_parse() {
    match parse_one(frame(b'E', b"p1\0\0\0\0\x05")).unwrap() {
        ClientMessage::Execute { portal, max_rows } => {
            assert_eq!(portal, "p1");
            assert_eq!(max_rows, 5);
        }
        other => panic!("unexpected {:?}", other),
    }
    match parse_one(frame(b'D', b"Sst\0")).unwrap() {
        ClientMessage::Describe(Describe::Statement { name }) => assert_eq!(name, "st"),
        other => panic!("unexpected {:?}", other),
    }
    assert!(matches!(parse_one(frame(b'S', b"")).unwrap(), ClientMessage::Sync));
}

#[test]
fn each_parse_error_has_its_input() {
    assert_eq!(parse_one(vec![]).unwrap_err(), ProtocolError::UnexpectedEnd);
    assert_eq!(parse_one(frame(b'?', b"")).unwrap_err(), ProtocolError::UnknownTag(b'?'));
    assert_eq!(parse_one(vec![b'S', 0, 0, 0, 3]).unwrap_err(), ProtocolError::InvalidLength(3));
    assert_eq!(parse_one(vec![b'Q', 0, 0, 0, 9, b'a']).unwrap_err(), ProtocolError::UnexpectedEnd);
    assert_eq!(parse_one(frame(b'Q', b"abc")).unwrap_err(), ProtocolError::UnterminatedString);
    assert_eq!(parse_one(frame(b'D', b"Xn\0")).unwrap_err(), ProtocolError::InvalidDescribeKind(b'X'));
    let mut b = b"\0\0".to_vec();
    b.extend_from_slice(&[0, 1, 0, 2]);
    assert_eq!(parse_one(frame(b'B', &b)).unwrap_err(), ProtocolError::InvalidFormatCode(2));
    let mut b = b"\0\0".to_vec();
    b.extend_from_slice(&[0, 0, 0, 1, 0x80, 0, 0, 0]);
    assert_eq!(parse_one(frame(b'B', &b)).unwrap_err(), ProtocolError::InvalidLength(0x8000_0000));
    let mut r = MessageReader::new(frame(b'Q', b"x\0"));
    assert_eq!(PasswordMessage::from_stream(&mut r).unwrap_err(), ProtocolError::UnexpectedTag(b'Q'));
}

#[test]
fn password_and_consumed_length() {
    let mut bytes = frame(b'p', b"hunter2\0");
    bytes.extend(frame(b'S', b""));
    let mut r = MessageReader::new(bytes);
    assert_eq!(PasswordMessage::from_stream(&mut r).unwrap().password, "hunter2");
    assert_eq!(r.position(), 13);
    assert!(matches!(ClientMessage::from_stream(&mut r).unwrap(), ClientMessage::Sync));
}

#[test]
fn startup_sorts_known_keys_and_keeps_others() {
    let mut body = 196608u32.to_be_bytes().to_vec();
    for s in ["user", "a", "database", "db", "application_name", "psql", "options", "-c x", "user", "b"] {
        body.extend_from_slice(s.as_bytes());
        body.push(0);
    }
    body.push(0);
    let mut bytes = ((body.len() + 4) as u32).to_be_bytes().to_vec();
    bytes.extend(body);
    let mut r = MessageReader::new(bytes);
    let m = StartupMessage::from_stream(&mut r).unwrap();
    assert_eq!(m.protocol_version, 196608);
    assert_eq!(m.user, "b");
    assert_eq!(m.database.as_deref(), Some("db"));
    assert_eq!(m.options.as_deref(), Some("-c x"));
    assert_eq!(m.replication, None);
    assert_eq!(m.parameters, vec![("application_name".to_string(), "psql".to_string())]);
    assert_eq!(
        StartupMessage::from_stream(&mut MessageReader::new(vec![0, 0, 0, 7, 0, 0, 0, 0])).unwrap_err(),
        ProtocolError::InvalidLength(7)
    );
}

fn written(m: ServerMessage) -> Vec<u8> {
    let mut v = Vec::new();
    m.write(&mut v);
    v
}

#[test]
fn server_lengths_count_everything_after_the_tag() {
    let messages = vec![
        ServerMessage::AuthenticationOk,
        ServerMessage::AuthenticationCleartextPassword,
        ServerMessage::BackendKeyData { process_id: 7, secret_key: -2 },
        ServerMessage::BindComplete,
        ServerMessage::CommandComplete(CommandCompleteTag::Select { rows: 40 }),
        ServerMessage::DataRow { fields: vec![None, Some(b"xyz".to_vec())] },
        ServerMessage::ErrorResponse { code: b'S', message: "boom".to_string() },
        ServerMessage::EmptyQueryResponse,
        ServerMessage::NoData,
        ServerMessage::ParameterStatus { name: "TimeZone", value: "UTC" },
        ServerMessage::ParseComplete,
        ServerMessage::ReadyForQuery { transaction_status: b'I' },
        ServerMessage::RowDescription { fields: vec![("n".to_string(), 25, FormatCode::Binary)] },
    ];
    for m in messages {
        let b = written(m);
        let len = u32::from_be_bytes([b[1], b[2], b[3], b[4]]) as usize;
        assert_eq!(len, b.len() - 1);
    }
}

#[test]
fn server_messages_have_exact_bytes() {
    assert_eq!(written(ServerMessage::AuthenticationOk), vec![b'R', 0, 0, 0, 8, 0, 0, 0, 0]);
    assert_eq!(
        written(ServerMessage::BackendKeyData { process_id: 1, secret_key: -1 }),
        vec![b'K', 0, 0, 0, 12, 0, 0, 0, 1, 0xff, 0xff, 0xff, 0xff]
    );
    assert_eq!(
        written(ServerMessage::CommandComplete(CommandCompleteTag::Select { rows: 123 })),
        frame(b'C', b"SELECT 123\0")
    );
    assert_eq!(
        written(ServerMessage::CommandComplete(CommandCompleteTag::Select { rows: 0 })),
        frame(b'C', b"SELECT 0\0")
    );
    assert_eq!(
        written(ServerMessage::CommandComplete(CommandCompleteTag::Select { rows: u32::MAX })),
        frame(b'C', b"SELECT 4294967295\0")
    );
    assert_eq!(
        written(ServerMessage::ErrorResponse { code: b'S', message: "no".to_string() }),
        frame(b'E', b"Sno\0\0")
    );
}

#[test]
fn row_writer_counts_rows_and_drops_extra_fields() {
    let w = ResultWriter::new(vec![]);
    let mut rows = w.start_writing(&cols(1)).unwrap();
    assert_eq!(rows.format_codes(), &vec![FormatCode::Text]);
    assert_eq!(rows.column_types(), &vec![23]);
    rows.write_row(vec![Some(b"1".to_vec()), Some(b"extra".to_vec())]).unwrap();
    rows.write_row(vec![None]).unwrap();
    let out = rows.finish().into_bytes();
    let mut expected = frame(b'D', &[0, 1, 0, 0, 0, 1, b'1']);
    expected.extend(frame(b'D', &[0, 1, 0xff, 0xff, 0xff, 0xff]));
    expected.extend(frame(b'C', b"SELECT 2\0"));
    assert_eq!(out, expected);
}

fn params(zone: &str) -> DefaultServerParameters {
    let s = |v: &str| v.to_string();
    DefaultServerParameters {
        server_version: s("14"),
        server_encoding: s("UTF8"),
        client_encoding: s("UTF8"),
        application_name: s(""),
        default_transaction_read_only: s("off"),
        in_hot_standby: s("off"),
        is_superuser: s("on"),
        session_authorization: s("u"),
        date_style: s("ISO"),
        interval_style: s("postgres"),
        time_zone: s(zone),
        integer_datetimes: s("on"),
        standard_conforming_strings: s("on"),
    }
}

#[test]
fn handshake_depends_on_parameters_alone() {
    let mut a = Vec::new();
    let mut b = Vec::new();
    write_handshake(&params("UTC"), &mut a).unwrap();
    write_handshake(&params("UTC"), &mut b).unwrap();
    assert_eq!(a, b);
    let mut c = Vec::new();
    write_handshake(&params("CET"), &mut c).unwrap();
    assert_ne!(a, c);
    assert_eq!(&a[..9], &[b'R', 0, 0, 0, 8, 0, 0, 0, 0]);
    assert_eq!(&a[a.len() - 6..], &[b'Z', 0, 0, 0, 5, b'I']);
    assert_eq!(a.iter().filter(|&&x| x == b'S').count() >= 12, true);
}

#[test]
fn ssl_and_cancel_requests_are_refused() {
    let mut ssl = 8u32.to_be_bytes().to_vec();
    ssl.extend_from_slice(&80877103u32.to_be_bytes());
    assert_eq!(
        StartupMessage::from_stream(&mut MessageReader::new(ssl)).unwrap_err(),
        ProtocolError::UnsupportedRequest(80877103)
    );
    let mut cancel = 16u32.to_be_bytes().to_vec();
    cancel.extend_from_slice(&80877102u32.to_be_bytes());
    cancel.extend_from_slice(&[0; 8]);
    assert_eq!(
        StartupMessage::from_stream(&mut MessageReader::new(cancel)).unwrap_err(),
        ProtocolError::UnsupportedRequest(80877102)
    );
}

#[test]
fn startup_keeps_the_last_value_of_a_repeated_key() {
    let mut body = 196608u32.to_be_bytes().to_vec();
    for s in ["a", "1", "b", "2", "a", "3"] {
        body.extend_from_slice(s.as_bytes());
        body.push(0);
    }
    body.push(0);
    let mut bytes = ((body.len() + 4) as u32).to_be_bytes().to_vec();
    bytes.extend(body);
    let m = StartupMessage::from_stream(&mut MessageReader::new(bytes)).unwrap();
    assert_eq!(
        m.parameters,
        vec![("a".to_string(), "3".to_string()), ("b".to_string(), "2".to_string())]
    );
}

#[test]
fn describe_reply_follows_the_handler_answer() {
    let mut out = vec![9u8];
    assert!(matches!(describe_reply(&vec![], None, &mut out), Ok(None)));
    assert_eq!(out, vec![9, b'n', 0, 0, 0, 4]);
    let mut out = Vec::new();
    let two = vec![FormatCode::Text, FormatCode::Binary];
    assert!(matches!(
        describe_reply(&two, Some(cols(3)), &mut out),
        Err(ProtocolError::FormatCountMismatch)
    ));
    assert!(out.is_empty());
    let mut out = Vec::new();
    let stored = describe_reply(&vec![FormatCode::Binary], Some(cols(1)), &mut out).unwrap();
    assert_eq!(stored.unwrap().len(), 1);
    let mut body = vec![0, 1];
    body.extend_from_slice(b"c0\0");
    body.extend_from_slice(&[0, 0, 0, 0, 0, 0, 0, 0, 0, 23, 0, 0, 0, 0, 0, 0, 0, 1]);
    assert_eq!(out, frame(b'T', &body));
}

#[test]
fn decode_text_replaces_only_ill_formed_bytes() {
    assert_eq!(decode_text("héllo".as_bytes()), "héllo");
    assert_eq!(decode_text(&[b'o', b'k', 0xc3]), "ok\u{FFFD}");
}
