use postgres_intermediary::{
    ClientMessage, Column, CompletedResult, DefaultServerParameters, Flow, MessageReader,
    HandlerError, ParameterValue, PasswordMessage, PostgresShim, PostgressIntermediary, ResultWriter,
    SessionError, StartupMessage,
};

fn frame(tag: u8, payload: &[u8]) -> Vec<u8> {
    let mut v = vec![tag];
    v.extend_from_slice(&((payload.len() + 4) as u32).to_be_bytes());
    v.extend_from_slice(payload);
    v
}

fn cstr(s: &str) -> Vec<u8> {
    let mut v = s.as_bytes().to_vec();
    v.push(0);
    v
}

fn startup(user: &str) -> Vec<u8> {
    let mut body = Vec::new();
    body.extend_from_slice(&196608u32.to_be_bytes());
    body.extend(cstr("user"));
    body.extend(cstr(user));
    body.push(0);
    let mut v = ((body.len() + 4) as u32).to_be_bytes().to_vec();
    v.extend(body);
    v
}

fn password(p: &str) -> Vec<u8> {
    frame(b'p', &cstr(p))
}

fn parse_msg(name: &str, sql: &str, oids: &[u32]) -> Vec<u8> {
    let mut b = cstr(name);
    b.extend(cstr(sql));
    b.extend_from_slice(&(oids.len() as u16).to_be_bytes());
    for o in oids {
        b.extend_from_slice(&o.to_be_bytes());
    }
    frame(b'P', &b)
}

fn bind_msg(portal: &str, stmt: &str, fmts: &[u16], params: &[Option<&[u8]>], rfmts: &[u16]) -> Vec<u8> {
    let mut b = cstr(portal);
    b.extend(cstr(stmt));
    b.extend_from_slice(&(fmts.len() as u16).to_be_bytes());
    for f in fmts {
        b.extend_from_slice(&f.to_be_bytes());
    }
    b.extend_from_slice(&(params.len() as u16).to_be_bytes());
    for p in params {
        match p {
            None => b.extend_from_slice(&(-1i32).to_be_bytes()),
            Some(d) => {
                b.extend_from_slice(&(d.len() as u32).to_be_bytes());
                b.extend_from_slice(d);
            }
        }
    }
    b.extend_from_slice(&(rfmts.len() as u16).to_be_bytes());
    for f in rfmts {
        b.extend_from_slice(&f.to_be_bytes());
    }
    frame(b'B', &b)
}

fn describe_portal(name: &str) -> Vec<u8> {
    let mut b = vec![b'P'];
    b.extend(cstr(name));
    frame(b'D', &b)
}

fn execute_msg(portal: &str, max_rows: u32) -> Vec<u8> {
    let mut b = cstr(portal);
    b.extend_from_slice(&max_rows.to_be_bytes());
    frame(b'E', &b)
}

fn params() -> DefaultServerParameters {
    DefaultServerParameters {
        server_version: "14".to_string(),
        server_encoding: "UTF8".to_string(),
        client_encoding: "UTF8".to_string(),
        application_name: "app".to_string(),
        default_transaction_read_only: "off".to_string(),
        in_hot_standby: "off".to_string(),
        is_superuser: "on".to_string(),
        session_authorization: "u".to_string(),
        date_style: "ISO, MDY".to_string(),
        interval_style: "postgres".to_string(),
        time_zone: "UTC".to_string(),
        integer_datetimes: "on".to_string(),
        standard_conforming_strings: "on".to_string(),
    }
}

fn status(name: &str, value: &str) -> Vec<u8> {
    let mut b = cstr(name);
    b.extend(cstr(value));
    frame(b'S', &b)
}

fn handshake_tail() -> Vec<u8> {
    let p = params();
    let mut v = frame(b'R', &[0, 0, 0, 0]);
    for (n, val) in [
        ("server_version", &p.server_version),
        ("server_encoding", &p.server_encoding),
        ("client_encoding", &p.client_encoding),
        ("application_name", &p.application_name),
        ("default_transaction_read_only", &p.default_transaction_read_only),
        ("in_hot_standby", &p.in_hot_standby),
        ("is_superuser", &p.is_superuser),
        ("DateStyle", &p.date_style),
        ("IntervalStyle", &p.interval_style),
        ("TimeZone", &p.time_zone),
        ("integer_datetimes", &p.integer_datetimes),
        ("standard_conforming_strings", &p.standard_conforming_strings),
    ] {
        v.extend(status(n, val));
    }
    v.extend(frame(b'K', &[0; 8]));
    v.extend(frame(b'Z', b"I"));
    v
}

/// What the test handler does on Execute.
#[derive(Clone, Copy)]
enum Plan {
    /// One row holding the first parameter, or `1` in text.
    Row,
    Empty,
    Null,
}

struct TestShim {
    plan: Plan,
    columns: Vec<Column>,
    bound: Vec<Vec<ParameterValue>>,
}

struct Data {
    params: Vec<ParameterValue>,
}

impl PostgresShim<Data> for TestShim {
    fn prepare(&mut self, _: String, _: String, _: Vec<u32>) -> Result<(), HandlerError> {
        Ok(())
    }

    fn bind(&mut self, _: String, parameters: Vec<ParameterValue>) -> Result<Data, HandlerError> {
        let copy = parameters
            .iter()
            .map(|p| match p {
                ParameterValue::Text(s) => ParameterValue::Text(s.clone()),
                ParameterValue::Binary(b) => ParameterValue::Binary(b.clone()),
                ParameterValue::Null => ParameterValue::Null,
            })
            .collect();
        self.bound.push(copy);
        Ok(Data { params: parameters })
    }

    fn describe(&mut self, _: &Data) -> Result<Option<Vec<Column>>, HandlerError> {
        Ok(Some(self.columns.clone()))
    }

    fn execute(
        &mut self,
        portal: Data,
        _: u32,
        columns: Option<Vec<Column>>,
        result_writer: ResultWriter,
    ) -> Result<CompletedResult, HandlerError> {
        match self.plan {
            Plan::Empty => Ok(result_writer.empty_result()),
            Plan::Row | Plan::Null => {
                let columns = columns.unwrap_or_else(|| self.columns.clone());
                let mut w = result_writer
                    .start_writing(&columns)
                    .map_err(|e| HandlerError { message: format!("{:?}", e) })?;
                let field = match (self.plan, portal.params.first()) {
                    (Plan::Null, _) => None,
                    (_, Some(ParameterValue::Binary(b))) => Some(b.clone()),
                    (_, Some(ParameterValue::Text(t))) => Some(t.as_bytes().to_vec()),
                    _ => Some(b"1".to_vec()),
                };
                w.write_row(vec![field]).map_err(|e| HandlerError { message: format!("{:?}", e) })?;
                Ok(w.finish())
            }
        }
    }

    fn default_parameters(&mut self) -> DefaultServerParameters {
        params()
    }
}

fn shim(plan: Plan, column_type: u32) -> TestShim {
    TestShim {
        plan,
        columns: vec![Column { name: "?column?".to_string(), column_type }],
        bound: Vec::new(),
    }
}

/// Runs a whole connection over `input`; returns what the server wrote, the
/// session's end and the handler.
fn run(input: Vec<u8>, shim: TestShim) -> (Vec<u8>, Result<(), SessionError>, TestShim) {
    let mut reader = MessageReader::new(input);
    let mut out = Vec::new();
    StartupMessage::from_stream(&mut reader).unwrap();
    let mut session = PostgressIntermediary::new(shim);
    session.request_password(&mut out);
    PasswordMessage::from_stream(&mut reader).unwrap();
    session.complete_handshake(&mut out).unwrap();
    let end = loop {
        let message = match ClientMessage::from_stream(&mut reader) {
            Ok(m) => m,
            Err(e) => break Err(SessionError::Protocol(e)),
        };
        match session.handle_message(message, &mut out) {
            Ok(Flow::Continue) => {}
            Ok(Flow::Terminate) => break Ok(()),
            Err(e) => break Err(e),
        }
    };
    (out, end, session.into_shim())
}

fn row_description(name: &str, oid: u32, format: u16) -> Vec<u8> {
    let mut b = 1u16.to_be_bytes().to_vec();
    b.extend(cstr(name));
    b.extend_from_slice(&0u32.to_be_bytes());
    b.extend_from_slice(&0u16.to_be_bytes());
    b.extend_from_slice(&oid.to_be_bytes());
    b.extend_from_slice(&0u16.to_be_bytes());
    b.extend_from_slice(&0u32.to_be_bytes());
    b.extend_from_slice(&format.to_be_bytes());
    frame(b'T', &b)
}

fn data_row(field: Option<&[u8]>) -> Vec<u8> {
    let mut b = 1u16.to_be_bytes().to_vec();
    match field {
        None => b.extend_from_slice(&[0xff, 0xff, 0xff, 0xff]),
        Some(d) => {
            b.extend_from_slice(&(d.len() as u32).to_be_bytes());
            b.extend_from_slice(d);
        }
    }
    frame(b'D', &b)
}

fn greeting() -> Vec<u8> {
    let mut v = startup("u");
    v.extend(password("secret"));
    v
}

fn expected_greeting() -> Vec<u8> {
    let mut v = frame(b'R', &[0, 0, 0, 3]);
    v.extend(handshake_tail());
    v
}

#[test]
fn it_works() {
    let result = 2 + 2;
    assert_eq!(result, 4);
}

#[test]
fn minimal_select_one() {
    let mut input = greeting();
    input.extend(parse_msg("", "SELECT 1", &[]));
    input.extend(bind_msg("", "", &[], &[], &[]));
    input.extend(describe_portal(""));
    input.extend(execute_msg("", 0));
    input.extend(frame(b'S', &[]));
    input.extend(frame(b'X', &[]));
    let (out, end, _) = run(input, shim(Plan::Row, 23));
    assert!(end.is_ok());
    let mut expected = expected_greeting();
    expected.extend(frame(b'1', &[]));
    expected.extend(frame(b'2', &[]));
    expected.extend(row_description("?column?", 23, 0));
    expected.extend(data_row(Some(b"1")));
    expected.extend(frame(b'C', b"SELECT 1\0"));
    expected.extend(frame(b'Z', b"I"));
    assert_eq!(out, expected);
}

#[test]
fn execute_unbound_portal_reports_error() {
    let mut input = greeting();
    input.extend(execute_msg("p1", 0));
    input.extend(frame(b'S', &[]));
    input.extend(frame(b'X', &[]));
    let (out, end, _) = run(input, shim(Plan::Row, 23));
    assert!(end.is_ok());
    let mut expected = expected_greeting();
    let mut err = vec![b'S'];
    err.extend(cstr("Portal not found"));
    err.push(0);
    expected.extend(frame(b'E', &err));
    expected.extend(frame(b'Z', b"I"));
    assert_eq!(out, expected);
}

#[test]
fn binary_parameter_round_trip() {
    let mut input = greeting();
    input.extend(parse_msg("s", "SELECT $1::int4", &[23]));
    input.extend(bind_msg("", "s", &[1], &[Some(&[0, 0, 0, 42])], &[1]));
    input.extend(describe_portal(""));
    input.extend(execute_msg("", 0));
    input.extend(frame(b'X', &[]));
    let (out, end, shim) = run(input, shim(Plan::Row, 23));
    assert!(end.is_ok());
    assert_eq!(shim.bound.len(), 1);
    assert!(matches!(&shim.bound[0][..], [ParameterValue::Binary(b)] if b == &vec![0u8, 0, 0, 42]));
    let mut expected = expected_greeting();
    expected.extend(frame(b'1', &[]));
    expected.extend(frame(b'2', &[]));
    expected.extend(row_description("?column?", 23, 1));
    expected.extend(data_row(Some(&[0, 0, 0, 42])));
    expected.extend(frame(b'C', b"SELECT 1\0"));
    assert_eq!(out, expected);
}

#[test]
fn empty_query_writes_only_empty_response() {
    let mut input = greeting();
    input.extend(bind_msg("", "", &[], &[], &[]));
    input.extend(execute_msg("", 0));
    input.extend(frame(b'X', &[]));
    let (out, end, _) = run(input, shim(Plan::Empty, 23));
    assert!(end.is_ok());
    let mut expected = expected_greeting();
    expected.extend(frame(b'2', &[]));
    expected.extend(vec![b'I', 0, 0, 0, 4]);
    assert_eq!(out, expected);
}

#[test]
fn null_row_has_minus_one_length() {
    let mut input = greeting();
    input.extend(bind_msg("", "", &[], &[], &[]));
    input.extend(execute_msg("", 0));
    input.extend(frame(b'X', &[]));
    let (out, end, _) = run(input, shim(Plan::Null, 23));
    assert!(end.is_ok());
    let mut expected = expected_greeting();
    expected.extend(frame(b'2', &[]));
    expected.extend(vec![b'D', 0, 0, 0, 10, 0, 1, 0xff, 0xff, 0xff, 0xff]);
    expected.extend(frame(b'C', b"SELECT 1\0"));
    assert_eq!(out, expected);
}

#[test]
fn terminate_ends_cleanly_without_writes() {
    let mut input = greeting();
    input.extend(vec![b'X', 0, 0, 0, 4]);
    let (out, end, _) = run(input, shim(Plan::Row, 23));
    assert!(end.is_ok());
    assert_eq!(out, expected_greeting());
}

fn not_found() -> Vec<u8> {
    let mut err = vec![b'S'];
    err.extend(cstr("Portal not found"));
    err.push(0);
    frame(b'E', &err)
}

#[test]
fn executed_portal_is_gone() {
    let mut input = greeting();
    input.extend(bind_msg("p", "", &[], &[], &[]));
    input.extend(execute_msg("p", 0));
    input.extend(execute_msg("p", 0));
    input.extend(frame(b'X', &[]));
    let (out, end, _) = run(input, shim(Plan::Empty, 23));
    assert!(end.is_ok());
    let mut expected = expected_greeting();
    expected.extend(frame(b'2', &[]));
    expected.extend(vec![b'I', 0, 0, 0, 4]);
    expected.extend(not_found());
    assert_eq!(out, expected);
}

#[test]
fn describe_of_unknown_portal_reports_error() {
    let mut input = greeting();
    input.extend(describe_portal("nope"));
    input.extend(frame(b'X', &[]));
    let (out, end, _) = run(input, shim(Plan::Row, 23));
    assert!(end.is_ok());
    let mut expected = expected_greeting();
    expected.extend(not_found());
    assert_eq!(out, expected);
}

#[test]
fn statement_describe_ends_the_session() {
    let mut input = greeting();
    let mut b = vec![b'S'];
    b.extend(cstr("s"));
    input.extend(frame(b'D', &b));
    let (out, end, _) = run(input, shim(Plan::Row, 23));
    assert!(matches!(
        end,
        Err(SessionError::Protocol(postgres_intermediary::ProtocolError::StatementDescribeUnsupported))
    ));
    assert_eq!(out, expected_greeting());
}

#[test]
fn null_parameter_reaches_handler_as_null() {
    let mut input = greeting();
    input.extend(bind_msg("", "", &[], &[None, Some(b"x")], &[]));
    input.extend(frame(b'X', &[]));
    let (_, end, shim) = run(input, shim(Plan::Row, 23));
    assert!(end.is_ok());
    assert!(matches!(
        &shim.bound[0][..],
        [ParameterValue::Null, ParameterValue::Text(t)] if t == "x"
    ));
}

#[test]
fn mismatched_parameter_formats_end_the_session() {
    let mut input = greeting();
    input.extend(bind_msg("", "", &[0, 1], &[Some(b"a"), Some(b"b"), Some(b"c")], &[]));
    let (_, end, _) = run(input, shim(Plan::Row, 23));
    assert!(matches!(
        end,
        Err(SessionError::Protocol(postgres_intermediary::ProtocolError::FormatCountMismatch))
    ));
}

struct RefusingShim;

impl PostgresShim<()> for RefusingShim {
    fn prepare(&mut self, _: String, _: String, _: Vec<u32>) -> Result<(), HandlerError> {
        Err(HandlerError { message: "no".to_string() })
    }

    fn bind(&mut self, _: String, _: Vec<ParameterValue>) -> Result<(), HandlerError> {
        Err(HandlerError { message: "no".to_string() })
    }

    fn describe(&mut self, _: &()) -> Result<Option<Vec<Column>>, HandlerError> {
        Ok(None)
    }

    fn execute(
        &mut self,
        _: (),
        _: u32,
        _: Option<Vec<Column>>,
        _: ResultWriter,
    ) -> Result<CompletedResult, HandlerError> {
        Err(HandlerError { message: "no".to_string() })
    }

    fn default_parameters(&mut self) -> DefaultServerParameters {
        params()
    }
}

#[test]
fn handler_failure_writes_no_reply() {
    let mut session = PostgressIntermediary::new(RefusingShim);
    let mut out = vec![1u8];
    let parse = ClientMessage::Parse { name: String::new(), query: "SELECT 1".to_string(), parameters_types: vec![] };
    assert!(matches!(session.handle_message(parse, &mut out), Err(SessionError::Handler(_))));
    let bind = ClientMessage::Bind {
        portal: String::new(),
        name: String::new(),
        parameter_format_codes: vec![],
        parameters: vec![None],
        result_format_codes: vec![],
    };
    assert!(matches!(session.handle_message(bind, &mut out), Err(SessionError::Handler(_))));
    assert_eq!(out, vec![1u8]);
}
