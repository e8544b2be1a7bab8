use vstd::prelude::*;
use vstd::slice::slice_to_vec;

use crate::wire::{
    find_nul, lemma_nul_from_range, read_u16_at, read_u32_at, spec_read_cstr, spec_read_u16,
    spec_read_u32, text_from_bytes, u32_at, utf8_lossy, ProtocolError, ReadPostgresExt,
};

verus! {

pub const TAG_QUERY: u8 = 81;
pub const TAG_PARSE: u8 = 80;
pub const TAG_BIND: u8 = 66;
pub const TAG_EXECUTE: u8 = 69;
pub const TAG_DESCRIBE: u8 = 68;
pub const TAG_SYNC: u8 = 83;
pub const TAG_TERMINATE: u8 = 88;
pub const TAG_PASSWORD: u8 = 112;
pub const DESCRIBE_STATEMENT: u8 = 83;
pub const DESCRIBE_PORTAL: u8 = 80;
/// The code an SSL request carries in place of a protocol version.
pub const SSL_REQUEST_CODE: u32 = 80877103;
/// The code a cancel request carries in place of a protocol version.
pub const CANCEL_REQUEST_CODE: u32 = 80877102;
/// The length field of a NULL parameter value (-1 as a signed number).
pub const NULL_LENGTH: u32 = 0xffff_ffff;

/// The wire format of one value: text (code 0) or binary (code 1).
#[derive(Debug, Clone, Copy, PartialEq, Eq, Structural)]
pub enum FormatCode {
    Text,
    Binary,
}

/// The format that a wire code stands for.
pub open spec fn format_of_code(c: u16) -> Option<FormatCode> {
    if c == 0 {
        Some(FormatCode::Text)
    } else if c == 1 {
        Some(FormatCode::Binary)
    } else {
        None
    }
}

/// The wire code of a format.
pub open spec fn code_of_format(f: FormatCode) -> u16 {
    match f {
        FormatCode::Text => 0,
        FormatCode::Binary => 1,
    }
}

/// What a Describe message asks about.
#[derive(Debug)]
pub enum Describe {
    Statement { name: String },
    Portal { name: String },
}

pub enum DescribeView {
    Statement(Seq<char>),
    Portal(Seq<char>),
}

impl View for Describe {
    type V = DescribeView;

    open spec fn view(&self) -> DescribeView {
        match self {
            Describe::Statement { name } => DescribeView::Statement(name@),
            Describe::Portal { name } => DescribeView::Portal(name@),
        }
    }
}

/// The first message of a connection.
#[derive(Debug)]
pub struct StartupMessage {
    pub protocol_version: u32,
    pub user: String,
    pub database: Option<String>,
    pub options: Option<String>,
    pub replication: Option<String>,
    /// The other parameters, one pair per key, in the order each key first
    /// came; a later value of a key replaces the earlier one.
    pub parameters: Vec<(String, String)>,
}

pub struct StartupView {
    pub protocol_version: u32,
    pub user: Seq<char>,
    pub database: Option<Seq<char>>,
    pub options: Option<Seq<char>>,
    pub replication: Option<Seq<char>>,
    pub parameters: Seq<(Seq<char>, Seq<char>)>,
}

pub open spec fn opt_text_view(o: Option<String>) -> Option<Seq<char>> {
    match o {
        Some(s) => Some(s@),
        None => None,
    }
}

pub open spec fn pairs_view(v: Seq<(String, String)>) -> Seq<(Seq<char>, Seq<char>)> {
    v.map_values(|p: (String, String)| (p.0@, p.1@))
}

impl View for StartupMessage {
    type V = StartupView;

    open spec fn view(&self) -> StartupView {
        StartupView {
            protocol_version: self.protocol_version,
            user: self.user@,
            database: opt_text_view(self.database),
            options: opt_text_view(self.options),
            replication: opt_text_view(self.replication),
            parameters: pairs_view(self.parameters@),
        }
    }
}

/// The client's answer to a password request.
#[derive(Debug)]
pub struct PasswordMessage {
    pub password: String,
}

/// A message of the request loop.
#[derive(Debug)]
pub enum ClientMessage {
    Query { query: String },
    Parse { name: String, query: String, parameters_types: Vec<u32> },
    Bind {
        portal: String,
        name: String,
        parameter_format_codes: Vec<FormatCode>,
        /// Raw parameter values; `None` is SQL NULL.
        parameters: Vec<Option<Vec<u8>>>,
        result_format_codes: Vec<FormatCode>,
    },
    Execute { portal: String, max_rows: u32 },
    Describe(Describe),
    Sync,
    Terminate,
}

pub enum ClientMessageView {
    Query { query: Seq<char> },
    Parse { name: Seq<char>, query: Seq<char>, parameters_types: Seq<u32> },
    Bind {
        portal: Seq<char>,
        name: Seq<char>,
        parameter_format_codes: Seq<FormatCode>,
        parameters: Seq<Option<Seq<u8>>>,
        result_format_codes: Seq<FormatCode>,
    },
    Execute { portal: Seq<char>, max_rows: u32 },
    Describe(DescribeView),
    Sync,
    Terminate,
}

pub open spec fn value_view(p: Option<Vec<u8>>) -> Option<Seq<u8>> {
    match p {
        Some(v) => Some(v@),
        None => None,
    }
}

pub open spec fn values_view(v: Seq<Option<Vec<u8>>>) -> Seq<Option<Seq<u8>>> {
    v.map_values(|p: Option<Vec<u8>>| value_view(p))
}

impl View for ClientMessage {
    type V = ClientMessageView;

    open spec fn view(&self) -> ClientMessageView {
        match self {
            ClientMessage::Query { query } => ClientMessageView::Query { query: query@ },
            ClientMessage::Parse { name, query, parameters_types } => ClientMessageView::Parse {
                name: name@,
                query: query@,
                parameters_types: parameters_types@,
            },
            ClientMessage::Bind {
                portal,
                name,
                parameter_format_codes,
                parameters,
                result_format_codes,
            } => ClientMessageView::Bind {
                portal: portal@,
                name: name@,
                parameter_format_codes: parameter_format_codes@,
                parameters: values_view(parameters@),
                result_format_codes: result_format_codes@,
            },
            ClientMessage::Execute { portal, max_rows } => ClientMessageView::Execute {
                portal: portal@,
                max_rows: *max_rows,
            },
            ClientMessage::Describe(d) => ClientMessageView::Describe(d@),
            ClientMessage::Sync => ClientMessageView::Sync,
            ClientMessage::Terminate => ClientMessageView::Terminate,
        }
    }
}

/// The type catalogue knows `oid`: `Type::from_oid` finds a type for it.
pub uninterp spec fn known_type_oid(oid: u32) -> bool;

/// Relies on `postgres_types::Type::from_oid`, which answers whether the
/// catalogue holds a type with this OID; the answer depends on the OID alone.
#[verifier::external_body]
fn is_known_type(oid: u32) -> (r: bool)
    ensures
        r == known_type_oid(oid),
{
    postgres_types::Type::from_oid(oid).is_some()
}

/// Reads a NUL-terminated string at `p` as text.
pub open spec fn spec_read_text(b: Seq<u8>, p: int) -> Result<(Seq<char>, int), ProtocolError> {
    match spec_read_cstr(b, p) {
        Ok((s, q)) => Ok((utf8_lossy(s), q)),
        Err(e) => Err(e),
    }
}

/// Reads `n` format codes from `p`.
pub open spec fn spec_read_codes(b: Seq<u8>, p: int, n: nat) -> Result<(Seq<FormatCode>, int), ProtocolError>
    decreases n,
{
    if n == 0 {
        Ok((Seq::empty(), p))
    } else {
        match spec_read_codes(b, p, (n - 1) as nat) {
            Ok((s, q)) => match spec_read_u16(b, q) {
                Ok((c, q2)) => match format_of_code(c) {
                    Some(f) => Ok((s.push(f), q2)),
                    None => Err(ProtocolError::InvalidFormatCode(c)),
                },
                Err(e) => Err(e),
            },
            Err(e) => Err(e),
        }
    }
}

/// Reads `n` parameter type OIDs from `p`.
pub open spec fn spec_read_oids(b: Seq<u8>, p: int, n: nat) -> Result<(Seq<u32>, int), ProtocolError>
    decreases n,
{
    if n == 0 {
        Ok((Seq::empty(), p))
    } else {
        match spec_read_oids(b, p, (n - 1) as nat) {
            Ok((s, q)) => match spec_read_u32(b, q) {
                Ok((oid, q2)) => if known_type_oid(oid) {
                    Ok((s.push(oid), q2))
                } else {
                    Err(ProtocolError::UnknownType(oid))
                },
                Err(e) => Err(e),
            },
            Err(e) => Err(e),
        }
    }
}

/// Reads one length-prefixed parameter value at `p`; length -1 is NULL.
pub open spec fn spec_read_value(b: Seq<u8>, p: int) -> Result<(Option<Seq<u8>>, int), ProtocolError> {
    match spec_read_u32(b, p) {
        Ok((len, q)) => if len == NULL_LENGTH {
            Ok((None, q))
        } else if len >= 0x8000_0000 {
            Err(ProtocolError::InvalidLength(len))
        } else if q + len > b.len() {
            Err(ProtocolError::UnexpectedEnd)
        } else {
            Ok((Some(b.subrange(q, q + len)), q + len))
        },
        Err(e) => Err(e),
    }
}

/// Reads `n` parameter values from `p`.
pub open spec fn spec_read_values(b: Seq<u8>, p: int, n: nat) -> Result<(Seq<Option<Seq<u8>>>, int), ProtocolError>
    decreases n,
{
    if n == 0 {
        Ok((Seq::empty(), p))
    } else {
        match spec_read_values(b, p, (n - 1) as nat) {
            Ok((s, q)) => match spec_read_value(b, q) {
                Ok((v, q2)) => Ok((s.push(v), q2)),
                Err(e) => Err(e),
            },
            Err(e) => Err(e),
        }
    }
}

/// The Parse message whose payload is `b`.
pub open spec fn spec_parse_parse(b: Seq<u8>) -> Result<ClientMessageView, ProtocolError> {
    match spec_read_text(b, 0) {
        Err(e) => Err(e),
        Ok((name, p1)) => match spec_read_text(b, p1) {
            Err(e) => Err(e),
            Ok((query, p2)) => match spec_read_u16(b, p2) {
                Err(e) => Err(e),
                Ok((n, p3)) => match spec_read_oids(b, p3, n as nat) {
                    Err(e) => Err(e),
                    Ok((oids, _)) => Ok(
                        ClientMessageView::Parse { name, query, parameters_types: oids },
                    ),
                },
            },
        },
    }
}

/// The Bind message whose payload is `b`.
pub open spec fn spec_parse_bind(b: Seq<u8>) -> Result<ClientMessageView, ProtocolError> {
    match spec_read_text(b, 0) {
        Err(e) => Err(e),
        Ok((portal, p1)) => match spec_read_text(b, p1) {
            Err(e) => Err(e),
            Ok((name, p2)) => match spec_read_u16(b, p2) {
                Err(e) => Err(e),
                Ok((nf, p3)) => match spec_read_codes(b, p3, nf as nat) {
                    Err(e) => Err(e),
                    Ok((formats, p4)) => match spec_read_u16(b, p4) {
                        Err(e) => Err(e),
                        Ok((np, p5)) => match spec_read_values(b, p5, np as nat) {
                            Err(e) => Err(e),
                            Ok((values, p6)) => match spec_read_u16(b, p6) {
                                Err(e) => Err(e),
                                Ok((nr, p7)) => match spec_read_codes(b, p7, nr as nat) {
                                    Err(e) => Err(e),
                                    Ok((results, _)) => Ok(
                                        ClientMessageView::Bind {
                                            portal,
                                            name,
                                            parameter_format_codes: formats,
                                            parameters: values,
                                            result_format_codes: results,
                                        },
                                    ),
                                },
                            },
                        },
                    },
                },
            },
        },
    }
}

/// The Describe message whose payload is `b`.
pub open spec fn spec_parse_describe(b: Seq<u8>) -> Result<ClientMessageView, ProtocolError> {
    if b.len() < 1 {
        Err(ProtocolError::UnexpectedEnd)
    } else if b[0] != DESCRIBE_STATEMENT && b[0] != DESCRIBE_PORTAL {
        Err(ProtocolError::InvalidDescribeKind(b[0]))
    } else {
        match spec_read_text(b, 1) {
            Err(e) => Err(e),
            Ok((name, _)) => Ok(
                ClientMessageView::Describe(
                    if b[0] == DESCRIBE_STATEMENT {
                        DescribeView::Statement(name)
                    } else {
                        DescribeView::Portal(name)
                    },
                ),
            ),
        }
    }
}

/// Whether `tag` starts a message of the request loop.
pub open spec fn is_client_tag(tag: u8) -> bool {
    tag == TAG_QUERY || tag == TAG_PARSE || tag == TAG_BIND || tag == TAG_EXECUTE || tag
        == TAG_DESCRIBE || tag == TAG_SYNC || tag == TAG_TERMINATE
}

/// The message with tag `tag` whose payload (the bytes after the length) is `b`.
pub open spec fn spec_parse_body(tag: u8, b: Seq<u8>) -> Result<ClientMessageView, ProtocolError> {
    if tag == TAG_QUERY {
        match spec_read_text(b, 0) {
            Ok((query, _)) => Ok(ClientMessageView::Query { query }),
            Err(e) => Err(e),
        }
    } else if tag == TAG_PARSE {
        spec_parse_parse(b)
    } else if tag == TAG_BIND {
        spec_parse_bind(b)
    } else if tag == TAG_EXECUTE {
        match spec_read_text(b, 0) {
            Err(e) => Err(e),
            Ok((portal, p1)) => match spec_read_u32(b, p1) {
                Ok((max_rows, _)) => Ok(ClientMessageView::Execute { portal, max_rows }),
                Err(e) => Err(e),
            },
        }
    } else if tag == TAG_DESCRIBE {
        spec_parse_describe(b)
    } else if tag == TAG_SYNC {
        Ok(ClientMessageView::Sync)
    } else if tag == TAG_TERMINATE {
        Ok(ClientMessageView::Terminate)
    } else {
        Err(ProtocolError::UnknownTag(tag))
    }
}

/// The first message at the front of `s`, and how many bytes it takes.
pub open spec fn spec_client_frame(s: Seq<u8>) -> Result<(ClientMessageView, int), ProtocolError> {
    if s.len() < 1 {
        Err(ProtocolError::UnexpectedEnd)
    } else if !is_client_tag(s[0]) {
        Err(ProtocolError::UnknownTag(s[0]))
    } else if s.len() < 5 {
        Err(ProtocolError::UnexpectedEnd)
    } else if u32_at(s, 1) < 4 {
        Err(ProtocolError::InvalidLength(u32_at(s, 1)))
    } else if s.len() < 1 + u32_at(s, 1) {
        Err(ProtocolError::UnexpectedEnd)
    } else {
        match spec_parse_body(s[0], s.subrange(5, 1 + u32_at(s, 1))) {
            Ok(m) => Ok((m, 1 + u32_at(s, 1))),
            Err(e) => Err(e),
        }
    }
}

/// Reads the NUL-terminated string that starts at `*start` as text, and moves
/// `*start` past its NUL byte.
pub fn read_string(buffer: &[u8], start: &mut usize) -> (r: Result<String, ProtocolError>)
    ensures
        match r {
            Ok(s) => spec_read_text(buffer@, *old(start) as int) == Ok::<(Seq<char>, int), ProtocolError>(
                (s@, *final(start) as int),
            ),
            Err(e) => spec_read_text(buffer@, *old(start) as int) == Err::<(Seq<char>, int), ProtocolError>(e),
        },
{
    match find_nul(buffer, *start) {
        None => Err(ProtocolError::UnterminatedString),
        Some(end) => {
            proof {
                lemma_nul_from_range(buffer@, *start as int);
            }
            assert(end < buffer.len());
            let s = text_from_bytes(&buffer[*start..end]);
            *start = end + 1;
            Ok(s)
        },
    }
}

proof fn lemma_codes_err(b: Seq<u8>, p: int, k: nat, n: nat)
    requires
        k <= n,
        spec_read_codes(b, p, k) is Err,
    ensures
        spec_read_codes(b, p, n) == spec_read_codes(b, p, k),
    decreases n,
{
    if k < n {
        lemma_codes_err(b, p, k, (n - 1) as nat);
    }
}

proof fn lemma_oids_err(b: Seq<u8>, p: int, k: nat, n: nat)
    requires
        k <= n,
        spec_read_oids(b, p, k) is Err,
    ensures
        spec_read_oids(b, p, n) == spec_read_oids(b, p, k),
    decreases n,
{
    if k < n {
        lemma_oids_err(b, p, k, (n - 1) as nat);
    }
}

proof fn lemma_values_err(b: Seq<u8>, p: int, k: nat, n: nat)
    requires
        k <= n,
        spec_read_values(b, p, k) is Err,
    ensures
        spec_read_values(b, p, n) == spec_read_values(b, p, k),
    decreases n,
{
    if k < n {
        lemma_values_err(b, p, k, (n - 1) as nat);
    }
}

/// Reads `n` format codes starting at `p`.
fn read_format_codes(b: &[u8], p: usize, n: u16) -> (r: Result<(Vec<FormatCode>, usize), ProtocolError>)
    ensures
        match r {
            Ok((v, q)) => spec_read_codes(b@, p as int, n as nat) == Ok::<(Seq<FormatCode>, int), ProtocolError>(
                (v@, q as int),
            ),
            Err(e) => spec_read_codes(b@, p as int, n as nat) == Err::<(Seq<FormatCode>, int), ProtocolError>(e),
        },
{
    let mut v: Vec<FormatCode> = Vec::new();
    let mut pos: usize = p;
    let mut i: u16 = 0;
    while i < n
        invariant
            i <= n,
            spec_read_codes(b@, p as int, i as nat) == Ok::<(Seq<FormatCode>, int), ProtocolError>(
                (v@, pos as int),
            ),
        decreases n - i,
    {
        match read_u16_at(b, pos) {
            Err(e) => {
                proof {
                    lemma_codes_err(b@, p as int, (i + 1) as nat, n as nat);
                }
                return Err(e);
            },
            Ok((c, q)) => {
                if c == 0 {
                    v.push(FormatCode::Text);
                } else if c == 1 {
                    v.push(FormatCode::Binary);
                } else {
                    proof {
                        lemma_codes_err(b@, p as int, (i + 1) as nat, n as nat);
                    }
                    return Err(ProtocolError::InvalidFormatCode(c));
                }
                pos = q;
                i = i + 1;
            },
        }
    }
    Ok((v, pos))
}

/// Reads `n` parameter type OIDs starting at `p`; each must be known to the
/// type catalogue.
fn read_type_oids(b: &[u8], p: usize, n: u16) -> (r: Result<(Vec<u32>, usize), ProtocolError>)
    ensures
        match r {
            Ok((v, q)) => spec_read_oids(b@, p as int, n as nat) == Ok::<(Seq<u32>, int), ProtocolError>(
                (v@, q as int),
            ),
            Err(e) => spec_read_oids(b@, p as int, n as nat) == Err::<(Seq<u32>, int), ProtocolError>(e),
        },
{
    let mut v: Vec<u32> = Vec::new();
    let mut pos: usize = p;
    let mut i: u16 = 0;
    while i < n
        invariant
            i <= n,
            spec_read_oids(b@, p as int, i as nat) == Ok::<(Seq<u32>, int), ProtocolError>((v@, pos as int)),
        decreases n - i,
    {
        match read_u32_at(b, pos) {
            Err(e) => {
                proof {
                    lemma_oids_err(b@, p as int, (i + 1) as nat, n as nat);
                }
                return Err(e);
            },
            Ok((oid, q)) => {
                if !is_known_type(oid) {
                    proof {
                        lemma_oids_err(b@, p as int, (i + 1) as nat, n as nat);
                    }
                    return Err(ProtocolError::UnknownType(oid));
                }
                v.push(oid);
                pos = q;
                i = i + 1;
            },
        }
    }
    Ok((v, pos))
}

/// Reads `n` length-prefixed parameter values starting at `p`.
fn read_values(b: &[u8], p: usize, n: u16) -> (r: Result<(Vec<Option<Vec<u8>>>, usize), ProtocolError>)
    ensures
        match r {
            Ok((v, q)) => spec_read_values(b@, p as int, n as nat) == Ok::<(Seq<Option<Seq<u8>>>, int), ProtocolError>(
                (values_view(v@), q as int),
            ),
            Err(e) => spec_read_values(b@, p as int, n as nat) == Err::<(Seq<Option<Seq<u8>>>, int), ProtocolError>(e),
        },
{
    let mut v: Vec<Option<Vec<u8>>> = Vec::new();
    let mut pos: usize = p;
    let mut i: u16 = 0;
    assert(values_view(v@) =~= Seq::<Option<Seq<u8>>>::empty());
    while i < n
        invariant
            i <= n,
            spec_read_values(b@, p as int, i as nat) == Ok::<(Seq<Option<Seq<u8>>>, int), ProtocolError>(
                (values_view(v@), pos as int),
            ),
        decreases n - i,
    {
        match read_u32_at(b, pos) {
            Err(e) => {
                proof {
                    lemma_values_err(b@, p as int, (i + 1) as nat, n as nat);
                }
                return Err(e);
            },
            Ok((len, q)) => {
                let item: Option<Vec<u8>>;
                if len == NULL_LENGTH {
                    item = None;
                    pos = q;
                } else if len >= 0x8000_0000 {
                    proof {
                        lemma_values_err(b@, p as int, (i + 1) as nat, n as nat);
                    }
                    return Err(ProtocolError::InvalidLength(len));
                } else if b.len() - q < len as usize {
                    proof {
                        lemma_values_err(b@, p as int, (i + 1) as nat, n as nat);
                    }
                    return Err(ProtocolError::UnexpectedEnd);
                } else {
                    let end = q + len as usize;
                    item = Some(slice_to_vec(&b[q..end]));
                    pos = end;
                }
                let ghost before = v@;
                v.push(item);
                proof {
                    assert(values_view(v@) =~= values_view(before).push(value_view(item)));
                }
                i = i + 1;
            },
        }
    }
    Ok((v, pos))
}

impl ClientMessage {
    /// The message with tag `tag` whose payload (the bytes after the length
    /// field) is `b`.
    pub fn parse_body(tag: u8, b: &[u8]) -> (r: Result<ClientMessage, ProtocolError>)
        ensures
            match r {
                Ok(m) => spec_parse_body(tag, b@) == Ok::<ClientMessageView, ProtocolError>(m@),
                Err(e) => spec_parse_body(tag, b@) == Err::<ClientMessageView, ProtocolError>(e),
            },
    {
        let mut i: usize = 0;
        if tag == TAG_QUERY {
            let query = read_string(b, &mut i)?;
            Ok(ClientMessage::Query { query })
        } else if tag == TAG_PARSE {
            let name = read_string(b, &mut i)?;
            let query = read_string(b, &mut i)?;
            let (n, p3) = read_u16_at(b, i)?;
            let (parameters_types, _) = read_type_oids(b, p3, n)?;
            Ok(ClientMessage::Parse { name, query, parameters_types })
        } else if tag == TAG_BIND {
            let portal = read_string(b, &mut i)?;
            let name = read_string(b, &mut i)?;
            let (nf, p3) = read_u16_at(b, i)?;
            let (parameter_format_codes, p4) = read_format_codes(b, p3, nf)?;
            let (np, p5) = read_u16_at(b, p4)?;
            let (parameters, p6) = read_values(b, p5, np)?;
            let (nr, p7) = read_u16_at(b, p6)?;
            let (result_format_codes, _) = read_format_codes(b, p7, nr)?;
            Ok(
                ClientMessage::Bind {
                    portal,
                    name,
                    parameter_format_codes,
                    parameters,
                    result_format_codes,
                },
            )
        } else if tag == TAG_EXECUTE {
            let portal = read_string(b, &mut i)?;
            let (max_rows, _) = read_u32_at(b, i)?;
            Ok(ClientMessage::Execute { portal, max_rows })
        } else if tag == TAG_DESCRIBE {
            if b.len() < 1 {
                return Err(ProtocolError::UnexpectedEnd);
            }
            let kind = b[0];
            if kind != DESCRIBE_STATEMENT && kind != DESCRIBE_PORTAL {
                return Err(ProtocolError::InvalidDescribeKind(kind));
            }
            i = 1;
            let name = read_string(b, &mut i)?;
            if kind == DESCRIBE_STATEMENT {
                Ok(ClientMessage::Describe(Describe::Statement { name }))
            } else {
                Ok(ClientMessage::Describe(Describe::Portal { name }))
            }
        } else if tag == TAG_SYNC {
            Ok(ClientMessage::Sync)
        } else if tag == TAG_TERMINATE {
            Ok(ClientMessage::Terminate)
        } else {
            Err(ProtocolError::UnknownTag(tag))
        }
    }

    /// Reads one message of the request loop: tag, length, payload.
    pub fn from_stream<R: ReadPostgresExt>(stream: &mut R) -> (r: Result<ClientMessage, ProtocolError>)
        ensures
            match r {
                Ok(m) => spec_client_frame(old(stream).unread()) matches Ok((v, n)) && v == m@
                    && final(stream).unread() == old(stream).unread().skip(n),
                Err(e) => spec_client_frame(old(stream).unread()) == Err::<(ClientMessageView, int), ProtocolError>(e),
            },
    {
        let ghost s = stream.unread();
        let tag = stream.read_byte()?;
        if !(tag == TAG_QUERY || tag == TAG_PARSE || tag == TAG_BIND || tag == TAG_EXECUTE || tag
            == TAG_DESCRIBE || tag == TAG_SYNC || tag == TAG_TERMINATE) {
            return Err(ProtocolError::UnknownTag(tag));
        }
        let len = stream.read_int32();
        proof {
            if s.len() >= 5 {
                assert(s.skip(1)[0] == s[1] && s.skip(1)[1] == s[2] && s.skip(1)[2] == s[3]
                    && s.skip(1)[3] == s[4]);
            }
        }
        let len = len?;
        if len < 4 {
            return Err(ProtocolError::InvalidLength(len));
        }
        let body = stream.read_exact((len - 4) as usize)?;
        proof {
            assert(body@ =~= s.subrange(5, 1 + len));
            assert(s.skip(5).skip(len - 4) =~= s.skip(1 + len));
        }
        ClientMessage::parse_body(tag, body.as_slice())
    }
}

/// The password message at the front of `s`, and how many bytes it takes.
pub open spec fn spec_password_frame(s: Seq<u8>) -> Result<(Seq<char>, int), ProtocolError> {
    if s.len() < 1 {
        Err(ProtocolError::UnexpectedEnd)
    } else if s[0] != TAG_PASSWORD {
        Err(ProtocolError::UnexpectedTag(s[0]))
    } else if s.len() < 5 {
        Err(ProtocolError::UnexpectedEnd)
    } else if u32_at(s, 1) < 4 {
        Err(ProtocolError::InvalidLength(u32_at(s, 1)))
    } else if s.len() < 1 + u32_at(s, 1) {
        Err(ProtocolError::UnexpectedEnd)
    } else {
        match spec_read_text(s.subrange(5, 1 + u32_at(s, 1)), 0) {
            Ok((password, _)) => Ok((password, 1 + u32_at(s, 1))),
            Err(e) => Err(e),
        }
    }
}

impl PasswordMessage {
    /// Reads a password message: tag `p`, length, NUL-terminated password.
    pub fn from_stream<R: ReadPostgresExt>(stream: &mut R) -> (r: Result<PasswordMessage, ProtocolError>)
        ensures
            match r {
                Ok(m) => spec_password_frame(old(stream).unread()) matches Ok((pw, n)) && pw == m.password@
                    && final(stream).unread() == old(stream).unread().skip(n),
                Err(e) => spec_password_frame(old(stream).unread()) == Err::<(Seq<char>, int), ProtocolError>(e),
            },
    {
        let ghost s = stream.unread();
        let tag = stream.read_byte()?;
        if tag != TAG_PASSWORD {
            return Err(ProtocolError::UnexpectedTag(tag));
        }
        let len = stream.read_int32();
        proof {
            if s.len() >= 5 {
                assert(s.skip(1)[0] == s[1] && s.skip(1)[1] == s[2] && s.skip(1)[2] == s[3]
                    && s.skip(1)[3] == s[4]);
            }
        }
        let len = len?;
        if len < 4 {
            return Err(ProtocolError::InvalidLength(len));
        }
        let body = stream.read_exact((len - 4) as usize)?;
        proof {
            assert(body@ =~= s.subrange(5, 1 + len));
            assert(s.skip(5).skip(len - 4) =~= s.skip(1 + len));
        }
        let mut i: usize = 0;
        let password = read_string(body.as_slice(), &mut i)?;
        Ok(PasswordMessage { password })
    }
}

pub open spec fn user_key() -> Seq<u8> {
    seq![117u8, 115, 101, 114]
}

pub open spec fn database_key() -> Seq<u8> {
    seq![100u8, 97, 116, 97, 98, 97, 115, 101]
}

pub open spec fn options_key() -> Seq<u8> {
    seq![111u8, 112, 116, 105, 111, 110, 115]
}

pub open spec fn replication_key() -> Seq<u8> {
    seq![114u8, 101, 112, 108, 105, 99, 97, 116, 105, 111, 110]
}

/// The key-value pairs of a startup payload from `p` up to the empty key.
pub open spec fn spec_startup_pairs(b: Seq<u8>, p: int) -> Result<Seq<(Seq<u8>, Seq<u8>)>, ProtocolError>
    decreases b.len() - p,
{
    if p < 0 || p >= b.len() || b[p] == 0 {
        Ok(Seq::empty())
    } else {
        match spec_read_cstr(b, p) {
            Err(e) => Err(e),
            Ok((k, q)) => match spec_read_cstr(b, q) {
                Err(e) => Err(e),
                Ok((v, q2)) => if q2 <= p || q2 > b.len() {
                    Ok(Seq::empty())
                } else {
                    match spec_startup_pairs(b, q2) {
                        Ok(rest) => Ok(seq![(k, v)] + rest),
                        Err(e) => Err(e),
                    }
                },
            },
        }
    }
}

/// A startup message with no parameters yet.
pub open spec fn startup_base(version: u32) -> StartupView {
    StartupView {
        protocol_version: version,
        user: Seq::empty(),
        database: None,
        options: None,
        replication: None,
        parameters: Seq::empty(),
    }
}

/// No key stands twice among `ps`.
pub open spec fn keys_distinct(ps: Seq<(Seq<char>, Seq<char>)>) -> bool {
    forall|i: int, j: int| 0 <= i < j < ps.len() ==> (#[trigger] ps[i]).0 != (#[trigger] ps[j]).0
}

/// `ps` with key `k` set to `v`: its value replaced where `k` is already
/// there, else the pair added at the end.
pub open spec fn set_parameter(ps: Seq<(Seq<char>, Seq<char>)>, k: Seq<char>, v: Seq<char>) -> Seq<
    (Seq<char>, Seq<char>),
> {
    if exists|i: int| 0 <= i < ps.len() && (#[trigger] ps[i]).0 == k {
        let i = choose|i: int| 0 <= i < ps.len() && (#[trigger] ps[i]).0 == k;
        ps.update(i, (k, v))
    } else {
        ps.push((k, v))
    }
}

/// Takes in one parameter; a later value of a key replaces an earlier one.
pub open spec fn startup_apply(m: StartupView, k: Seq<u8>, v: Seq<u8>) -> StartupView {
    if k == user_key() {
        StartupView { user: utf8_lossy(v), ..m }
    } else if k == database_key() {
        StartupView { database: Some(utf8_lossy(v)), ..m }
    } else if k == options_key() {
        StartupView { options: Some(utf8_lossy(v)), ..m }
    } else if k == replication_key() {
        StartupView { replication: Some(utf8_lossy(v)), ..m }
    } else {
        StartupView { parameters: set_parameter(m.parameters, utf8_lossy(k), utf8_lossy(v)), ..m }
    }
}

pub open spec fn startup_fields(version: u32, pairs: Seq<(Seq<u8>, Seq<u8>)>) -> StartupView
    decreases pairs.len(),
{
    if pairs.len() == 0 {
        startup_base(version)
    } else {
        let (k, v) = pairs.last();
        startup_apply(startup_fields(version, pairs.drop_last()), k, v)
    }
}

/// The startup message at the front of `s`, and how many bytes it takes.
pub open spec fn spec_startup_frame(s: Seq<u8>) -> Result<(StartupView, int), ProtocolError> {
    if s.len() < 8 {
        Err(ProtocolError::UnexpectedEnd)
    } else if u32_at(s, 0) < 8 {
        Err(ProtocolError::InvalidLength(u32_at(s, 0)))
    } else if u32_at(s, 4) == SSL_REQUEST_CODE || u32_at(s, 4) == CANCEL_REQUEST_CODE {
        Err(ProtocolError::UnsupportedRequest(u32_at(s, 4)))
    } else if s.len() < u32_at(s, 0) {
        Err(ProtocolError::UnexpectedEnd)
    } else {
        match spec_startup_pairs(s.subrange(8, u32_at(s, 0) as int), 0) {
            Ok(pairs) => Ok((startup_fields(u32_at(s, 4), pairs), u32_at(s, 0) as int)),
            Err(e) => Err(e),
        }
    }
}

fn bytes_equal(a: &[u8], b: &[u8]) -> (r: bool)
    ensures
        r == (a@ == b@),
{
    if a.len() != b.len() {
        return false;
    }
    let mut i: usize = 0;
    while i < a.len()
        invariant
            a@.len() == b@.len(),
            i <= a@.len(),
            forall|k: int| 0 <= k < i ==> a@[k] == b@[k],
        decreases a.len() - i,
    {
        if a[i] != b[i] {
            return false;
        }
        i = i + 1;
    }
    assert(a@ =~= b@);
    true
}

impl StartupMessage {
    /// Reads the startup message: length, protocol version, then key-value
    /// pairs up to an empty key. Any protocol version is taken, but for the
    /// codes of SSL and cancel requests.
    pub fn from_stream<R: ReadPostgresExt>(stream: &mut R) -> (r: Result<StartupMessage, ProtocolError>)
        ensures
            match r {
                Ok(m) => spec_startup_frame(old(stream).unread()) matches Ok((v, n)) && v == m@
                    && final(stream).unread() == old(stream).unread().skip(n) && keys_distinct(
                    m@.parameters,
                ),
                Err(e) => spec_startup_frame(old(stream).unread()) == Err::<(StartupView, int), ProtocolError>(e),
            },
    {
        let ghost s = stream.unread();
        let len = stream.read_int32();
        let protocol_version = stream.read_int32();
        proof {
            if s.len() >= 8 {
                assert(s.skip(4)[0] == s[4] && s.skip(4)[1] == s[5] && s.skip(4)[2] == s[6]
                    && s.skip(4)[3] == s[7]);
            }
        }
        let len = len?;
        let protocol_version = protocol_version?;
        if len < 8 {
            return Err(ProtocolError::InvalidLength(len));
        }
        if protocol_version == SSL_REQUEST_CODE || protocol_version == CANCEL_REQUEST_CODE {
            return Err(ProtocolError::UnsupportedRequest(protocol_version));
        }
        let body = stream.read_exact((len - 8) as usize)?;
        proof {
            assert(body@ =~= s.subrange(8, len as int));
            assert(s.skip(8).skip(len - 8) =~= s.skip(len as int));
        }
        let b = body.as_slice();
        let user_word: Vec<u8> = vec![117u8, 115, 101, 114];
        let database_word: Vec<u8> = vec![100u8, 97, 116, 97, 98, 97, 115, 101];
        let options_word: Vec<u8> = vec![111u8, 112, 116, 105, 111, 110, 115];
        let replication_word: Vec<u8> = vec![114u8, 101, 112, 108, 105, 99, 97, 116, 105, 111, 110];
        assert(user_word@ =~= user_key());
        assert(database_word@ =~= database_key());
        assert(options_word@ =~= options_key());
        assert(replication_word@ =~= replication_key());
        let mut user = String::new();
        let mut database: Option<String> = None;
        let mut options: Option<String> = None;
        let mut replication: Option<String> = None;
        let mut parameters: Vec<(String, String)> = Vec::new();
        let ghost mut pairs: Seq<(Seq<u8>, Seq<u8>)> = Seq::empty();
        assert(pairs_view(parameters@) =~= Seq::<(Seq<char>, Seq<char>)>::empty());
        let mut i: usize = 0;
        while i < b.len() && b[i] != 0
            invariant
                i <= b@.len(),
                8 <= len <= s.len(),
                u32_at(s, 0) == len,
                u32_at(s, 4) == protocol_version,
                protocol_version != SSL_REQUEST_CODE && protocol_version != CANCEL_REQUEST_CODE,
                s == old(stream).unread(),
                stream.unread() == s.skip(len as int),
                b@ == s.subrange(8, len as int),
                startup_fields(protocol_version, pairs).protocol_version == protocol_version,
                user_word@ == user_key(),
                database_word@ == database_key(),
                options_word@ == options_key(),
                replication_word@ == replication_key(),
                spec_startup_pairs(b@, 0) == match spec_startup_pairs(b@, i as int) {
                    Ok(rest) => Ok::<Seq<(Seq<u8>, Seq<u8>)>, ProtocolError>(pairs + rest),
                    Err(e) => Err(e),
                },
                user@ == startup_fields(protocol_version, pairs).user,
                opt_text_view(database) == startup_fields(protocol_version, pairs).database,
                opt_text_view(options) == startup_fields(protocol_version, pairs).options,
                opt_text_view(replication) == startup_fields(protocol_version, pairs).replication,
                pairs_view(parameters@) == startup_fields(protocol_version, pairs).parameters,
                keys_distinct(pairs_view(parameters@)),
            decreases b.len() - i,
        {
            let key_end = match find_nul(b, i) {
                Some(q) => q,
                None => return Err(ProtocolError::UnterminatedString),
            };
            proof {
                lemma_nul_from_range(b@, i as int);
            }
            let value_end = match find_nul(b, key_end + 1) {
                Some(q) => q,
                None => return Err(ProtocolError::UnterminatedString),
            };
            proof {
                lemma_nul_from_range(b@, key_end + 1);
            }
            let key = &b[i..key_end];
            let value = &b[key_end + 1..value_end];
            let ghost prev = pairs;
            proof {
                pairs = pairs.push((key@, value@));
                assert(pairs.drop_last() =~= prev);
                match spec_startup_pairs(b@, value_end + 1) {
                    Ok(rest) => {
                        assert(prev + (seq![(key@, value@)] + rest) =~= pairs + rest);
                    },
                    Err(_) => {},
                }
            }
            let text = text_from_bytes(value);
            if bytes_equal(key, user_word.as_slice()) {
                user = text;
            } else if bytes_equal(key, database_word.as_slice()) {
                database = Some(text);
            } else if bytes_equal(key, options_word.as_slice()) {
                options = Some(text);
            } else if bytes_equal(key, replication_word.as_slice()) {
                replication = Some(text);
            } else {
                let name = text_from_bytes(key);
                let ghost before = pairs_view(parameters@);
                let mut j: usize = 0;
                while j < parameters.len() && parameters[j].0 != name
                    invariant
                        j <= parameters@.len(),
                        before == pairs_view(parameters@),
                        forall|k: int| 0 <= k < j ==> (#[trigger] before[k]).0 != name@,
                    decreases parameters.len() - j,
                {
                    j = j + 1;
                }
                if j < parameters.len() {
                    proof {
                        assert(before[j as int].0 == name@);
                        let c = choose|c: int| 0 <= c < before.len() && (#[trigger] before[c]).0 == name@;
                        if c != j {
                            if c < j {
                                assert(before[c].0 != before[j as int].0);
                            } else {
                                assert(before[j as int].0 != before[c].0);
                            }
                        }
                    }
                    parameters.remove(j);
                    parameters.insert(j, (name, text));
                    assert(pairs_view(parameters@) =~= before.update(j as int, (name@, text@)));
                } else {
                    parameters.push((name, text));
                    assert(pairs_view(parameters@) =~= before.push((name@, text@)));
                    assert forall|a: int, b: int|
                        0 <= a < b < pairs_view(parameters@).len() implies (#[trigger] pairs_view(
                        parameters@,
                    )[a]).0 != (#[trigger] pairs_view(parameters@)[b]).0 by {
                        if b == before.len() {
                            assert(before[a].0 != name@);
                        } else {
                            assert(before[a] == pairs_view(parameters@)[a]);
                            assert(before[b] == pairs_view(parameters@)[b]);
                        }
                    }
                }
            }
            i = value_end + 1;
        }
        proof {
            if i < b.len() {
                assert(b@[i as int] == 0);
            }
            assert(pairs + Seq::<(Seq<u8>, Seq<u8>)>::empty() =~= pairs);
        }
        Ok(StartupMessage { protocol_version, user, database, options, replication, parameters })
    }
}

} // verus!
