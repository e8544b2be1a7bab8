use vstd::prelude::*;
use vstd::utf8::encode_utf8;

use crate::client_message::{code_of_format, FormatCode};
use crate::wire::{be16, be32, cstr, lemma_read_u32_at, u32_at};

verus! {

pub const TAG_AUTHENTICATION: u8 = 82;
pub const TAG_BACKEND_KEY_DATA: u8 = 75;
pub const TAG_PARAMETER_STATUS: u8 = 83;
pub const TAG_READY_FOR_QUERY: u8 = 90;
pub const TAG_PARSE_COMPLETE: u8 = 49;
pub const TAG_BIND_COMPLETE: u8 = 50;
pub const TAG_ROW_DESCRIPTION: u8 = 84;
pub const TAG_DATA_ROW: u8 = 68;
pub const TAG_COMMAND_COMPLETE: u8 = 67;
pub const TAG_NO_DATA: u8 = 110;
pub const TAG_EMPTY_QUERY_RESPONSE: u8 = 73;
pub const TAG_ERROR_RESPONSE: u8 = 69;
/// The largest value a length field may hold (a signed 32-bit number).
pub const MAX_MESSAGE_LENGTH: u32 = 0x7fff_ffff;
/// The largest number of columns or fields a message may count (a signed
/// 16-bit number).
pub const MAX_FIELD_COUNT: usize = 0x7fff;

/// A sink for protocol bytes.
pub trait WritePostgresExt {
    /// Everything written so far.
    spec fn written(&self) -> Seq<u8>;

    fn write_all(&mut self, bytes: &[u8])
        ensures
            final(self).written() == old(self).written() + bytes@,
    ;

    fn write_byte(&mut self, byte: u8)
        ensures
            final(self).written() == old(self).written().push(byte),
    ;

    fn write_int16(&mut self, number: u16)
        ensures
            final(self).written() == old(self).written() + be16(number),
    ;

    fn write_int32(&mut self, number: i32)
        ensures
            final(self).written() == old(self).written() + be32(number as u32),
    ;

    fn write_uint32(&mut self, number: u32)
        ensures
            final(self).written() == old(self).written() + be32(number),
    ;
}

impl WritePostgresExt for Vec<u8> {
    open spec fn written(&self) -> Seq<u8> {
        self@
    }

    fn write_all(&mut self, bytes: &[u8]) {
        let mut i: usize = 0;
        let ghost start = self@;
        while i < bytes.len()
            invariant
                i <= bytes@.len(),
                self@ == start + bytes@.subrange(0, i as int),
            decreases bytes.len() - i,
        {
            self.push(bytes[i]);
            i = i + 1;
            assert(self@ =~= start + bytes@.subrange(0, i as int));
        }
        assert(bytes@.subrange(0, i as int) =~= bytes@);
    }

    fn write_byte(&mut self, byte: u8) {
        self.push(byte);
    }

    fn write_int16(&mut self, number: u16) {
        let ghost start = self@;
        self.push((number >> 8u16) as u8);
        self.push((number & 0xffu16) as u8);
        assert(self@ =~= start + be16(number));
    }

    fn write_int32(&mut self, number: i32) {
        self.write_uint32(number as u32);
    }

    fn write_uint32(&mut self, x: u32) {
        let ghost start = self@;
        self.push((x >> 24u32) as u8);
        self.push(((x >> 16u32) & 0xffu32) as u8);
        self.push(((x >> 8u32) & 0xffu32) as u8);
        self.push((x & 0xffu32) as u8);
        assert(self@ =~= start + be32(x));
    }
}

/// What a CommandComplete message reports.
#[derive(Debug, Clone, Copy, PartialEq, Eq, Structural)]
pub enum CommandCompleteTag {
    Select { rows: u32 },
}

/// A message from the server to the client.
#[derive(Debug)]
#[allow(inconsistent_fields)]
pub enum ServerMessage<'a> {
    AuthenticationOk,
    AuthenticationCleartextPassword,
    BackendKeyData { process_id: i32, secret_key: i32 },
    BindComplete,
    CommandComplete(CommandCompleteTag),
    /// One row; `None` is SQL NULL.
    DataRow { fields: Vec<Option<Vec<u8>>> },
    ErrorResponse { code: u8, message: String },
    EmptyQueryResponse,
    NoData,
    ParameterStatus { name: &'a str, value: &'a str },
    ParseComplete,
    ReadyForQuery { transaction_status: u8 },
    /// Column name, type OID and format, one entry per column.
    RowDescription { fields: Vec<(String, u32, FormatCode)> },
}

#[allow(inconsistent_fields)]
pub enum ServerMessageView {
    AuthenticationOk,
    AuthenticationCleartextPassword,
    BackendKeyData { process_id: i32, secret_key: i32 },
    BindComplete,
    CommandComplete(CommandCompleteTag),
    DataRow { fields: Seq<Option<Seq<u8>>> },
    ErrorResponse { code: u8, message: Seq<char> },
    EmptyQueryResponse,
    NoData,
    ParameterStatus { name: Seq<char>, value: Seq<char> },
    ParseComplete,
    ReadyForQuery { transaction_status: u8 },
    RowDescription { fields: Seq<(Seq<char>, u32, FormatCode)> },
}

pub open spec fn field_view(f: Option<Vec<u8>>) -> Option<Seq<u8>> {
    match f {
        Some(v) => Some(v@),
        None => None,
    }
}

pub open spec fn columns_view(v: Seq<(String, u32, FormatCode)>) -> Seq<(Seq<char>, u32, FormatCode)> {
    v.map_values(|c: (String, u32, FormatCode)| (c.0@, c.1, c.2))
}

impl<'a> View for ServerMessage<'a> {
    type V = ServerMessageView;

    open spec fn view(&self) -> ServerMessageView {
        match self {
            ServerMessage::AuthenticationOk => ServerMessageView::AuthenticationOk,
            ServerMessage::AuthenticationCleartextPassword => ServerMessageView::AuthenticationCleartextPassword,
            ServerMessage::BackendKeyData { process_id, secret_key } => ServerMessageView::BackendKeyData {
                process_id: *process_id,
                secret_key: *secret_key,
            },
            ServerMessage::BindComplete => ServerMessageView::BindComplete,
            ServerMessage::CommandComplete(t) => ServerMessageView::CommandComplete(*t),
            ServerMessage::DataRow { fields } => ServerMessageView::DataRow {
                fields: fields@.map_values(|f: Option<Vec<u8>>| field_view(f)),
            },
            ServerMessage::ErrorResponse { code, message } => ServerMessageView::ErrorResponse {
                code: *code,
                message: message@,
            },
            ServerMessage::EmptyQueryResponse => ServerMessageView::EmptyQueryResponse,
            ServerMessage::NoData => ServerMessageView::NoData,
            ServerMessage::ParameterStatus { name, value } => ServerMessageView::ParameterStatus {
                name: name@,
                value: value@,
            },
            ServerMessage::ParseComplete => ServerMessageView::ParseComplete,
            ServerMessage::ReadyForQuery { transaction_status } => ServerMessageView::ReadyForQuery {
                transaction_status: *transaction_status,
            },
            ServerMessage::RowDescription { fields } => ServerMessageView::RowDescription {
                fields: columns_view(fields@),
            },
        }
    }
}

/// The decimal digits of `n`, most significant first.
pub open spec fn decimal(n: nat) -> Seq<u8>
    decreases n,
{
    if n < 10 {
        seq![(48 + n) as u8]
    } else {
        decimal(n / 10).push((48 + n % 10) as u8)
    }
}

/// `SELECT ` followed by the row count.
pub open spec fn select_tag(rows: u32) -> Seq<u8> {
    seq![83u8, 69, 76, 69, 67, 84, 32] + decimal(rows as nat)
}

/// One DataRow field: length and bytes, or length -1 for NULL.
pub open spec fn field_bytes(f: Option<Seq<u8>>) -> Seq<u8> {
    match f {
        Some(d) => be32(d.len() as u32) + d,
        None => be32(0xffff_ffff),
    }
}

pub open spec fn fields_bytes(fs: Seq<Option<Seq<u8>>>) -> Seq<u8>
    decreases fs.len(),
{
    if fs.len() == 0 {
        Seq::empty()
    } else {
        fields_bytes(fs.drop_last()) + field_bytes(fs.last())
    }
}

/// One RowDescription entry: name, table OID 0, attribute 0, type OID,
/// type length 0, type modifier 0, format code.
pub open spec fn column_bytes(c: (Seq<char>, u32, FormatCode)) -> Seq<u8> {
    cstr(encode_utf8(c.0)) + be32(0) + be16(0) + be32(c.1) + be16(0) + be32(0) + be16(
        code_of_format(c.2),
    )
}

pub open spec fn columns_bytes(cs: Seq<(Seq<char>, u32, FormatCode)>) -> Seq<u8>
    decreases cs.len(),
{
    if cs.len() == 0 {
        Seq::empty()
    } else {
        columns_bytes(cs.drop_last()) + column_bytes(cs.last())
    }
}

pub open spec fn server_tag(m: ServerMessageView) -> u8 {
    match m {
        ServerMessageView::AuthenticationOk => TAG_AUTHENTICATION,
        ServerMessageView::AuthenticationCleartextPassword => TAG_AUTHENTICATION,
        ServerMessageView::BackendKeyData { .. } => TAG_BACKEND_KEY_DATA,
        ServerMessageView::BindComplete => TAG_BIND_COMPLETE,
        ServerMessageView::CommandComplete(_) => TAG_COMMAND_COMPLETE,
        ServerMessageView::DataRow { .. } => TAG_DATA_ROW,
        ServerMessageView::ErrorResponse { .. } => TAG_ERROR_RESPONSE,
        ServerMessageView::EmptyQueryResponse => TAG_EMPTY_QUERY_RESPONSE,
        ServerMessageView::NoData => TAG_NO_DATA,
        ServerMessageView::ParameterStatus { .. } => TAG_PARAMETER_STATUS,
        ServerMessageView::ParseComplete => TAG_PARSE_COMPLETE,
        ServerMessageView::ReadyForQuery { .. } => TAG_READY_FOR_QUERY,
        ServerMessageView::RowDescription { .. } => TAG_ROW_DESCRIPTION,
    }
}

/// What follows a server message's length field.
pub open spec fn server_payload(m: ServerMessageView) -> Seq<u8> {
    match m {
        ServerMessageView::AuthenticationOk => be32(0),
        ServerMessageView::AuthenticationCleartextPassword => be32(3),
        ServerMessageView::BackendKeyData { process_id, secret_key } => be32(process_id as u32) + be32(
            secret_key as u32,
        ),
        ServerMessageView::BindComplete => Seq::empty(),
        ServerMessageView::CommandComplete(CommandCompleteTag::Select { rows }) => cstr(select_tag(rows)),
        ServerMessageView::DataRow { fields } => be16(fields.len() as u16) + fields_bytes(fields),
        ServerMessageView::ErrorResponse { code, message } => seq![code] + cstr(encode_utf8(message)) + seq![0u8],
        ServerMessageView::EmptyQueryResponse => Seq::empty(),
        ServerMessageView::NoData => Seq::empty(),
        ServerMessageView::ParameterStatus { name, value } => cstr(encode_utf8(name)) + cstr(
            encode_utf8(value),
        ),
        ServerMessageView::ParseComplete => Seq::empty(),
        ServerMessageView::ReadyForQuery { transaction_status } => seq![transaction_status],
        ServerMessageView::RowDescription { fields } => be16(fields.len() as u16) + columns_bytes(fields),
    }
}

/// The bytes of a server message: tag, length (counting itself), payload.
pub open spec fn server_message_bytes(m: ServerMessageView) -> Seq<u8> {
    seq![server_tag(m)] + be32((server_payload(m).len() + 4) as u32) + server_payload(m)
}

/// The message fits the protocol's length and count fields.
pub open spec fn server_message_fits(m: ServerMessageView) -> bool {
    &&& server_payload(m).len() + 4 <= MAX_MESSAGE_LENGTH
    &&& match m {
        ServerMessageView::DataRow { fields } => fields.len() <= MAX_FIELD_COUNT,
        ServerMessageView::RowDescription { fields } => fields.len() <= MAX_FIELD_COUNT,
        _ => true,
    }
}

pub(crate) proof fn lemma_fields_bytes_prefix(fs: Seq<Option<Seq<u8>>>, j: int)
    requires
        0 <= j <= fs.len(),
    ensures
        fields_bytes(fs.take(j)).len() <= fields_bytes(fs).len(),
    decreases fs.len(),
{
    if j < fs.len() {
        assert(fs.take(j) =~= fs.drop_last().take(j));
        lemma_fields_bytes_prefix(fs.drop_last(), j);
    } else {
        assert(fs.take(j) =~= fs);
    }
}

/// Writes the decimal digits of `n`.
fn write_decimal<W: WritePostgresExt>(out: &mut W, n: u32)
    ensures
        final(out).written() == old(out).written() + decimal(n as nat),
    decreases n,
{
    let ghost start = out.written();
    if n >= 10 {
        write_decimal(out, n / 10);
    }
    out.write_byte(48u8 + (n % 10) as u8);
    proof {
        if n >= 10 {
            assert(start + decimal(n as nat) =~= (start + decimal((n / 10) as nat)).push(
                (48 + n % 10) as u8,
            ));
        } else {
            assert(start + decimal(n as nat) =~= start.push((48 + n % 10) as u8));
        }
    }
}

/// Writes the fields of a DataRow, each with its length prefix.
fn write_fields(out: &mut Vec<u8>, fields: &Vec<Option<Vec<u8>>>)
    requires
        fields_bytes(fields@.map_values(|f: Option<Vec<u8>>| field_view(f))).len() + old(out)@.len()
            <= MAX_MESSAGE_LENGTH,
    ensures
        final(out)@ == old(out)@ + fields_bytes(fields@.map_values(|f: Option<Vec<u8>>| field_view(f))),
{
    let ghost fv = fields@.map_values(|f: Option<Vec<u8>>| field_view(f));
    let ghost start = out@;
    let mut i: usize = 0;
    assert(fv.take(0) =~= Seq::<Option<Seq<u8>>>::empty());
    while i < fields.len()
        invariant
            i <= fields@.len(),
            fv == fields@.map_values(|f: Option<Vec<u8>>| field_view(f)),
            fields_bytes(fv).len() + start.len() <= MAX_MESSAGE_LENGTH,
            out@ == start + fields_bytes(fv.take(i as int)),
        decreases fields.len() - i,
    {
        proof {
            assert(fv.take(i + 1).drop_last() =~= fv.take(i as int));
            assert(fv.take(i + 1).last() == field_view(fields@[i as int]));
            assert(fields_bytes(fv.take(i + 1)) == fields_bytes(fv.take(i as int)) + field_bytes(
                field_view(fields@[i as int]),
            ));
            lemma_fields_bytes_prefix(fv, i + 1);
        }
        match &fields[i] {
            None => {
                out.write_uint32(0xffff_ffffu32);
            },
            Some(d) => {
                assert(field_view(fields@[i as int]) == Some(d@));
                assert(d@.len() < 0x8000_0000);
                out.write_uint32(d.len() as u32);
                out.write_all(d.as_slice());
            },
        }
        i = i + 1;
        assert(out@ =~= start + fields_bytes(fv.take(i as int)));
    }
    assert(fv.take(i as int) =~= fv);
}

/// Writes the entries of a RowDescription.
fn write_columns(out: &mut Vec<u8>, fields: &Vec<(String, u32, FormatCode)>)
    ensures
        final(out)@ == old(out)@ + columns_bytes(columns_view(fields@)),
{
    let ghost cv = columns_view(fields@);
    let ghost start = out@;
    let mut i: usize = 0;
    assert(cv.take(0) =~= Seq::<(Seq<char>, u32, FormatCode)>::empty());
    while i < fields.len()
        invariant
            i <= fields@.len(),
            cv == columns_view(fields@),
            out@ == start + columns_bytes(cv.take(i as int)),
        decreases fields.len() - i,
    {
        proof {
            assert(cv.take(i + 1).drop_last() =~= cv.take(i as int));
            assert(columns_bytes(cv.take(i + 1)) == columns_bytes(cv.take(i as int)) + column_bytes(
                cv[i as int],
            ));
        }
        let (name, oid, format) = &fields[i];
        out.write_all(name.as_str().as_bytes());
        out.write_byte(0u8);
        out.write_int32(0i32);
        out.write_int16(0u16);
        out.write_uint32(*oid);
        out.write_int16(0u16);
        out.write_int32(0i32);
        match format {
            FormatCode::Text => out.write_int16(0u16),
            FormatCode::Binary => out.write_int16(1u16),
        }
        i = i + 1;
        assert(out@ =~= start + columns_bytes(cv.take(i as int)));
    }
    assert(cv.take(i as int) =~= cv);
}

impl<'a> ServerMessage<'a> {
    /// Writes the message: tag, length (counting itself), payload.
    pub fn write<W: WritePostgresExt>(self, stream: &mut W)
        requires
            server_message_fits(self@),
        ensures
            final(stream).written() == old(stream).written() + server_message_bytes(self@),
    {
        let ghost v = self@;
        let mut payload: Vec<u8> = Vec::new();
        let tag: u8 = match &self {
            ServerMessage::AuthenticationOk => {
                payload.write_int32(0i32);
                TAG_AUTHENTICATION
            },
            ServerMessage::AuthenticationCleartextPassword => {
                payload.write_int32(3i32);
                TAG_AUTHENTICATION
            },
            ServerMessage::BackendKeyData { process_id, secret_key } => {
                payload.write_int32(*process_id);
                payload.write_int32(*secret_key);
                TAG_BACKEND_KEY_DATA
            },
            ServerMessage::BindComplete => TAG_BIND_COMPLETE,
            ServerMessage::CommandComplete(CommandCompleteTag::Select { rows }) => {
                let word: Vec<u8> = vec![83u8, 69, 76, 69, 67, 84, 32];
                payload.write_all(word.as_slice());
                write_decimal(&mut payload, *rows);
                payload.write_byte(0u8);
                TAG_COMMAND_COMPLETE
            },
            ServerMessage::DataRow { fields } => {
                payload.write_int16(fields.len() as u16);
                write_fields(&mut payload, fields);
                TAG_DATA_ROW
            },
            ServerMessage::ErrorResponse { code, message } => {
                payload.write_byte(*code);
                payload.write_all(message.as_str().as_bytes());
                payload.write_byte(0u8);
                payload.write_byte(0u8);
                TAG_ERROR_RESPONSE
            },
            ServerMessage::EmptyQueryResponse => TAG_EMPTY_QUERY_RESPONSE,
            ServerMessage::NoData => TAG_NO_DATA,
            ServerMessage::ParameterStatus { name, value } => {
                payload.write_all(name.as_bytes());
                payload.write_byte(0u8);
                payload.write_all(value.as_bytes());
                payload.write_byte(0u8);
                TAG_PARAMETER_STATUS
            },
            ServerMessage::ParseComplete => TAG_PARSE_COMPLETE,
            ServerMessage::ReadyForQuery { transaction_status } => {
                payload.write_byte(*transaction_status);
                TAG_READY_FOR_QUERY
            },
            ServerMessage::RowDescription { fields } => {
                payload.write_int16(fields.len() as u16);
                write_columns(&mut payload, fields);
                TAG_ROW_DESCRIPTION
            },
        };
        assert(payload@ =~= server_payload(v));
        stream.write_byte(tag);
        stream.write_int32((payload.len() + 4) as i32);
        stream.write_all(payload.as_slice());
        assert(final(stream).written() =~= old(stream).written() + server_message_bytes(v));
    }
}

/// The length field of every server message equals the number of bytes
/// after the tag, the length field included.
pub proof fn lemma_declared_length(m: ServerMessageView)
    requires
        server_message_fits(m),
    ensures
        u32_at(server_message_bytes(m), 1) as int == server_message_bytes(m).len() - 1,
{
    let b = server_message_bytes(m);
    let len = (server_payload(m).len() + 4) as u32;
    assert(b.subrange(1, 5) =~= be32(len));
    lemma_read_u32_at(b, 1, len);
}

} // verus!
