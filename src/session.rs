use vstd::prelude::*;
use vstd::slice::slice_to_vec;
use vstd::utf8::{encode_utf8, is_ascii_chars, is_ascii_chars_encode_utf8};

use crate::client_message::{values_view, ClientMessage, ClientMessageView, Describe, DescribeView, FormatCode};
use crate::result_writer::{
    description_fields, ends_result, format_codes, negotiated_formats, row_description, Column,
    CompletedResult, ResultWriter,
};
use crate::server_message::{
    columns_bytes, server_message_bytes, server_message_fits, ServerMessage,
    ServerMessageView, MAX_FIELD_COUNT, MAX_MESSAGE_LENGTH,
};
use crate::wire::{text_from_bytes, utf8_lossy, ProtocolError};

verus! {

/// A Bind parameter as handed to the handler.
#[derive(Debug)]
pub enum ParameterValue {
    Text(String),
    Binary(Vec<u8>),
    Null,
}

pub enum ParameterValueView {
    Text(Seq<char>),
    Binary(Seq<u8>),
    Null,
}

impl View for ParameterValue {
    type V = ParameterValueView;

    open spec fn view(&self) -> ParameterValueView {
        match self {
            ParameterValue::Text(s) => ParameterValueView::Text(s@),
            ParameterValue::Binary(b) => ParameterValueView::Binary(b@),
            ParameterValue::Null => ParameterValueView::Null,
        }
    }
}

/// One raw parameter in format `f`: text is the bytes read as UTF-8, binary
/// is the bytes as they came, a missing value is NULL.
pub open spec fn parameter_value_of(f: FormatCode, v: Option<Seq<u8>>) -> ParameterValueView {
    match v {
        None => ParameterValueView::Null,
        Some(d) => match f {
            FormatCode::Text => ParameterValueView::Text(utf8_lossy(d)),
            FormatCode::Binary => ParameterValueView::Binary(d),
        },
    }
}

/// The parameters of a Bind, each in its negotiated format; `None` when the
/// number of format codes fits neither 0, 1 nor the number of values.
pub open spec fn parameter_values_of(formats: Seq<FormatCode>, values: Seq<Option<Seq<u8>>>) -> Option<
    Seq<ParameterValueView>,
> {
    match negotiated_formats(values.len(), formats) {
        Some(fs) => Some(Seq::new(values.len(), |i: int| parameter_value_of(fs[i], values[i]))),
        None => None,
    }
}

/// Turns the raw parameters of a Bind into the values given to the handler.
pub fn parameter_values(formats: &Vec<FormatCode>, values: &Vec<Option<Vec<u8>>>) -> (r: Result<
    Vec<ParameterValue>,
    ProtocolError,
>)
    ensures
        match r {
            Ok(v) => parameter_values_of(formats@, values_view(values@)) == Some(
                v@.map_values(|p: ParameterValue| p@),
            ),
            Err(e) => e == ProtocolError::FormatCountMismatch && parameter_values_of(
                formats@,
                values_view(values@),
            ) is None,
        },
{
    let ghost vv = values_view(values@);
    if !(formats.len() == 0 || formats.len() == 1 || formats.len() == values.len()) {
        return Err(ProtocolError::FormatCountMismatch);
    }
    let ghost fs = negotiated_formats(vv.len(), formats@)->Some_0;
    let mut out: Vec<ParameterValue> = Vec::new();
    let mut i: usize = 0;
    while i < values.len()
        invariant
            i <= values@.len(),
            vv == values_view(values@),
            negotiated_formats(vv.len(), formats@) == Some(fs),
            fs.len() == vv.len(),
            formats@.len() == 0 || formats@.len() == 1 || formats@.len() == values@.len(),
            out@.map_values(|p: ParameterValue| p@) =~= Seq::new(
                vv.len(),
                |k: int| parameter_value_of(fs[k], vv[k]),
            ).take(i as int),
        decreases values.len() - i,
    {
        let f = if formats.len() == 0 {
            FormatCode::Text
        } else if formats.len() == 1 {
            formats[0]
        } else {
            formats[i]
        };
        assert(f == fs[i as int]);
        let item = match &values[i] {
            None => ParameterValue::Null,
            Some(d) => match f {
                FormatCode::Text => ParameterValue::Text(text_from_bytes(d.as_slice())),
                FormatCode::Binary => ParameterValue::Binary(slice_to_vec(d.as_slice())),
            },
        };
        assert(item@ == parameter_value_of(fs[i as int], vv[i as int]));
        let ghost before = out@;
        out.push(item);
        assert(out@.map_values(|p: ParameterValue| p@) =~= before.map_values(
            |p: ParameterValue| p@,
        ).push(item@));
        i = i + 1;
    }
    Ok(out)
}

/// The values the server reports in its ParameterStatus messages.
pub struct DefaultServerParameters {
    pub server_version: String,
    pub server_encoding: String,
    pub client_encoding: String,
    pub application_name: String,
    pub default_transaction_read_only: String,
    pub in_hot_standby: String,
    pub is_superuser: String,
    pub session_authorization: String,
    pub date_style: String,
    pub interval_style: String,
    pub time_zone: String,
    pub integer_datetimes: String,
    pub standard_conforming_strings: String,
}

/// The ParameterStatus name-value pairs of the handshake, in order.
pub open spec fn status_pairs(p: DefaultServerParameters) -> Seq<(Seq<char>, Seq<char>)> {
    seq![
        ("server_version"@, p.server_version@),
        ("server_encoding"@, p.server_encoding@),
        ("client_encoding"@, p.client_encoding@),
        ("application_name"@, p.application_name@),
        ("default_transaction_read_only"@, p.default_transaction_read_only@),
        ("in_hot_standby"@, p.in_hot_standby@),
        ("is_superuser"@, p.is_superuser@),
        ("DateStyle"@, p.date_style@),
        ("IntervalStyle"@, p.interval_style@),
        ("TimeZone"@, p.time_zone@),
        ("integer_datetimes"@, p.integer_datetimes@),
        ("standard_conforming_strings"@, p.standard_conforming_strings@),
    ]
}

pub open spec fn status_message(pair: (Seq<char>, Seq<char>)) -> ServerMessageView {
    ServerMessageView::ParameterStatus { name: pair.0, value: pair.1 }
}

/// The bytes of ParameterStatus messages for `pairs`, in order.
pub open spec fn statuses_bytes(pairs: Seq<(Seq<char>, Seq<char>)>) -> Seq<u8>
    decreases pairs.len(),
{
    if pairs.len() == 0 {
        Seq::empty()
    } else {
        statuses_bytes(pairs.drop_last()) + server_message_bytes(status_message(pairs.last()))
    }
}

/// Every ParameterStatus message of the handshake fits its length field.
pub open spec fn handshake_fits(p: DefaultServerParameters) -> bool {
    forall|i: int| 0 <= i < 12 ==> server_message_fits(#[trigger] status_message(status_pairs(p)[i]))
}

/// What the server writes once the password has been read: AuthenticationOk,
/// the ParameterStatus messages, BackendKeyData with zeroes, ReadyForQuery idle.
pub open spec fn handshake_bytes(p: DefaultServerParameters) -> Seq<u8> {
    server_message_bytes(ServerMessageView::AuthenticationOk) + statuses_bytes(status_pairs(p))
        + server_message_bytes(ServerMessageView::BackendKeyData { process_id: 0, secret_key: 0 })
        + server_message_bytes(ServerMessageView::ReadyForQuery { transaction_status: IDLE })
}

/// The transaction status byte this server always reports.
pub const IDLE: u8 = 73;

pub open spec fn ready_for_query_bytes() -> Seq<u8> {
    server_message_bytes(ServerMessageView::ReadyForQuery { transaction_status: IDLE })
}

fn write_status(out: &mut Vec<u8>, name: &str, value: &String) -> (r: Result<(), ProtocolError>)
    ensures
        match r {
            Ok(()) => server_message_fits(status_message((name@, value@))) && final(out)@ == old(out)@
                + server_message_bytes(status_message((name@, value@))),
            Err(e) => e == ProtocolError::MessageTooLarge && !server_message_fits(
                status_message((name@, value@)),
            ) && final(out)@ == old(out)@,
        },
{
    let n = name.as_bytes().len();
    let v = value.as_str().as_bytes().len();
    assert(n == encode_utf8(name@).len());
    assert(v == encode_utf8(value@).len());
    if n >= MAX_MESSAGE_LENGTH as usize || v >= MAX_MESSAGE_LENGTH as usize - n || n + v + 6
        > MAX_MESSAGE_LENGTH as usize {
        return Err(ProtocolError::MessageTooLarge);
    }
    ServerMessage::ParameterStatus { name, value: value.as_str() }.write(out);
    Ok(())
}

/// Writes the handshake's closing messages for these parameters; nothing is
/// written when one of them does not fit.
pub fn write_handshake(params: &DefaultServerParameters, out: &mut Vec<u8>) -> (r: Result<(), ProtocolError>)
    ensures
        match r {
            Ok(()) => handshake_fits(*params) && final(out)@ == old(out)@ + handshake_bytes(*params),
            Err(e) => e == ProtocolError::MessageTooLarge && !handshake_fits(*params) && final(out)@
                == old(out)@,
        },
{
    let mut buf: Vec<u8> = Vec::new();
    ServerMessage::AuthenticationOk.write(&mut buf);
    let r = write_status_list(&mut buf, params);
    match r {
        Err(e) => {
            return Err(e);
        },
        Ok(()) => {},
    }
    ServerMessage::BackendKeyData { process_id: 0, secret_key: 0 }.write(&mut buf);
    ServerMessage::ReadyForQuery { transaction_status: IDLE }.write(&mut buf);
    let ghost start = out@;
    out.append(&mut buf);
    assert(out@ =~= start + handshake_bytes(*params));
    Ok(())
}

fn write_status_list(buf: &mut Vec<u8>, p: &DefaultServerParameters) -> (r: Result<(), ProtocolError>)
    ensures
        match r {
            Ok(()) => handshake_fits(*p) && final(buf)@ == old(buf)@ + statuses_bytes(status_pairs(*p)),
            Err(e) => e == ProtocolError::MessageTooLarge && !handshake_fits(*p),
        },
{
    let ghost pairs = status_pairs(*p);
    let ghost start = buf@;
    let names: [&str; 12] = [
        "server_version",
        "server_encoding",
        "client_encoding",
        "application_name",
        "default_transaction_read_only",
        "in_hot_standby",
        "is_superuser",
        "DateStyle",
        "IntervalStyle",
        "TimeZone",
        "integer_datetimes",
        "standard_conforming_strings",
    ];
    let values: [&String; 12] = [
        &p.server_version,
        &p.server_encoding,
        &p.client_encoding,
        &p.application_name,
        &p.default_transaction_read_only,
        &p.in_hot_standby,
        &p.is_superuser,
        &p.date_style,
        &p.interval_style,
        &p.time_zone,
        &p.integer_datetimes,
        &p.standard_conforming_strings,
    ];
    assert(forall|k: int| 0 <= k < 12 ==> (#[trigger] names@[k])@ == pairs[k].0 && values@[k]@ == pairs[k].1);
    let mut i: usize = 0;
    assert(pairs.take(0) =~= Seq::<(Seq<char>, Seq<char>)>::empty());
    while i < 12
        invariant
            i <= 12,
            pairs == status_pairs(*p),
            pairs.len() == 12,
            names@.len() == 12,
            values@.len() == 12,
            forall|k: int| 0 <= k < 12 ==> (#[trigger] names@[k])@ == pairs[k].0 && values@[k]@ == pairs[k].1,
            forall|k: int| 0 <= k < i ==> server_message_fits(#[trigger] status_message(pairs[k])),
            buf@ == start + statuses_bytes(pairs.take(i as int)),
        decreases 12 - i,
    {
        let ghost before = buf@;
        match write_status(buf, names[i], values[i]) {
            Err(e) => {
                return Err(e);
            },
            Ok(()) => {},
        }
        proof {
            assert(pairs.take(i + 1).drop_last() =~= pairs.take(i as int));
            assert(pairs.take(i + 1).last() == pairs[i as int]);
            assert(buf@ =~= start + statuses_bytes(pairs.take(i + 1)));
        }
        i = i + 1;
    }
    assert(pairs.take(12) =~= pairs);
    Ok(())
}

/// A failure the handler reports.
#[derive(Debug)]
pub struct HandlerError {
    pub message: String,
}

/// Why a session ends.
#[derive(Debug)]
pub enum SessionError {
    /// The client broke the protocol, or a reply would not fit the protocol.
    Protocol(ProtocolError),
    /// The handler failed.
    Handler(HandlerError),
}

/// What the session does after a message.
#[derive(Debug, Clone, Copy, PartialEq, Eq, Structural)]
pub enum Flow {
    Continue,
    Terminate,
}

/// The back end that gives SQL its meaning: statements, portals, rows.
pub trait PostgresShim<PortalData> {
    fn prepare(&mut self, query_name: String, query: String, parameter_types: Vec<u32>) -> Result<
        (),
        HandlerError,
    >;

    fn bind(&mut self, query_name: String, parameters: Vec<ParameterValue>) -> Result<
        PortalData,
        HandlerError,
    >;

    fn describe(&mut self, portal: &PortalData) -> Result<Option<Vec<Column>>, HandlerError>;

    /// Runs the portal and writes its result through `result_writer`,
    /// handing back what the writer completed.
    fn execute(
        &mut self,
        portal: PortalData,
        max_rows: u32,
        columns: Option<Vec<Column>>,
        result_writer: ResultWriter,
    ) -> Result<CompletedResult, HandlerError>;

    fn default_parameters(&mut self) -> DefaultServerParameters;
}

pub open spec fn columns_of(c: Option<Vec<Column>>) -> Option<Seq<Column>> {
    match c {
        Some(v) => Some(v@),
        None => None,
    }
}

/// An open cursor: the handler's state for it, its columns once described,
/// and the result formats the client asked for.
pub struct Portal<PortalData> {
    portal_data: PortalData,
    columns: Option<Vec<Column>>,
    result_format_codes: Vec<FormatCode>,
}

impl<PortalData> Portal<PortalData> {
    pub closed spec fn formats(&self) -> Seq<FormatCode> {
        self.result_format_codes@
    }

    pub closed spec fn data_view(&self) -> PortalData {
        self.portal_data
    }

    /// The columns stored when the portal was described.
    pub closed spec fn columns(&self) -> Option<Seq<Column>> {
        columns_of(self.columns)
    }

    pub open spec fn described(&self) -> bool {
        self.columns() is Some
    }

    pub fn new(portal_data: PortalData, result_format_codes: Vec<FormatCode>) -> (r: Self)
        ensures
            r.formats() == result_format_codes@,
            !r.described(),
    {
        Portal { portal_data, columns: None, result_format_codes }
    }

    pub fn add_columns(&mut self, columns: Option<Vec<Column>>)
        ensures
            final(self).formats() == old(self).formats(),
            final(self).columns() == columns_of(columns),
            final(self).data_view() == old(self).data_view(),
    {
        self.columns = columns;
    }

    pub fn data(self) -> (r: (PortalData, Option<Vec<Column>>))
        ensures
            r.0 == self.data_view(),
            columns_of(r.1) == self.columns(),
    {
        (self.portal_data, self.columns)
    }
}

/// The text of the error sent for an Execute or Describe of an unknown portal.
pub open spec fn portal_not_found() -> Seq<char> {
    "Portal not found"@
}

/// The severity code of that error.
pub const SEVERITY_CODE: u8 = 83;

pub open spec fn portal_not_found_bytes() -> Seq<u8> {
    server_message_bytes(
        ServerMessageView::ErrorResponse { code: SEVERITY_CODE, message: portal_not_found() },
    )
}

/// One connection's state once the handshake is done: the handler and the
/// open portals, each under a name of its own.
pub struct PostgressIntermediary<Shim, PortalData> {
    shim: Shim,
    portals: Vec<(String, Portal<PortalData>)>,
}

impl<Shim: PostgresShim<PortalData>, PortalData> PostgressIntermediary<Shim, PortalData> {
    /// No two portals share a name.
    pub closed spec fn wf(&self) -> bool {
        forall|i: int, j: int|
            0 <= i < j < self.portals@.len() ==> (#[trigger] self.portals@[i]).0@
                != (#[trigger] self.portals@[j]).0@
    }

    pub closed spec fn has_portal(&self, name: Seq<char>) -> bool {
        exists|i: int| 0 <= i < self.portals@.len() && (#[trigger] self.portals@[i]).0@ == name
    }

    /// The result formats stored with the portal `name`.
    pub closed spec fn portal_formats(&self, name: Seq<char>) -> Seq<FormatCode> {
        let i = choose|i: int| 0 <= i < self.portals@.len() && (#[trigger] self.portals@[i]).0@ == name;
        self.portals@[i].1.formats()
    }

    /// The columns stored with the portal `name` when it was described.
    pub closed spec fn portal_columns(&self, name: Seq<char>) -> Option<Seq<Column>> {
        let i = choose|i: int| 0 <= i < self.portals@.len() && (#[trigger] self.portals@[i]).0@ == name;
        self.portals@[i].1.columns()
    }

    /// Whether the portal `name` has been described.
    pub open spec fn portal_described(&self, name: Seq<char>) -> bool {
        self.portal_columns(name) is Some
    }

    pub fn new(shim: Shim) -> (r: Self)
        ensures
            r.wf(),
            forall|n: Seq<char>| !r.has_portal(n),
    {
        PostgressIntermediary { shim, portals: Vec::new() }
    }

    /// Ends the session, handing back its handler.
    pub fn into_shim(self) -> Shim {
        self.shim
    }

    /// Writes the request for a cleartext password, sent after the startup
    /// message.
    pub fn request_password(&self, out: &mut Vec<u8>)
        ensures
            final(out)@ == old(out)@ + server_message_bytes(
                ServerMessageView::AuthenticationCleartextPassword,
            ),
    {
        ServerMessage::AuthenticationCleartextPassword.write(out);
    }

    /// Writes the messages that end the handshake, with the handler's
    /// parameter values.
    pub fn complete_handshake(&mut self, out: &mut Vec<u8>) -> (r: Result<(), SessionError>)
        requires
            old(self).wf(),
        ensures
            final(self).wf(),
            forall|n: Seq<char>| final(self).has_portal(n) == old(self).has_portal(n),
            exists|p: DefaultServerParameters|
                {
                    &&& r is Ok ==> handshake_fits(p) && final(out)@ == old(out)@ + handshake_bytes(p)
                    &&& r is Err ==> r == Err::<(), SessionError>(
                        SessionError::Protocol(ProtocolError::MessageTooLarge),
                    ) && !handshake_fits(p) && final(out)@ == old(out)@
                },
    {
        let params = self.shim.default_parameters();
        assert(self.portals@ == old(self).portals@);
        match write_handshake(&params, out) {
            Ok(()) => Ok(()),
            Err(e) => Err(SessionError::Protocol(e)),
        }
    }

    fn find_portal(&self, name: &String) -> (r: Option<usize>)
        ensures
            match r {
                Some(i) => i < self.portals@.len() && self.portals@[i as int].0@ == name@,
                None => !self.has_portal(name@),
            },
    {
        let mut i: usize = 0;
        while i < self.portals.len()
            invariant
                i <= self.portals@.len(),
                forall|k: int| 0 <= k < i ==> (#[trigger] self.portals@[k]).0@ != name@,
            decreases self.portals.len() - i,
        {
            if self.portals[i].0 == *name {
                return Some(i);
            }
            i = i + 1;
        }
        None
    }

    fn remove_portal(&mut self, i: usize) -> (r: (String, Portal<PortalData>))
        requires
            old(self).wf(),
            i < old(self).portals@.len(),
        ensures
            final(self).wf(),
            r == old(self).portals@[i as int],
            !final(self).has_portal(r.0@),
            forall|n: Seq<char>| n != r.0@ ==> final(self).has_portal(n) == old(self).has_portal(n),
            forall|n: Seq<char>|
                n != r.0@ && old(self).has_portal(n) ==> final(self).portal_formats(n) == old(
                    self,
                ).portal_formats(n) && final(self).portal_columns(n) == old(self).portal_columns(n),
    {
        let ghost before = self.portals@;
        let r = self.portals.remove(i);
        proof {
            assert forall|n: Seq<char>| n != r.0@ implies self.has_portal(n) == old(self).has_portal(n) by {
                if old(self).has_portal(n) {
                    let k = choose|k: int| 0 <= k < before.len() && (#[trigger] before[k]).0@ == n;
                    let k2 = if k < i { k } else { k - 1 };
                    assert(self.portals@[k2] == before[k]);
                }
                if self.has_portal(n) {
                    let k = choose|k: int| 0 <= k < self.portals@.len() && (#[trigger] self.portals@[k]).0@ == n;
                    let k2 = if k < i { k } else { k + 1 };
                    assert(before[k2] == self.portals@[k]);
                }
            }
            if self.has_portal(r.0@) {
                let k = choose|k: int| 0 <= k < self.portals@.len() && (#[trigger] self.portals@[k]).0@ == r.0@;
                let k2 = if k < i { k } else { k + 1 };
                assert(before[k2] == self.portals@[k]);
                assert(false);
            }
            assert forall|n: Seq<char>|
                n != r.0@ && old(self).has_portal(n) implies self.portal_formats(n) == old(
                self,
            ).portal_formats(n) && self.portal_columns(n) == old(self).portal_columns(n) by {
                let k = choose|k: int| 0 <= k < before.len() && (#[trigger] before[k]).0@ == n;
                let k2 = if k < i { k } else { k - 1 };
                assert(self.portals@[k2] == before[k]);
                let j = choose|j: int| 0 <= j < self.portals@.len() && (#[trigger] self.portals@[j]).0@ == n;
                let j2 = if j < i { j } else { j + 1 };
                assert(before[j2] == self.portals@[j]);
                assert(j2 == k);
            }
        }
        r
    }

    fn add_portal(&mut self, name: String, portal: Portal<PortalData>)
        requires
            old(self).wf(),
            !old(self).has_portal(name@),
        ensures
            final(self).wf(),
            final(self).has_portal(name@),
            final(self).portal_formats(name@) == portal.formats(),
            final(self).portal_columns(name@) == portal.columns(),
            forall|n: Seq<char>| n != name@ ==> final(self).has_portal(n) == old(self).has_portal(n),
            forall|n: Seq<char>|
                n != name@ && old(self).has_portal(n) ==> final(self).portal_formats(n) == old(
                    self,
                ).portal_formats(n) && final(self).portal_columns(n) == old(self).portal_columns(n),
    {
        let ghost before = self.portals@;
        let ghost nm = name@;
        let ghost pf = portal.formats();
        self.portals.push((name, portal));
        proof {
            let last = before.len() as int;
            assert(self.portals@[last].0@ == nm);
            assert forall|i: int, j: int|
                0 <= i < j < self.portals@.len() implies (#[trigger] self.portals@[i]).0@
                != (#[trigger] self.portals@[j]).0@ by {
                if j == last {
                    assert(before[i] == self.portals@[i]);
                }
            }
            assert forall|n: Seq<char>| n != nm implies self.has_portal(n) == old(self).has_portal(n) by {
                if old(self).has_portal(n) {
                    let k = choose|k: int| 0 <= k < before.len() && (#[trigger] before[k]).0@ == n;
                    assert(self.portals@[k] == before[k]);
                }
                if self.has_portal(n) {
                    let k = choose|k: int| 0 <= k < self.portals@.len() && (#[trigger] self.portals@[k]).0@ == n;
                    assert(before[k] == self.portals@[k]);
                }
            }
            let j = choose|j: int| 0 <= j < self.portals@.len() && (#[trigger] self.portals@[j]).0@ == nm;
            if j != last {
                assert(before[j] == self.portals@[j]);
            }
            assert forall|n: Seq<char>|
                n != nm && old(self).has_portal(n) implies self.portal_formats(n) == old(
                self,
            ).portal_formats(n) && self.portal_columns(n) == old(self).portal_columns(n) by {
                let k = choose|k: int| 0 <= k < before.len() && (#[trigger] before[k]).0@ == n;
                assert(self.portals@[k] == before[k]);
                let j = choose|j: int| 0 <= j < self.portals@.len() && (#[trigger] self.portals@[j]).0@ == n;
                if j != k {
                    assert(before[j] == self.portals@[j]);
                }
            }
        }
    }
}

/// Writes the error for an unknown portal.
fn write_portal_not_found(out: &mut Vec<u8>)
    ensures
        final(out)@ == old(out)@ + portal_not_found_bytes(),
{
    let text: &str = "Portal not found";
    proof {
        reveal_strlit("Portal not found");
        assert(is_ascii_chars(text@));
        is_ascii_chars_encode_utf8(text@);
    }
    let message = text.to_owned();
    ServerMessage::ErrorResponse { code: SEVERITY_CODE, message }.write(out);
}

proof fn lemma_columns_bytes_prefix_len(cs: Seq<(Seq<char>, u32, FormatCode)>, j: int)
    requires
        0 <= j <= cs.len(),
    ensures
        columns_bytes(cs.take(j)).len() <= columns_bytes(cs).len(),
    decreases cs.len(),
{
    if j < cs.len() {
        assert(cs.take(j) =~= cs.drop_last().take(j));
        lemma_columns_bytes_prefix_len(cs.drop_last(), j);
    } else {
        assert(cs.take(j) =~= cs);
    }
}

/// Whether the RowDescription for these columns fits the protocol's length
/// and count fields.
pub fn row_description_fits(columns: &Vec<Column>, formats: &Vec<FormatCode>) -> (r: bool)
    requires
        formats@.len() == columns@.len(),
    ensures
        r == server_message_fits(
            ServerMessageView::RowDescription { fields: description_fields(columns@, formats@) },
        ),
{
    let ghost cv = description_fields(columns@, formats@);
    if columns.len() > MAX_FIELD_COUNT {
        return false;
    }
    // bytes of the length field and the column count
    let mut total: usize = 6;
    let mut i: usize = 0;
    assert(cv.take(0) =~= Seq::<(Seq<char>, u32, FormatCode)>::empty());
    while i < columns.len()
        invariant
            i <= columns@.len(),
            formats@.len() == columns@.len(),
            columns@.len() <= MAX_FIELD_COUNT,
            cv == description_fields(columns@, formats@),
            total == columns_bytes(cv.take(i as int)).len() + 6,
            total <= MAX_MESSAGE_LENGTH,
        decreases columns.len() - i,
    {
        proof {
            assert(cv.take(i + 1).drop_last() =~= cv.take(i as int));
            lemma_columns_bytes_prefix_len(cv, i + 1);
        }
        let n = columns[i].name.as_str().as_bytes().len();
        if n > MAX_MESSAGE_LENGTH as usize {
            return false;
        }
        let size = n + 19;
        if size > MAX_MESSAGE_LENGTH as usize - total {
            return false;
        }
        total = total + size;
        i = i + 1;
    }
    assert(cv.take(i as int) =~= cv);
    true
}

/// What Describe writes for a portal with result formats `formats` once the
/// handler has answered `described`: NoData for no columns, else the
/// RowDescription of the columns in their negotiated formats.
pub open spec fn describe_outcome(formats: Seq<FormatCode>, described: Option<Seq<Column>>) -> Result<
    Seq<u8>,
    ProtocolError,
> {
    match described {
        None => Ok(server_message_bytes(ServerMessageView::NoData)),
        Some(cs) => match negotiated_formats(cs.len(), formats) {
            None => Err(ProtocolError::FormatCountMismatch),
            Some(fs) => {
                let m = ServerMessageView::RowDescription { fields: description_fields(cs, fs) };
                if server_message_fits(m) {
                    Ok(server_message_bytes(m))
                } else {
                    Err(ProtocolError::MessageTooLarge)
                }
            },
        },
    }
}

/// `e` is what Describe reports for some answer of the handler.
pub open spec fn describe_error(formats: Seq<FormatCode>, e: ProtocolError) -> bool {
    exists|d: Option<Seq<Column>>| #[trigger] describe_outcome(formats, d) == Err::<Seq<u8>, ProtocolError>(e)
}

/// Writes the reply to a Describe of a portal with result formats `formats`,
/// given the handler's answer; hands back the columns to store with the
/// portal. Nothing is written on failure.
pub fn describe_reply(formats: &Vec<FormatCode>, described: Option<Vec<Column>>, out: &mut Vec<u8>) -> (r:
    Result<Option<Vec<Column>>, ProtocolError>)
    ensures
        match describe_outcome(formats@, columns_of(described)) {
            Ok(b) => r matches Ok(c) && columns_of(c) == columns_of(described) && final(out)@ == old(out)@
                + b,
            Err(e) => r == Err::<Option<Vec<Column>>, ProtocolError>(e) && final(out)@ == old(out)@,
        },
{
    match described {
        None => {
            ServerMessage::NoData.write(out);
            Ok(None)
        },
        Some(columns) => {
            let fs = format_codes(&columns, formats)?;
            if !row_description_fits(&columns, &fs) {
                return Err(ProtocolError::MessageTooLarge);
            }
            row_description(&columns, &fs).write(out);
            Ok(Some(columns))
        },
    }
}

impl<Shim: PostgresShim<PortalData>, PortalData> PostgressIntermediary<Shim, PortalData> {
    /// Handles one message of the request loop, appending the server's answer
    /// to `out`. A `Protocol` error comes from the library alone, a `Handler`
    /// error from the handler alone; on either nothing is written.
    pub fn handle_message(&mut self, message: ClientMessage, out: &mut Vec<u8>) -> (r: Result<
        Flow,
        SessionError,
    >)
        requires
            old(self).wf(),
        ensures
            final(self).wf(),
            r is Err ==> final(out)@ == old(out)@,
            match message@ {
                ClientMessageView::Parse { .. } => {
                    &&& r is Ok ==> r == Ok::<Flow, SessionError>(Flow::Continue) && final(out)@ == old(out)@
                        + server_message_bytes(ServerMessageView::ParseComplete)
                    &&& r is Err ==> (r matches Err(SessionError::Handler(_)))
                },
                ClientMessageView::Bind { portal, parameter_format_codes, parameters, result_format_codes, .. } => {
                    &&& parameter_values_of(parameter_format_codes, parameters) is None ==> r == Err::<Flow, SessionError>(
                        SessionError::Protocol(ProtocolError::FormatCountMismatch),
                    )
                    &&& parameter_values_of(parameter_format_codes, parameters) is Some && r is Err ==> (r matches Err(
                        SessionError::Handler(_),
                    ))
                    &&& r is Err ==> forall|n: Seq<char>| final(self).has_portal(n) == old(self).has_portal(n)
                    &&& r is Ok ==> {
                        &&& r == Ok::<Flow, SessionError>(Flow::Continue)
                        &&& final(out)@ == old(out)@ + server_message_bytes(ServerMessageView::BindComplete)
                        &&& final(self).has_portal(portal)
                        &&& final(self).portal_formats(portal) == result_format_codes
                        &&& final(self).portal_columns(portal) is None
                        &&& forall|n: Seq<char>| n != portal ==> final(self).has_portal(n) == old(self).has_portal(n)
                    }
                },
                ClientMessageView::Execute { portal, .. } => {
                    &&& !final(self).has_portal(portal)
                    &&& forall|n: Seq<char>| n != portal ==> final(self).has_portal(n) == old(self).has_portal(n)
                    &&& !old(self).has_portal(portal) ==> r == Ok::<Flow, SessionError>(Flow::Continue)
                        && final(out)@ == old(out)@ + portal_not_found_bytes()
                    &&& old(self).has_portal(portal) && r is Ok ==> r == Ok::<Flow, SessionError>(Flow::Continue)
                        && exists|b: Seq<u8>| ends_result(b) && final(out)@ == old(out)@ + b
                    &&& r is Err ==> old(self).has_portal(portal) && (r matches Err(SessionError::Handler(_)))
                },
                ClientMessageView::Describe(DescribeView::Portal(name)) => {
                    &&& forall|n: Seq<char>| final(self).has_portal(n) == old(self).has_portal(n)
                    &&& forall|n: Seq<char>| old(self).has_portal(n) ==> final(self).portal_formats(n) == old(self).portal_formats(n)
                    &&& !old(self).has_portal(name) ==> r == Ok::<Flow, SessionError>(Flow::Continue)
                        && final(out)@ == old(out)@ + portal_not_found_bytes()
                    &&& r is Ok ==> r == Ok::<Flow, SessionError>(Flow::Continue)
                    &&& old(self).has_portal(name) && r is Ok ==> exists|d: Option<Seq<Column>>|
                        #[trigger] describe_outcome(old(self).portal_formats(name), d) == Ok::<Seq<u8>, ProtocolError>(
                            final(out)@.skip(old(out)@.len() as int),
                        ) && final(out)@.len() >= old(out)@.len() && final(out)@.take(old(out)@.len() as int) == old(out)@
                            && final(self).portal_columns(name) == d
                    &&& r is Err ==> (r matches Err(SessionError::Handler(_))) || (r->Err_0 is Protocol
                        && describe_error(old(self).portal_formats(name), r->Err_0->Protocol_0))
                },
                ClientMessageView::Describe(DescribeView::Statement(_)) => r == Err::<Flow, SessionError>(
                    SessionError::Protocol(ProtocolError::StatementDescribeUnsupported),
                ),
                ClientMessageView::Sync => r == Ok::<Flow, SessionError>(Flow::Continue) && final(out)@
                    == old(out)@ + ready_for_query_bytes(),
                ClientMessageView::Query { .. } => r == Ok::<Flow, SessionError>(Flow::Continue)
                    && final(out)@ == old(out)@,
                ClientMessageView::Terminate => r == Ok::<Flow, SessionError>(Flow::Terminate)
                    && final(out)@ == old(out)@,
            },
            match message@ {
                ClientMessageView::Parse { .. } | ClientMessageView::Sync | ClientMessageView::Query { .. }
                | ClientMessageView::Terminate | ClientMessageView::Describe(DescribeView::Statement(_)) =>
                    forall|n: Seq<char>| final(self).has_portal(n) == old(self).has_portal(n),
                _ => true,
            },
    {
        let ghost mv = message@;
        match message {
            ClientMessage::Parse { name, query, parameters_types } => {
                let prepared = self.shim.prepare(name, query, parameters_types);
                assert(self.portals@ == old(self).portals@);
                match prepared {
                    Err(e) => {
                        return Err(SessionError::Handler(e));
                    },
                    Ok(()) => {},
                }
                ServerMessage::ParseComplete.write(out);
                Ok(Flow::Continue)
            },
            ClientMessage::Bind { portal, name, parameter_format_codes, parameters, result_format_codes } => {
                let values = match parameter_values(&parameter_format_codes, &parameters) {
                    Ok(v) => v,
                    Err(e) => {
                        return Err(SessionError::Protocol(e));
                    },
                };
                let bound = self.shim.bind(name, values);
                assert(self.portals@ == old(self).portals@);
                let data = match bound {
                    Err(e) => {
                        return Err(SessionError::Handler(e));
                    },
                    Ok(d) => d,
                };
                let ghost before = *self;
                match self.find_portal(&portal) {
                    Some(i) => {
                        let _ = self.remove_portal(i);
                    },
                    None => {},
                }
                let ghost mid = *self;
                self.add_portal(portal, Portal::new(data, result_format_codes));
                proof {
                    assert forall|n: Seq<char>| n != mv->Bind_portal implies self.has_portal(n)
                        == old(self).has_portal(n) by {
                        assert(mid.has_portal(n) == before.has_portal(n));
                    }
                }
                ServerMessage::BindComplete.write(out);
                Ok(Flow::Continue)
            },
            ClientMessage::Execute { portal, max_rows } => {
                match self.find_portal(&portal) {
                    None => {
                        write_portal_not_found(out);
                        Ok(Flow::Continue)
                    },
                    Some(i) => {
                        let (_, entry) = self.remove_portal(i);
                        let formats = entry.result_format_codes;
                        let data = entry.portal_data;
                        let columns = entry.columns;
                        let ghost after = *self;
                        let result = self.shim.execute(data, max_rows, columns, ResultWriter::new(formats));
                        assert(self.portals@ == after.portals@);
                        let result = match result {
                            Err(e) => {
                                return Err(SessionError::Handler(e));
                            },
                            Ok(c) => c,
                        };
                        let mut bytes = result.into_bytes();
                        out.append(&mut bytes);
                        Ok(Flow::Continue)
                    },
                }
            },
            ClientMessage::Describe(Describe::Portal { name }) => {
                match self.find_portal(&name) {
                    None => {
                        write_portal_not_found(out);
                        Ok(Flow::Continue)
                    },
                    Some(i) => {
                        proof {
                            let j = choose|j: int| 0 <= j < self.portals@.len() && (#[trigger] self.portals@[j]).0@ == name@;
                            if j != i {
                                if j < i {
                                    assert(self.portals@[j].0@ != self.portals@[i as int].0@);
                                } else {
                                    assert(self.portals@[i as int].0@ != self.portals@[j].0@);
                                }
                            }
                            assert(self.portal_formats(name@) == self.portals@[i as int].1.formats());
                        }
                        let described = self.shim.describe(&self.portals[i].1.portal_data);
                        assert(self.portals@ == old(self).portals@);
                        let described = match described {
                            Err(e) => {
                                return Err(SessionError::Handler(e));
                            },
                            Ok(d) => d,
                        };
                        let ghost dv = columns_of(described);
                        assert(self.portals@[i as int].1.formats() == old(self).portal_formats(name@));
                        let ghost start = out@;
                        let reply = describe_reply(&self.portals[i].1.result_format_codes, described, out);
                        let stored = match reply {
                            Err(e) => {
                                proof {
                                    assert(describe_outcome(old(self).portal_formats(name@), dv) is Err);
                                    assert(e == describe_outcome(old(self).portal_formats(name@), dv)->Err_0);
                                }
                                assert(describe_error(old(self).portal_formats(name@), e));
                                assert(self.portals@ == old(self).portals@);
                                return Err(SessionError::Protocol(e));
                            },
                            Ok(c) => c,
                        };
                        proof {
                            assert(out@.skip(start.len() as int) =~= describe_outcome(
                                old(self).portal_formats(name@),
                                dv,
                            )->Ok_0);
                            assert(out@.take(start.len() as int) =~= start);
                        }
                        let ghost before = *self;
                        let (key, mut entry) = self.remove_portal(i);
                        entry.add_columns(stored);
                        let ghost mid = *self;
                        self.add_portal(key, entry);
                        proof {
                            assert forall|n: Seq<char>| self.has_portal(n) == old(self).has_portal(n) by {
                                if n != name@ {
                                    assert(mid.has_portal(n) == before.has_portal(n));
                                }
                            }
                            assert(describe_outcome(old(self).portal_formats(name@), dv) is Ok);
                        }
                        Ok(Flow::Continue)
                    },
                }
            },
            ClientMessage::Describe(Describe::Statement { .. }) => Err(
                SessionError::Protocol(ProtocolError::StatementDescribeUnsupported),
            ),
            ClientMessage::Sync => {
                ServerMessage::ReadyForQuery { transaction_status: IDLE }.write(out);
                Ok(Flow::Continue)
            },
            ClientMessage::Query { .. } => Ok(Flow::Continue),
            ClientMessage::Terminate => Ok(Flow::Terminate),
        }
    }
}

} // verus!
