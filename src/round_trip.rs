use vstd::prelude::*;

use crate::client_message::{
    spec_password_frame, spec_startup_frame, spec_startup_pairs, startup_fields, StartupView,
    TAG_PASSWORD, CANCEL_REQUEST_CODE, SSL_REQUEST_CODE, code_of_format, format_of_code, known_type_oid, spec_client_frame, spec_parse_body, spec_read_codes,
    spec_read_oids, spec_read_text, spec_read_value, spec_read_values, ClientMessageView, DescribeView,
    FormatCode, DESCRIBE_PORTAL, DESCRIBE_STATEMENT, NULL_LENGTH, TAG_BIND, TAG_DESCRIBE,
    TAG_EXECUTE, TAG_PARSE, TAG_QUERY, TAG_SYNC, TAG_TERMINATE,
};
use crate::wire::{
    be16, be32, cstr, lemma_read_cstr_at, lemma_read_u16_at, lemma_read_u32_at, utf8_lossy, ProtocolError,
};

verus! {

/// A message of the request loop with each text given as the bytes it is
/// written with.
pub enum WireClientMessage {
    Query { query: Seq<u8> },
    Parse { name: Seq<u8>, query: Seq<u8>, parameters_types: Seq<u32> },
    Bind {
        portal: Seq<u8>,
        name: Seq<u8>,
        parameter_format_codes: Seq<FormatCode>,
        parameters: Seq<Option<Seq<u8>>>,
        result_format_codes: Seq<FormatCode>,
    },
    Execute { portal: Seq<u8>, max_rows: u32 },
    DescribeStatement { name: Seq<u8> },
    DescribePortal { name: Seq<u8> },
    Sync,
    Terminate,
}

pub open spec fn codes_bytes(cs: Seq<FormatCode>) -> Seq<u8>
    decreases cs.len(),
{
    if cs.len() == 0 {
        Seq::empty()
    } else {
        codes_bytes(cs.drop_last()) + be16(code_of_format(cs.last()))
    }
}

pub open spec fn oids_bytes(os: Seq<u32>) -> Seq<u8>
    decreases os.len(),
{
    if os.len() == 0 {
        Seq::empty()
    } else {
        oids_bytes(os.drop_last()) + be32(os.last())
    }
}

/// One Bind parameter: its length and bytes, or length -1 for NULL.
pub open spec fn value_bytes(v: Option<Seq<u8>>) -> Seq<u8> {
    match v {
        Some(d) => be32(d.len() as u32) + d,
        None => be32(NULL_LENGTH),
    }
}

pub open spec fn values_bytes(vs: Seq<Option<Seq<u8>>>) -> Seq<u8>
    decreases vs.len(),
{
    if vs.len() == 0 {
        Seq::empty()
    } else {
        values_bytes(vs.drop_last()) + value_bytes(vs.last())
    }
}

pub open spec fn wire_tag(m: WireClientMessage) -> u8 {
    match m {
        WireClientMessage::Query { .. } => TAG_QUERY,
        WireClientMessage::Parse { .. } => TAG_PARSE,
        WireClientMessage::Bind { .. } => TAG_BIND,
        WireClientMessage::Execute { .. } => TAG_EXECUTE,
        WireClientMessage::DescribeStatement { .. } => TAG_DESCRIBE,
        WireClientMessage::DescribePortal { .. } => TAG_DESCRIBE,
        WireClientMessage::Sync => TAG_SYNC,
        WireClientMessage::Terminate => TAG_TERMINATE,
    }
}

/// What follows the length field of a client message.
pub open spec fn wire_payload(m: WireClientMessage) -> Seq<u8> {
    match m {
        WireClientMessage::Query { query } => cstr(query),
        WireClientMessage::Parse { name, query, parameters_types } => cstr(name) + cstr(query) + be16(
            parameters_types.len() as u16,
        ) + oids_bytes(parameters_types),
        WireClientMessage::Bind {
            portal,
            name,
            parameter_format_codes,
            parameters,
            result_format_codes,
        } => cstr(portal) + cstr(name) + be16(parameter_format_codes.len() as u16) + codes_bytes(
            parameter_format_codes,
        ) + be16(parameters.len() as u16) + values_bytes(parameters) + be16(
            result_format_codes.len() as u16,
        ) + codes_bytes(result_format_codes),
        WireClientMessage::Execute { portal, max_rows } => cstr(portal) + be32(max_rows),
        WireClientMessage::DescribeStatement { name } => seq![DESCRIBE_STATEMENT] + cstr(name),
        WireClientMessage::DescribePortal { name } => seq![DESCRIBE_PORTAL] + cstr(name),
        WireClientMessage::Sync => Seq::empty(),
        WireClientMessage::Terminate => Seq::empty(),
    }
}

/// The bytes a client sends for `m`: tag, length (counting itself), payload.
pub open spec fn client_message_bytes(m: WireClientMessage) -> Seq<u8> {
    seq![wire_tag(m)] + be32((wire_payload(m).len() + 4) as u32) + wire_payload(m)
}

/// The message as the server reads it: each text is the text of its bytes.
pub open spec fn text_view(m: WireClientMessage) -> ClientMessageView {
    match m {
        WireClientMessage::Query { query } => ClientMessageView::Query { query: utf8_lossy(query) },
        WireClientMessage::Parse { name, query, parameters_types } => ClientMessageView::Parse {
            name: utf8_lossy(name),
            query: utf8_lossy(query),
            parameters_types,
        },
        WireClientMessage::Bind {
            portal,
            name,
            parameter_format_codes,
            parameters,
            result_format_codes,
        } => ClientMessageView::Bind {
            portal: utf8_lossy(portal),
            name: utf8_lossy(name),
            parameter_format_codes,
            parameters,
            result_format_codes,
        },
        WireClientMessage::Execute { portal, max_rows } => ClientMessageView::Execute {
            portal: utf8_lossy(portal),
            max_rows,
        },
        WireClientMessage::DescribeStatement { name } => ClientMessageView::Describe(
            DescribeView::Statement(utf8_lossy(name)),
        ),
        WireClientMessage::DescribePortal { name } => ClientMessageView::Describe(
            DescribeView::Portal(utf8_lossy(name)),
        ),
        WireClientMessage::Sync => ClientMessageView::Sync,
        WireClientMessage::Terminate => ClientMessageView::Terminate,
    }
}

/// A text the protocol can carry: no NUL byte inside.
pub open spec fn plain(s: Seq<u8>) -> bool {
    !s.contains(0u8)
}

pub open spec fn value_fits(v: Option<Seq<u8>>) -> bool {
    match v {
        Some(d) => d.len() < 0x8000_0000,
        None => true,
    }
}

/// The message can be written and read back: texts without NUL bytes, counts
/// within 16 bits, parameter lengths within 31 bits, type OIDs the catalogue
/// knows, and a length that fits its field.
pub open spec fn wire_message_valid(m: WireClientMessage) -> bool {
    &&& wire_payload(m).len() + 4 <= u32::MAX
    &&& match m {
        WireClientMessage::Query { query } => plain(query),
        WireClientMessage::Parse { name, query, parameters_types } => plain(name) && plain(query)
            && parameters_types.len() <= u16::MAX && forall|i: int|
            0 <= i < parameters_types.len() ==> known_type_oid(#[trigger] parameters_types[i]),
        WireClientMessage::Bind {
            portal,
            name,
            parameter_format_codes,
            parameters,
            result_format_codes,
        } => plain(portal) && plain(name) && parameter_format_codes.len() <= u16::MAX
            && parameters.len() <= u16::MAX && result_format_codes.len() <= u16::MAX && forall|i: int|
            0 <= i < parameters.len() ==> value_fits(#[trigger] parameters[i]),
        WireClientMessage::Execute { portal, .. } => plain(portal),
        WireClientMessage::DescribeStatement { name } => plain(name),
        WireClientMessage::DescribePortal { name } => plain(name),
        WireClientMessage::Sync => true,
        WireClientMessage::Terminate => true,
    }
}

proof fn lemma_read_codes_at(b: Seq<u8>, p: int, cs: Seq<FormatCode>)
    requires
        0 <= p,
        p + codes_bytes(cs).len() <= b.len(),
        b.subrange(p, p + codes_bytes(cs).len()) == codes_bytes(cs),
    ensures
        codes_bytes(cs).len() == 2 * cs.len(),
        spec_read_codes(b, p, cs.len()) == Ok::<(Seq<FormatCode>, int), ProtocolError>(
            (cs, p + codes_bytes(cs).len()),
        ),
    decreases cs.len(),
{
    if cs.len() == 0 {
        assert(cs =~= Seq::<FormatCode>::empty());
    } else {
        let pre = codes_bytes(cs.drop_last());
        let f = cs.last();
        assert(codes_bytes(cs) == pre + be16(code_of_format(f)));
        assert((cs.len() - 1) as nat == cs.drop_last().len());
        let whole = b.subrange(p, p + codes_bytes(cs).len());
        assert(whole.subrange(0, pre.len() as int) =~= pre);
        assert(b.subrange(p, p + pre.len()) =~= whole.subrange(0, pre.len() as int));
        lemma_read_codes_at(b, p, cs.drop_last());
        let q = p + pre.len();
        assert(b.subrange(q, q + 2) =~= whole.subrange(pre.len() as int, pre.len() as int + 2));
        assert(whole.subrange(pre.len() as int, pre.len() as int + 2) =~= be16(code_of_format(f)));
        lemma_read_u16_at(b, q, code_of_format(f));
        assert(format_of_code(code_of_format(f)) == Some(f));
        assert(cs.drop_last().push(f) =~= cs);
    }
}

proof fn lemma_read_oids_at(b: Seq<u8>, p: int, os: Seq<u32>)
    requires
        0 <= p,
        p + oids_bytes(os).len() <= b.len(),
        b.subrange(p, p + oids_bytes(os).len()) == oids_bytes(os),
        forall|i: int| 0 <= i < os.len() ==> known_type_oid(#[trigger] os[i]),
    ensures
        oids_bytes(os).len() == 4 * os.len(),
        spec_read_oids(b, p, os.len()) == Ok::<(Seq<u32>, int), ProtocolError>(
            (os, p + oids_bytes(os).len()),
        ),
    decreases os.len(),
{
    if os.len() == 0 {
        assert(os =~= Seq::<u32>::empty());
    } else {
        let pre = oids_bytes(os.drop_last());
        let o = os.last();
        assert(oids_bytes(os) == pre + be32(o));
        assert((os.len() - 1) as nat == os.drop_last().len());
        let whole = b.subrange(p, p + oids_bytes(os).len());
        assert(whole.subrange(0, pre.len() as int) =~= pre);
        assert(b.subrange(p, p + pre.len()) =~= whole.subrange(0, pre.len() as int));
        assert forall|i: int| 0 <= i < os.drop_last().len() implies known_type_oid(
            #[trigger] os.drop_last()[i],
        ) by {
            assert(os.drop_last()[i] == os[i]);
        }
        lemma_read_oids_at(b, p, os.drop_last());
        let q = p + pre.len();
        assert(b.subrange(q, q + 4) =~= whole.subrange(pre.len() as int, pre.len() as int + 4));
        assert(whole.subrange(pre.len() as int, pre.len() as int + 4) =~= be32(o));
        lemma_read_u32_at(b, q, o);
        assert(known_type_oid(os[os.len() - 1]));
        assert(os.drop_last().push(o) =~= os);
    }
}

proof fn lemma_read_value_at(b: Seq<u8>, p: int, v: Option<Seq<u8>>)
    requires
        0 <= p,
        p + value_bytes(v).len() <= b.len(),
        b.subrange(p, p + value_bytes(v).len()) == value_bytes(v),
        value_fits(v),
    ensures
        spec_read_value(b, p) == Ok::<(Option<Seq<u8>>, int), ProtocolError>((v, p + value_bytes(v).len())),
{
    let whole = b.subrange(p, p + value_bytes(v).len());
    assert(b.subrange(p, p + 4) =~= whole.subrange(0, 4));
    match v {
        None => {
            assert(whole.subrange(0, 4) =~= be32(NULL_LENGTH));
            lemma_read_u32_at(b, p, NULL_LENGTH);
        },
        Some(d) => {
            let len = d.len() as u32;
            assert(whole.subrange(0, 4) =~= be32(len));
            lemma_read_u32_at(b, p, len);
            assert(b.subrange(p + 4, p + 4 + len) =~= whole.subrange(4, 4 + len as int));
            assert(whole.subrange(4, 4 + len as int) =~= d);
        },
    }
}

proof fn lemma_read_values_at(b: Seq<u8>, p: int, vs: Seq<Option<Seq<u8>>>)
    requires
        0 <= p,
        p + values_bytes(vs).len() <= b.len(),
        b.subrange(p, p + values_bytes(vs).len()) == values_bytes(vs),
        forall|i: int| 0 <= i < vs.len() ==> value_fits(#[trigger] vs[i]),
    ensures
        spec_read_values(b, p, vs.len()) == Ok::<(Seq<Option<Seq<u8>>>, int), ProtocolError>(
            (vs, p + values_bytes(vs).len()),
        ),
    decreases vs.len(),
{
    if vs.len() == 0 {
        assert(vs =~= Seq::<Option<Seq<u8>>>::empty());
    } else {
        let pre = values_bytes(vs.drop_last());
        let v = vs.last();
        assert(values_bytes(vs) == pre + value_bytes(v));
        assert((vs.len() - 1) as nat == vs.drop_last().len());
        let whole = b.subrange(p, p + values_bytes(vs).len());
        assert(whole.subrange(0, pre.len() as int) =~= pre);
        assert(b.subrange(p, p + pre.len()) =~= whole.subrange(0, pre.len() as int));
        assert forall|i: int| 0 <= i < vs.drop_last().len() implies value_fits(
            #[trigger] vs.drop_last()[i],
        ) by {
            assert(vs.drop_last()[i] == vs[i]);
        }
        lemma_read_values_at(b, p, vs.drop_last());
        let q = p + pre.len();
        let n = value_bytes(v).len();
        assert(b.subrange(q, q + n) =~= whole.subrange(pre.len() as int, pre.len() as int + n));
        assert(whole.subrange(pre.len() as int, pre.len() as int + n) =~= value_bytes(v));
        assert(value_fits(vs[vs.len() - 1]));
        lemma_read_value_at(b, q, v);
        assert(vs.drop_last().push(v) =~= vs);
    }
}

proof fn lemma_read_text_at(b: Seq<u8>, p: int, s: Seq<u8>)
    requires
        0 <= p,
        p + s.len() + 1 <= b.len(),
        b.subrange(p, p + s.len() + 1) == cstr(s),
        plain(s),
    ensures
        spec_read_text(b, p) == Ok::<(Seq<char>, int), ProtocolError>((utf8_lossy(s), p + s.len() + 1)),
{
    lemma_read_cstr_at(b, p, s);
}

proof fn lemma_parse_body(name: Seq<u8>, query: Seq<u8>, parameters_types: Seq<u32>)
    requires
        wire_message_valid(WireClientMessage::Parse { name, query, parameters_types }),
    ensures
        spec_parse_body(TAG_PARSE, wire_payload(WireClientMessage::Parse { name, query, parameters_types }))
            == Ok::<ClientMessageView, ProtocolError>(
            text_view(WireClientMessage::Parse { name, query, parameters_types }),
        ),
{
    let b = wire_payload(WireClientMessage::Parse { name, query, parameters_types });
    let n = parameters_types.len() as u16;
    let p1: int = name.len() as int + 1;
    let p2: int = p1 + query.len() + 1;
    let p3: int = p2 + 2;
    assert(b.subrange(0, p1) =~= cstr(name));
    lemma_read_text_at(b, 0, name);
    assert(b.subrange(p1, p2) =~= cstr(query));
    lemma_read_text_at(b, p1, query);
    assert(b.subrange(p2, p3) =~= be16(n));
    lemma_read_u16_at(b, p2, n);
    assert(b.subrange(p3, b.len() as int) =~= oids_bytes(parameters_types));
    lemma_read_oids_at(b, p3, parameters_types);
}

#[verifier::rlimit(50)]
proof fn lemma_bind_body(
    portal: Seq<u8>,
    name: Seq<u8>,
    parameter_format_codes: Seq<FormatCode>,
    parameters: Seq<Option<Seq<u8>>>,
    result_format_codes: Seq<FormatCode>,
)
    requires
        wire_message_valid(
            WireClientMessage::Bind { portal, name, parameter_format_codes, parameters, result_format_codes },
        ),
    ensures
        spec_parse_body(
            TAG_BIND,
            wire_payload(
                WireClientMessage::Bind { portal, name, parameter_format_codes, parameters, result_format_codes },
            ),
        ) == Ok::<ClientMessageView, ProtocolError>(
            text_view(
                WireClientMessage::Bind { portal, name, parameter_format_codes, parameters, result_format_codes },
            ),
        ),
{
    let b = wire_payload(
        WireClientMessage::Bind { portal, name, parameter_format_codes, parameters, result_format_codes },
    );
    let nf = parameter_format_codes.len() as u16;
    let np = parameters.len() as u16;
    let nr = result_format_codes.len() as u16;
    let c1 = cstr(portal);
    let c2 = cstr(name);
    let f1 = be16(nf);
    let cb1 = codes_bytes(parameter_format_codes);
    let f2 = be16(np);
    let vb = values_bytes(parameters);
    let f3 = be16(nr);
    let cb2 = codes_bytes(result_format_codes);
    assert(b == c1 + c2 + f1 + cb1 + f2 + vb + f3 + cb2);
    let p1: int = c1.len() as int;
    let p2: int = p1 + c2.len();
    let p3: int = p2 + 2;
    let p4: int = p3 + cb1.len();
    let p5: int = p4 + 2;
    let p6: int = p5 + vb.len();
    let p7: int = p6 + 2;
    assert(b.subrange(0, p1) =~= c1);
    lemma_read_text_at(b, 0, portal);
    assert(b.subrange(p1, p2) =~= c2);
    lemma_read_text_at(b, p1, name);
    assert(b.subrange(p2, p3) =~= f1);
    lemma_read_u16_at(b, p2, nf);
    assert(b.subrange(p3, p4) =~= cb1);
    lemma_read_codes_at(b, p3, parameter_format_codes);
    assert(b.subrange(p4, p5) =~= f2);
    lemma_read_u16_at(b, p4, np);
    assert(b.subrange(p5, p6) =~= vb);
    lemma_read_values_at(b, p5, parameters);
    assert(b.subrange(p6, p7) =~= f3);
    lemma_read_u16_at(b, p6, nr);
    assert(b.subrange(p7, b.len() as int) =~= cb2);
    lemma_read_codes_at(b, p7, result_format_codes);
}

proof fn lemma_body_round_trip(m: WireClientMessage)
    requires
        wire_message_valid(m),
    ensures
        spec_parse_body(wire_tag(m), wire_payload(m)) == Ok::<ClientMessageView, ProtocolError>(
            text_view(m),
        ),
{
    let b = wire_payload(m);
    match m {
        WireClientMessage::Query { query } => {
            assert(b.subrange(0, query.len() as int + 1) =~= cstr(query));
            lemma_read_text_at(b, 0, query);
        },
        WireClientMessage::Parse { name, query, parameters_types } => {
            lemma_parse_body(name, query, parameters_types);
        },
        WireClientMessage::Bind {
            portal,
            name,
            parameter_format_codes,
            parameters,
            result_format_codes,
        } => {
            lemma_bind_body(portal, name, parameter_format_codes, parameters, result_format_codes);
        },
        WireClientMessage::Execute { portal, max_rows } => {
            let p1: int = portal.len() as int + 1;
            assert(b.subrange(0, p1) =~= cstr(portal));
            lemma_read_text_at(b, 0, portal);
            assert(b.subrange(p1, p1 + 4) =~= be32(max_rows));
            lemma_read_u32_at(b, p1, max_rows);
        },
        WireClientMessage::DescribeStatement { name } => {
            assert(b.subrange(1, name.len() as int + 2) =~= cstr(name));
            lemma_read_text_at(b, 1, name);
        },
        WireClientMessage::DescribePortal { name } => {
            assert(b.subrange(1, name.len() as int + 2) =~= cstr(name));
            lemma_read_text_at(b, 1, name);
        },
        WireClientMessage::Sync => {},
        WireClientMessage::Terminate => {},
    }
}

/// Reading back the bytes of a client message, whatever input follows them,
/// gives the message, each text being the text of the bytes it was written
/// with, and takes exactly its own bytes.
pub proof fn lemma_client_round_trip(m: WireClientMessage, rest: Seq<u8>)
    requires
        wire_message_valid(m),
    ensures
        spec_client_frame(client_message_bytes(m) + rest) == Ok::<(ClientMessageView, int), ProtocolError>(
            (text_view(m), client_message_bytes(m).len() as int),
        ),
{
    let s = client_message_bytes(m) + rest;
    let len = (wire_payload(m).len() + 4) as u32;
    assert(s.subrange(1, 5) =~= be32(len));
    lemma_read_u32_at(s, 1, len);
    assert(s.subrange(5, 1 + len) =~= wire_payload(m));
    lemma_body_round_trip(m);
}

/// The bytes of a password message.
pub open spec fn password_bytes(password: Seq<u8>) -> Seq<u8> {
    seq![TAG_PASSWORD] + be32((password.len() + 5) as u32) + cstr(password)
}

/// Reading back a password message, whatever input follows it, gives its
/// text and takes exactly its own bytes.
pub proof fn lemma_password_round_trip(password: Seq<u8>, rest: Seq<u8>)
    requires
        plain(password),
        password.len() + 5 <= u32::MAX,
    ensures
        spec_password_frame(password_bytes(password) + rest) == Ok::<(Seq<char>, int), ProtocolError>(
            (utf8_lossy(password), password_bytes(password).len() as int),
        ),
{
    let s = password_bytes(password) + rest;
    let len = (password.len() + 5) as u32;
    assert(s.subrange(1, 5) =~= be32(len));
    lemma_read_u32_at(s, 1, len);
    let body = s.subrange(5, 1 + len);
    assert(body =~= cstr(password));
    assert(body.subrange(0, password.len() as int + 1) =~= cstr(password));
    lemma_read_text_at(body, 0, password);
}

/// Startup parameters on the wire: each key and value NUL-terminated.
pub open spec fn pairs_bytes(pairs: Seq<(Seq<u8>, Seq<u8>)>) -> Seq<u8>
    decreases pairs.len(),
{
    if pairs.len() == 0 {
        Seq::empty()
    } else {
        cstr(pairs[0].0) + cstr(pairs[0].1) + pairs_bytes(pairs.drop_first())
    }
}

/// The bytes of a startup message: length, protocol version, the parameters
/// and the empty key that ends them.
pub open spec fn startup_bytes(version: u32, pairs: Seq<(Seq<u8>, Seq<u8>)>) -> Seq<u8> {
    be32((pairs_bytes(pairs).len() + 9) as u32) + be32(version) + pairs_bytes(pairs) + seq![0u8]
}

/// Parameters a startup message can carry: non-empty keys, no NUL bytes.
pub open spec fn pairs_valid(pairs: Seq<(Seq<u8>, Seq<u8>)>) -> bool {
    forall|i: int|
        0 <= i < pairs.len() ==> (#[trigger] pairs[i]).0.len() > 0 && plain(pairs[i].0) && plain(
            pairs[i].1,
        )
}

proof fn lemma_read_pairs_at(b: Seq<u8>, p: int, pairs: Seq<(Seq<u8>, Seq<u8>)>)
    requires
        0 <= p,
        p + pairs_bytes(pairs).len() + 1 <= b.len(),
        b.subrange(p, p + pairs_bytes(pairs).len() + 1) == pairs_bytes(pairs) + seq![0u8],
        pairs_valid(pairs),
    ensures
        spec_startup_pairs(b, p) == Ok::<Seq<(Seq<u8>, Seq<u8>)>, ProtocolError>(pairs),
    decreases pairs.len(),
{
    let whole = b.subrange(p, p + pairs_bytes(pairs).len() + 1);
    if pairs.len() == 0 {
        assert(whole[0] == b[p]);
        assert(pairs =~= Seq::<(Seq<u8>, Seq<u8>)>::empty());
    } else {
        let (k, v) = pairs[0];
        let rest = pairs.drop_first();
        assert(pairs_valid(rest)) by {
            assert forall|i: int| 0 <= i < rest.len() implies (#[trigger] rest[i]).0.len() > 0 && plain(
                rest[i].0,
            ) && plain(rest[i].1) by {
                assert(rest[i] == pairs[i + 1]);
            }
        }
        assert(pairs[0].0.len() > 0 && plain(k) && plain(v));
        let q: int = p + k.len() + 1;
        let q2: int = q + v.len() + 1;
        assert(whole =~= cstr(k) + cstr(v) + (pairs_bytes(rest) + seq![0u8]));
        assert(b[p] == k[0]) by {
            assert(whole[0] == b[p]);
            assert(!k.contains(0u8));
        }
        assert(k[0] != 0) by {
            if k[0] == 0 {
                assert(k.contains(0u8));
            }
        }
        assert(b.subrange(p, q) =~= cstr(k)) by {
            assert(b.subrange(p, q) =~= whole.subrange(0, k.len() as int + 1));
        }
        lemma_read_cstr_at(b, p, k);
        assert(b.subrange(q, q2) =~= cstr(v)) by {
            assert(b.subrange(q, q2) =~= whole.subrange(k.len() as int + 1, k.len() as int + 1 + v.len() + 1));
        }
        lemma_read_cstr_at(b, q, v);
        assert(b.subrange(q2, q2 + pairs_bytes(rest).len() + 1) =~= pairs_bytes(rest) + seq![0u8]) by {
            assert(b.subrange(q2, q2 + pairs_bytes(rest).len() + 1) =~= whole.subrange(
                q2 - p,
                whole.len() as int,
            ));
        }
        lemma_read_pairs_at(b, q2, rest);
        assert(seq![(k, v)] + rest =~= pairs);
    }
}

/// Reading back a startup message, whatever input follows it, gives its
/// protocol version and parameters, and takes exactly its own bytes.
pub proof fn lemma_startup_round_trip(version: u32, pairs: Seq<(Seq<u8>, Seq<u8>)>, rest: Seq<u8>)
    requires
        version != SSL_REQUEST_CODE && version != CANCEL_REQUEST_CODE,
        pairs_valid(pairs),
        pairs_bytes(pairs).len() + 9 <= u32::MAX,
    ensures
        spec_startup_frame(startup_bytes(version, pairs) + rest) == Ok::<(StartupView, int), ProtocolError>(
            (startup_fields(version, pairs), startup_bytes(version, pairs).len() as int),
        ),
{
    let s = startup_bytes(version, pairs) + rest;
    let len = (pairs_bytes(pairs).len() + 9) as u32;
    assert(s.subrange(0, 4) =~= be32(len));
    lemma_read_u32_at(s, 0, len);
    assert(s.subrange(4, 8) =~= be32(version));
    lemma_read_u32_at(s, 4, version);
    let body = s.subrange(8, len as int);
    assert(body =~= pairs_bytes(pairs) + seq![0u8]);
    assert(body.subrange(0, pairs_bytes(pairs).len() as int + 1) =~= body);
    lemma_read_pairs_at(body, 0, pairs);
}

} // verus!
