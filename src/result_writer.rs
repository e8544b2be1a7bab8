use vstd::prelude::*;

use crate::client_message::FormatCode;
use crate::server_message::{
    columns_view, decimal, field_view, fields_bytes, lemma_fields_bytes_prefix, server_message_bytes,
    server_message_fits, CommandCompleteTag, ServerMessage, ServerMessageView, MAX_FIELD_COUNT,
    MAX_MESSAGE_LENGTH,
};
use crate::wire::ProtocolError;

verus! {

/// A result column: its name and the OID of its type.
#[derive(Debug, Clone)]
pub struct Column {
    pub name: String,
    pub column_type: u32,
}

/// The per-column formats for `n` columns from the client's list of result
/// format codes: none means all text, one applies to all, otherwise one each.
pub open spec fn negotiated_formats(n: nat, codes: Seq<FormatCode>) -> Option<Seq<FormatCode>> {
    if codes.len() == 0 {
        Some(Seq::new(n, |i: int| FormatCode::Text))
    } else if codes.len() == 1 {
        Some(Seq::new(n, |i: int| codes[0]))
    } else if codes.len() == n {
        Some(codes)
    } else {
        None
    }
}

/// Pairs each column with its negotiated format.
pub fn format_codes(columns: &Vec<Column>, result_format_codes: &Vec<FormatCode>) -> (r: Result<
    Vec<FormatCode>,
    ProtocolError,
>)
    ensures
        match r {
            Ok(v) => negotiated_formats(columns@.len(), result_format_codes@) == Some(v@),
            Err(e) => e == ProtocolError::FormatCountMismatch && negotiated_formats(
                columns@.len(),
                result_format_codes@,
            ) is None,
        },
{
    let n = columns.len();
    if result_format_codes.len() == 0 || result_format_codes.len() == 1 {
        let f = if result_format_codes.len() == 0 {
            FormatCode::Text
        } else {
            result_format_codes[0]
        };
        let mut v: Vec<FormatCode> = Vec::new();
        let mut i: usize = 0;
        while i < n
            invariant
                i <= n,
                v@ =~= Seq::new(i as nat, |k: int| f),
            decreases n - i,
        {
            v.push(f);
            i = i + 1;
        }
        Ok(v)
    } else if result_format_codes.len() == n {
        Ok(result_format_codes.clone())
    } else {
        Err(ProtocolError::FormatCountMismatch)
    }
}

/// The RowDescription entries for `columns` with their formats.
pub open spec fn description_fields(columns: Seq<Column>, formats: Seq<FormatCode>) -> Seq<(Seq<char>, u32, FormatCode)> {
    Seq::new(columns.len(), |i: int| (columns[i].name@, columns[i].column_type, formats[i]))
}

/// The RowDescription message for `columns` with their formats.
pub fn row_description<'a>(columns: &Vec<Column>, formats: &Vec<FormatCode>) -> (r: ServerMessage<'a>)
    requires
        formats@.len() == columns@.len(),
    ensures
        r@ == (ServerMessageView::RowDescription { fields: description_fields(columns@, formats@) }),
{
    let mut fields: Vec<(String, u32, FormatCode)> = Vec::new();
    let mut i: usize = 0;
    while i < columns.len()
        invariant
            i <= columns@.len(),
            formats@.len() == columns@.len(),
            columns_view(fields@) =~= description_fields(columns@, formats@).take(i as int),
        decreases columns.len() - i,
    {
        let ghost before = fields@;
        fields.push((columns[i].name.clone(), columns[i].column_type, formats[i]));
        assert(columns_view(fields@) =~= columns_view(before).push(
            (columns@[i as int].name@, columns@[i as int].column_type, formats@[i as int]),
        ));
        i = i + 1;
    }
    assert(description_fields(columns@, formats@).take(i as int) =~= description_fields(
        columns@,
        formats@,
    ));
    ServerMessage::RowDescription { fields }
}

/// The message that ends a result: EmptyQueryResponse or CommandComplete.
pub open spec fn is_result_end(m: Seq<u8>) -> bool {
    m == server_message_bytes(ServerMessageView::EmptyQueryResponse) || exists|rows: u32|
        m == #[trigger] server_message_bytes(
            ServerMessageView::CommandComplete(CommandCompleteTag::Select { rows }),
        )
}

/// Bytes that end with the message that ends a result.
pub open spec fn ends_result(b: Seq<u8>) -> bool {
    exists|k: int| 0 <= k <= b.len() && #[trigger] is_result_end(b.subrange(k, b.len() as int))
}

/// What a handler hands back for one Execute: the messages it wrote, as bytes.
/// Only a finished writer makes one, so it always ends a result.
pub struct CompletedResult {
    bytes: Vec<u8>,
}

impl CompletedResult {
    #[verifier::type_invariant]
    spec fn inv(&self) -> bool {
        ends_result(self.bytes@)
    }

    pub closed spec fn view_bytes(&self) -> Seq<u8> {
        self.bytes@
    }

    pub fn into_bytes(self) -> (r: Vec<u8>)
        ensures
            r@ == self.view_bytes(),
            ends_result(r@),
    {
        proof {
            use_type_invariant(&self);
        }
        self.bytes
    }
}

/// Given to a handler for one Execute: writes the portal's result with the
/// result formats the client asked for at Bind.
pub struct ResultWriter {
    out: Vec<u8>,
    result_format_codes: Vec<FormatCode>,
}

impl ResultWriter {
    pub closed spec fn formats(&self) -> Seq<FormatCode> {
        self.result_format_codes@
    }

    pub closed spec fn written(&self) -> Seq<u8> {
        self.out@
    }

    pub fn new(result_format_codes: Vec<FormatCode>) -> (r: Self)
        ensures
            r.formats() == result_format_codes@,
            r.written() == Seq::<u8>::empty(),
    {
        ResultWriter { out: Vec::new(), result_format_codes }
    }

    /// Starts a result with these columns; writes no message.
    pub fn start_writing(self, columns: &Vec<Column>) -> (r: Result<RowWriter, ProtocolError>)
        ensures
            match r {
                Ok(w) => negotiated_formats(columns@.len(), self.formats()) == Some(w.formats())
                    && w.types() == columns@.map_values(|c: Column| c.column_type)
                    && w.row_count() == 0 && w.written() == self.written(),
                Err(e) => e == ProtocolError::FormatCountMismatch && negotiated_formats(
                    columns@.len(),
                    self.formats(),
                ) is None,
            },
    {
        let formats = format_codes(columns, &self.result_format_codes)?;
        let mut types: Vec<u32> = Vec::new();
        let mut i: usize = 0;
        while i < columns.len()
            invariant
                i <= columns@.len(),
                types@ =~= columns@.map_values(|c: Column| c.column_type).take(i as int),
            decreases columns.len() - i,
        {
            types.push(columns[i].column_type);
            i = i + 1;
        }
        assert(columns@.map_values(|c: Column| c.column_type).take(i as int) =~= columns@.map_values(
            |c: Column| c.column_type,
        ));
        Ok(RowWriter { out: self.out, result_format_codes: formats, types, row_count: 0 })
    }

    /// Ends the result as an empty query: one EmptyQueryResponse.
    pub fn empty_result(self) -> (r: CompletedResult)
        ensures
            r.view_bytes() == self.written() + server_message_bytes(ServerMessageView::EmptyQueryResponse),
    {
        let mut out = self.out;
        ServerMessage::EmptyQueryResponse.write(&mut out);
        proof {
            let k = self.out@.len() as int;
            assert(out@.subrange(k, out@.len() as int) =~= server_message_bytes(
                ServerMessageView::EmptyQueryResponse,
            ));
            assert(is_result_end(out@.subrange(k, out@.len() as int)));
        }
        CompletedResult { bytes: out }
    }
}

/// Writes the rows of one result, then its CommandComplete.
pub struct RowWriter {
    out: Vec<u8>,
    result_format_codes: Vec<FormatCode>,
    types: Vec<u32>,
    row_count: u32,
}

spec fn ten_pow(k: nat) -> nat
    decreases k,
{
    if k == 0 {
        1
    } else {
        10 * ten_pow((k - 1) as nat)
    }
}

proof fn lemma_decimal_len(n: nat, k: nat)
    requires
        n < ten_pow(k),
        k >= 1,
    ensures
        decimal(n).len() <= k,
    decreases k,
{
    if n >= 10 {
        let b2 = ten_pow((k - 1) as nat);
        assert(n / 10 < b2) by (nonlinear_arith)
            requires
                n < 10 * b2,
        ;
        if k == 1 {
            assert(ten_pow(0) == 1);
        } else {
            lemma_decimal_len(n / 10, (k - 1) as nat);
        }
    }
}

impl RowWriter {
    pub closed spec fn formats(&self) -> Seq<FormatCode> {
        self.result_format_codes@
    }

    pub closed spec fn types(&self) -> Seq<u32> {
        self.types@
    }

    pub closed spec fn row_count(&self) -> u32 {
        self.row_count
    }

    pub closed spec fn written(&self) -> Seq<u8> {
        self.out@
    }

    /// The format of each column, in order.
    pub fn format_codes(&self) -> (r: &Vec<FormatCode>)
        ensures
            r@ == self.formats(),
    {
        &self.result_format_codes
    }

    /// The type OID of each column, in order.
    pub fn column_types(&self) -> (r: &Vec<u32>)
        ensures
            r@ == self.types(),
    {
        &self.types
    }

    /// Writes one DataRow from values already encoded in their column's
    /// format (`None` is NULL); values past the last column are dropped.
    /// The row count stops at its largest value.
    pub fn write_row(&mut self, fields: Vec<Option<Vec<u8>>>) -> (r: Result<(), ProtocolError>)
        ensures
            ({
                let n = if fields@.len() <= old(self).types().len() {
                    fields@.len()
                } else {
                    old(self).types().len()
                };
                let row = ServerMessageView::DataRow {
                    fields: fields@.take(n as int).map_values(|f: Option<Vec<u8>>| field_view(f)),
                };
                match r {
                    Ok(()) => server_message_fits(row) && final(self).written() == old(self).written()
                        + server_message_bytes(row) && final(self).row_count() == (if old(
                        self,
                    ).row_count() < u32::MAX {
                        (old(self).row_count() + 1) as u32
                    } else {
                        old(self).row_count()
                    }),
                    Err(e) => e == ProtocolError::MessageTooLarge && !server_message_fits(row)
                        && final(self).written() == old(self).written() && final(self).row_count()
                        == old(self).row_count(),
                }
            }),
            final(self).formats() == old(self).formats(),
            final(self).types() == old(self).types(),
    {
        let mut fields = fields;
        let ghost all = fields@;
        if fields.len() > self.types.len() {
            fields.truncate(self.types.len());
        }
        assert(fields@ =~= all.take(fields@.len() as int));
        if !data_row_fits(&fields) {
            return Err(ProtocolError::MessageTooLarge);
        }
        ServerMessage::DataRow { fields }.write(&mut self.out);
        if self.row_count < u32::MAX {
            self.row_count = self.row_count + 1;
        }
        Ok(())
    }

    /// Ends the result: CommandComplete with `SELECT` and the row count.
    pub fn finish(self) -> (r: CompletedResult)
        ensures
            r.view_bytes() == self.written() + server_message_bytes(
                ServerMessageView::CommandComplete(CommandCompleteTag::Select { rows: self.row_count() }),
            ),
    {
        proof {
            reveal_with_fuel(ten_pow, 11);
            assert(ten_pow(10) == 10_000_000_000);
            lemma_decimal_len(self.row_count as nat, 10);
        }
        let mut out = self.out;
        ServerMessage::CommandComplete(CommandCompleteTag::Select { rows: self.row_count }).write(
            &mut out,
        );
        proof {
            let k = self.out@.len() as int;
            let m = ServerMessageView::CommandComplete(CommandCompleteTag::Select { rows: self.row_count });
            assert(out@.subrange(k, out@.len() as int) =~= server_message_bytes(m));
            assert(is_result_end(out@.subrange(k, out@.len() as int)));
        }
        CompletedResult { bytes: out }
    }
}

/// Whether a DataRow with these fields fits the protocol's length and count
/// fields.
pub fn data_row_fits(fields: &Vec<Option<Vec<u8>>>) -> (r: bool)
    ensures
        r == server_message_fits(
            ServerMessageView::DataRow { fields: fields@.map_values(|f: Option<Vec<u8>>| field_view(f)) },
        ),
{
    let ghost fv = fields@.map_values(|f: Option<Vec<u8>>| field_view(f));
    if fields.len() > MAX_FIELD_COUNT {
        return false;
    }
    // bytes of the length field and the field count
    let mut total: usize = 6;
    let mut i: usize = 0;
    assert(fv.take(0) =~= Seq::<Option<Seq<u8>>>::empty());
    while i < fields.len()
        invariant
            i <= fields@.len(),
            fields@.len() <= MAX_FIELD_COUNT,
            fv == fields@.map_values(|f: Option<Vec<u8>>| field_view(f)),
            total == fields_bytes(fv.take(i as int)).len() + 6,
            total <= MAX_MESSAGE_LENGTH,
        decreases fields.len() - i,
    {
        proof {
            assert(fv.take(i + 1).drop_last() =~= fv.take(i as int));
            lemma_fields_bytes_prefix(fv, i + 1);
        }
        let size: usize = match &fields[i] {
            None => 4,
            Some(d) => {
                if d.len() > MAX_MESSAGE_LENGTH as usize {
                    return false;
                }
                4 + d.len()
            },
        };
        if size > MAX_MESSAGE_LENGTH as usize - total {
            return false;
        }
        total = total + size;
        i = i + 1;
    }
    assert(fv.take(i as int) =~= fv);
    true
}

} // verus!
