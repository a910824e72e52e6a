//! The record walk: every record decoded, routed by its delete flag, and
//! written as a line of the active or of the deleted stream.
use crate::bytes::{le_u16, le_u32};
use crate::error::DbfError;
use crate::field::{field_text, get_field_content_as_string};
use crate::headerdata::{
    descriptor_start, field_count, field_count_from, fields_view, get_field_header_as_csv, get_fields, header_line, schema,
    DbfFields, DbfHeader, FieldSpec,
};
use crate::memo::{MemoResolver, MemoView};
use crate::text::{encode_windows_1252, push_char, windows_1252_bytes};
use vstd::prelude::*;
use vstd::slice::slice_subrange;

verus! {

/// The delete flag of a record that is in use.
pub const ACTIVE_FLAG: u8 = 0x20;

/// The language byte of tables written in the DOS code page.
pub const DOS_LANGUAGE: u8 = 0x10;

/// Accented characters of the DOS code page moved to their windows-1252 bytes.
pub open spec fn dos_byte(b: u8) -> u8 {
    if b == 0x8E {
        0xC4
    } else if b == 0x84 {
        0xE4
    } else if b == 0x99 {
        0xD6
    } else if b == 0x94 {
        0xF6
    } else if b == 0x9A {
        0xDC
    } else if b == 0x81 {
        0xFC
    } else if b == 0xE1 {
        0xDF
    } else {
        b
    }
}

pub open spec fn record_count(s: Seq<u8>) -> int {
    le_u32(s, 4)
}

pub open spec fn header_length(s: Seq<u8>) -> int {
    le_u16(s, 8)
}

pub open spec fn record_length(s: Seq<u8>) -> int {
    le_u16(s, 10)
}

/// The bytes that records are read from: for a DOS-code-page table, a copy
/// with the accented characters remapped.
pub open spec fn working_bytes(s: Seq<u8>) -> Seq<u8> {
    if s[29] == DOS_LANGUAGE {
        Seq::new(s.len(), |i: int| dos_byte(s[i]))
    } else {
        s
    }
}

/// Whether every field lies within a record of `record_len` bytes.
pub open spec fn fields_fit(fs: Seq<FieldSpec>, record_len: int) -> bool {
    forall|j: int| 0 <= j < fs.len() ==> (#[trigger] fs[j]).displacement + fs[j].length <= record_len
}

/// The structural fault of the table `s`, if any: a descriptor array cut
/// short, a record area or record too short for what the header and the
/// descriptors declare, or a header length that does not cover the
/// descriptors and their terminator.
pub open spec fn layout_error(s: Seq<u8>) -> Option<DbfError> {
    if field_count(s) is None {
        Some(DbfError::TruncatedHeader)
    } else if record_length(s) == 0 || !fields_fit(schema(s), record_length(s))
        || header_length(s) + record_count(s) * record_length(s) > s.len() {
        Some(DbfError::TruncatedRecordArea)
    } else if header_length(s) < descriptor_start(field_count(s)->Some_0 as int) + 1 {
        Some(DbfError::TruncatedHeader)
    } else {
        None
    }
}

/// Record `i` of the table `s`.
pub open spec fn record(s: Seq<u8>, i: int) -> Seq<u8> {
    let start = header_length(s) + i * record_length(s);
    working_bytes(s).subrange(start, start + record_length(s))
}

/// Whether a record is active (its delete flag is a space).
pub open spec fn is_active(rec: Seq<u8>) -> bool {
    rec[0] == ACTIVE_FLAG
}

/// The raw bytes of field `f` within the record `rec`.
pub open spec fn field_slice(rec: Seq<u8>, f: FieldSpec) -> Seq<u8> {
    rec.subrange(f.displacement, f.displacement + f.length)
}

/// The texts of the fields `fs` of `rec`, separated by `;`.
pub open spec fn fields_text(rec: Seq<u8>, fs: Seq<FieldSpec>, m: MemoView) -> Result<
    Seq<char>,
    DbfError,
>
    decreases fs.len(),
{
    if fs.len() == 0 {
        Ok(seq![])
    } else {
        match fields_text(rec, fs.drop_last(), m) {
            Err(e) => Err(e),
            Ok(p) => match field_text(fs.last().tag, field_slice(rec, fs.last()), m) {
                Err(e) => Err(e),
                Ok(t) => if fs.len() == 1 {
                    Ok(t)
                } else {
                    Ok(p + seq![';'] + t)
                },
            },
        }
    }
}

/// The line of the record `rec`: its fields separated by `;`, and CRLF.
pub open spec fn record_line(rec: Seq<u8>, fs: Seq<FieldSpec>, m: MemoView) -> Result<
    Seq<char>,
    DbfError,
> {
    match fields_text(rec, fs, m) {
        Ok(t) => Ok(t + seq!['\r', '\n']),
        Err(e) => Err(e),
    }
}

/// Whether decoding record `i` of `s` fails.
pub open spec fn record_fails(s: Seq<u8>, m: MemoView, i: int) -> bool {
    record_line(record(s, i), schema(s), m) is Err
}

/// The line of record `i` of `s`.
pub open spec fn line_of(s: Seq<u8>, m: MemoView, i: int) -> Seq<char> {
    match record_line(record(s, i), schema(s), m) {
        Ok(t) => t,
        Err(_) => seq![],
    }
}

/// The indices, in order, of the records among the first `n` that go to the
/// active stream (`active`) or to the deleted stream (`!active`).
pub open spec fn routed(s: Seq<u8>, n: nat, active: bool) -> Seq<int>
    decreases n,
{
    if n == 0 {
        seq![]
    } else {
        let p = routed(s, (n - 1) as nat, active);
        if is_active(record(s, n - 1)) == active {
            p.push(n - 1)
        } else {
            p
        }
    }
}

/// The lines of the records `idx`, in that order.
pub open spec fn lines_of(s: Seq<u8>, m: MemoView, idx: Seq<int>) -> Seq<char>
    decreases idx.len(),
{
    if idx.len() == 0 {
        seq![]
    } else {
        lines_of(s, m, idx.drop_last()) + line_of(s, m, idx.last())
    }
}

/// The decoded table: the active stream, and the deleted stream where there
/// are deleted records; each stream opens with the header line.
pub open spec fn table_result(s: Seq<u8>, m: MemoView) -> Result<
    (Seq<char>, Option<Seq<char>>),
    DbfError,
> {
    match layout_error(s) {
        Some(e) => Err(e),
        None => {
            let n = record_count(s) as nat;
            if exists|i: int| 0 <= i < n && record_fails(s, m, i) {
                Err(DbfError::MalformedMemoBlock)
            } else {
                let head = header_line(schema(s));
                let gone = routed(s, n, false);
                Ok(
                    (
                        head + lines_of(s, m, routed(s, n, true)),
                        if gone.len() == 0 {
                            None
                        } else {
                            Some(head + lines_of(s, m, gone))
                        },
                    ),
                )
            }
        },
    }
}

/// The two text streams of a decoded table.
pub struct CsvOutput {
    /// Header line and the lines of the active records.
    pub active: String,
    /// Header line and the lines of the deleted records; `None` where no
    /// record is deleted.
    pub deleted: Option<String>,
}

impl CsvOutput {
    /// The active stream in the table's code page, as written to a file.
    pub fn active_bytes(&self) -> (r: Vec<u8>)
        ensures
            r@ == windows_1252_bytes(self.active@),
    {
        encode_windows_1252(self.active.as_str())
    }

    /// The deleted stream, if any, in the table's code page.
    pub fn deleted_bytes(&self) -> (r: Option<Vec<u8>>)
        ensures
            match self.deleted {
                None => r is None,
                Some(d) => r is Some && r->Some_0@ == windows_1252_bytes(d@),
            },
    {
        match &self.deleted {
            None => None,
            Some(d) => Some(encode_windows_1252(d.as_str())),
        }
    }
}

/// Whether `r` is the outcome `expected`.
pub open spec fn output_matches(
    r: Result<CsvOutput, DbfError>,
    expected: Result<(Seq<char>, Option<Seq<char>>), DbfError>,
) -> bool {
    match expected {
        Err(e) => r == Err::<CsvOutput, DbfError>(e),
        Ok((a, d)) => r is Ok && r->Ok_0.active@ == a && match d {
            None => r->Ok_0.deleted is None,
            Some(t) => r->Ok_0.deleted is Some && r->Ok_0.deleted->Some_0@ == t,
        },
    }
}

proof fn lemma_fields_error_stays(rec: Seq<u8>, fs: Seq<FieldSpec>, m: MemoView, j: int, k: int)
    requires
        0 <= j <= k <= fs.len(),
        fields_text(rec, fs.subrange(0, j), m) is Err,
    ensures
        fields_text(rec, fs.subrange(0, k), m) == fields_text(rec, fs.subrange(0, j), m),
    decreases k - j,
{
    if k > j {
        lemma_fields_error_stays(rec, fs, m, j, k - 1);
        assert(fs.subrange(0, k).drop_last() =~= fs.subrange(0, k - 1));
    }
}

proof fn lemma_fields_error_kind(rec: Seq<u8>, fs: Seq<FieldSpec>, m: MemoView)
    ensures
        fields_text(rec, fs, m) is Err ==> fields_text(rec, fs, m) == Err::<Seq<char>, DbfError>(
            DbfError::MalformedMemoBlock,
        ),
    decreases fs.len(),
{
    if fs.len() > 0 {
        lemma_fields_error_kind(rec, fs.drop_last(), m);
    }
}

proof fn lemma_routed_step(s: Seq<u8>, m: MemoView, i: nat)
    ensures
        routed(s, i + 1, true) == if is_active(record(s, i as int)) {
            routed(s, i, true).push(i as int)
        } else {
            routed(s, i, true)
        },
        routed(s, i + 1, false) == if !is_active(record(s, i as int)) {
            routed(s, i, false).push(i as int)
        } else {
            routed(s, i, false)
        },
        lines_of(s, m, routed(s, i, true).push(i as int)) == lines_of(s, m, routed(s, i, true))
            + line_of(s, m, i as int),
        lines_of(s, m, routed(s, i, false).push(i as int)) == lines_of(s, m, routed(s, i, false))
            + line_of(s, m, i as int),
{
    assert(routed(s, i, true).push(i as int).drop_last() =~= routed(s, i, true));
    assert(routed(s, i, false).push(i as int).drop_last() =~= routed(s, i, false));
}

proof fn lemma_record_span(s: Seq<u8>, i: int)
    requires
        layout_error(s) is None,
        0 <= i < record_count(s),
    ensures
        header_length(s) + i * record_length(s) + record_length(s) <= s.len(),
        0 <= i * record_length(s),
{
    assert(i * record_length(s) + record_length(s) <= record_count(s) * record_length(s)) by (
    nonlinear_arith)
        requires
            0 <= i < record_count(s),
            0 <= record_length(s),
    ;
    assert(0 <= i * record_length(s)) by (nonlinear_arith)
        requires
            0 <= i,
            0 <= record_length(s),
    ;
}

proof fn lemma_field_count_within_buffer(s: Seq<u8>, k: nat)
    requires
        field_count_from(s, k) is Some,
    ensures
        descriptor_start(field_count_from(s, k)->Some_0 as int) < s.len(),
    decreases s.len() - descriptor_start(k as int),
{
    let pos = descriptor_start(k as int);
    if pos < s.len() && s[pos] != 0x0D && pos + 32 <= s.len() {
        lemma_field_count_within_buffer(s, k + 1);
    }
}

/// A table that decodes has a nonzero record length, and a header length
/// that covers the 32-byte fixed header, every descriptor and the terminator.
pub proof fn lemma_valid_header_bounds(s: Seq<u8>)
    requires
        layout_error(s) is None,
    ensures
        record_length(s) > 0,
        header_length(s) >= 32 + 32 * field_count(s)->Some_0 + 1,
        header_length(s) >= 32,
{
}

/// A table without records decodes to the header line alone in the active
/// stream, and to no deleted stream.
pub proof fn lemma_zero_records(s: Seq<u8>, m: MemoView)
    requires
        layout_error(s) is None,
        record_count(s) == 0,
    ensures
        table_result(s, m) == Ok::<(Seq<char>, Option<Seq<char>>), DbfError>(
            (header_line(schema(s)), None),
        ),
{
    assert(header_line(schema(s)) + lines_of(s, m, seq![]) =~= header_line(schema(s)));
}

/// Every record goes to exactly one stream: to the active one exactly when
/// its delete flag is a space, to the deleted one otherwise.
pub proof fn lemma_routing(s: Seq<u8>, n: nat, i: int)
    requires
        0 <= i < n,
    ensures
        routed(s, n, true).contains(i) <==> is_active(record(s, i)),
        routed(s, n, false).contains(i) <==> !is_active(record(s, i)),
        routed(s, n, true).len() + routed(s, n, false).len() == n,
    decreases n,
{
    lemma_routed_below(s, (n - 1) as nat);
    if i < n - 1 {
        lemma_routing(s, (n - 1) as nat, i);
    } else {
        if n > 1 {
            lemma_routing(s, (n - 1) as nat, 0);
        }
    }
    let p = routed(s, (n - 1) as nat, true);
    let q = routed(s, (n - 1) as nat, false);
    vstd::seq_lib::lemma_seq_contains_after_push(p, n - 1, i);
    vstd::seq_lib::lemma_seq_contains_after_push(q, n - 1, i);
    if i < n - 1 {
    } else {
        assert(!p.contains(n - 1));
        assert(!q.contains(n - 1));
    }
}

/// For a table whose layout is sound and whose records all decode, the active
/// stream is the header line and the lines of the active records in order,
/// the deleted stream is there exactly when some record is deleted and then
/// holds the header line and the lines of the deleted records in order, and
/// every record is in exactly one of them.
pub proof fn lemma_streams(s: Seq<u8>, m: MemoView)
    requires
        layout_error(s) is None,
        forall|i: int| 0 <= i < record_count(s) ==> !#[trigger] record_fails(s, m, i),
    ensures
        ({
            let n = record_count(s) as nat;
            let head = header_line(schema(s));
            &&& table_result(s, m) is Ok
            &&& table_result(s, m)->Ok_0.0 == head + lines_of(s, m, routed(s, n, true))
            &&& (table_result(s, m)->Ok_0.1 is Some <==> exists|i: int|
                0 <= i < n && !is_active(#[trigger] record(s, i)))
            &&& table_result(s, m)->Ok_0.1 is Some ==> table_result(s, m)->Ok_0.1->Some_0 == head
                + lines_of(s, m, routed(s, n, false))
            &&& forall|i: int|
                0 <= i < n ==> (#[trigger] routed(s, n, true).contains(i) <==> is_active(
                    record(s, i),
                )) && (routed(s, n, false).contains(i) <==> !is_active(record(s, i)))
        }),
{
    let n = record_count(s) as nat;
    assert forall|i: int| 0 <= i < n implies (#[trigger] routed(s, n, true).contains(i)
        <==> is_active(record(s, i))) && (routed(s, n, false).contains(i) <==> !is_active(
        record(s, i),
    )) by {
        lemma_routing(s, n, i);
    }
    lemma_routed_below(s, n);
    let gone = routed(s, n, false);
    if gone.len() > 0 {
        assert(gone.contains(gone[0]));
        let i = gone[0];
        lemma_routing(s, n, i);
        assert(!is_active(record(s, i)));
    }
    if exists|i: int| 0 <= i < n && !is_active(#[trigger] record(s, i)) {
        let i = choose|i: int| 0 <= i < n && !is_active(#[trigger] record(s, i));
        lemma_routing(s, n, i);
        assert(gone.len() > 0);
    }
}

proof fn lemma_routed_below(s: Seq<u8>, n: nat)
    ensures
        forall|x: int| #[trigger] routed(s, n, true).contains(x) ==> 0 <= x < n,
        forall|x: int| #[trigger] routed(s, n, false).contains(x) ==> 0 <= x < n,
        n == 0 ==> routed(s, n, true).len() + routed(s, n, false).len() == 0,
    decreases n,
{
    if n > 0 {
        lemma_routed_below(s, (n - 1) as nat);
        let p = routed(s, (n - 1) as nat, true);
        let q = routed(s, (n - 1) as nat, false);
        assert forall|x: int| #[trigger] routed(s, n, true).contains(x) implies 0 <= x < n by {
            vstd::seq_lib::lemma_seq_contains_after_push(p, n - 1, x);
        }
        assert forall|x: int| #[trigger] routed(s, n, false).contains(x) implies 0 <= x < n by {
            vstd::seq_lib::lemma_seq_contains_after_push(q, n - 1, x);
        }
    }
}

/// Decoding is a function of the input bytes: the same table and memo file
/// give the same streams, character for character.
pub proof fn lemma_decoding_deterministic(s1: Seq<u8>, s2: Seq<u8>, m1: MemoView, m2: MemoView)
    requires
        s1 == s2,
        m1 == m2,
    ensures
        table_result(s1, m1) == table_result(s2, m2),
{
}

/// The line of one record, from its bytes and the table's fields.
pub fn get_record_as_csv(bytes: &[u8], fields: &Vec<DbfFields>, memo: &MemoResolver) -> (r:
    Result<String, DbfError>)
    requires
        fields_fit(fields_view(fields@), bytes@.len() as int),
    ensures
        match record_line(bytes@, fields_view(fields@), memo@) {
            Ok(t) => r is Ok && r->Ok_0@ == t,
            Err(e) => r == Err::<String, DbfError>(e),
        },
{
    let ghost fs = fields_view(fields@);
    let n = bytes.len();
    let mut result = String::new();
    let mut j: usize = 0;
    while j < fields.len()
        invariant
            j <= fields@.len(),
            n == bytes@.len(),
            fs == fields_view(fields@),
            fields_fit(fs, bytes@.len() as int),
            fields_text(bytes@, fs.subrange(0, j as int), memo@) is Ok,
            fields_text(bytes@, fs.subrange(0, j as int), memo@)->Ok_0 == result@,
        decreases fields@.len() - j,
    {
        let field = &fields[j];
        assert(fs[j as int] == field@);
        assert(field@.displacement + field@.length <= bytes@.len());
        assert(fs.subrange(0, j + 1).drop_last() =~= fs.subrange(0, j as int));
        let from = field.displacement as usize;
        assert(from + field.length <= n);
        let bytes_of_field = slice_subrange(bytes, from, from + field.length);
        assert(fs.subrange(0, j + 1).last() == fs[j as int]);
        assert(bytes_of_field@ == field_slice(bytes@, fs[j as int]));
        match get_field_content_as_string(bytes_of_field, field.fieldtype, memo) {
            Ok(text) => {
                if j > 0 {
                    push_char(&mut result, ';');
                }
                result.append(text.as_str());
            },
            Err(e) => {
                proof {
                    lemma_fields_error_stays(bytes@, fs, memo@, j + 1, fs.len() as int);
                    assert(fs.subrange(0, fs.len() as int) =~= fs);
                }
                return Err(e);
            },
        }
        j = j + 1;
    }
    assert(fs.subrange(0, j as int) =~= fs);
    push_char(&mut result, '\r');
    push_char(&mut result, '\n');
    Ok(result)
}

/// A copy of `bytes` in which, for the DOS code page (`language` 0x10), the
/// accented characters are remapped; the caller's buffer stays as it is.
fn working_copy(bytes: &[u8], language: u8) -> (r: Vec<u8>)
    requires
        bytes@.len() >= 32,
        language == bytes@[29],
    ensures
        r@ == working_bytes(bytes@),
{
    let mut r: Vec<u8> = Vec::new();
    let mut i: usize = 0;
    while i < bytes.len()
        invariant
            i <= bytes@.len(),
            r@.len() == i,
            forall|k: int|
                0 <= k < i ==> #[trigger] r@[k] == if language == DOS_LANGUAGE {
                    dos_byte(bytes@[k])
                } else {
                    bytes@[k]
                },
        decreases bytes@.len() - i,
    {
        let b = bytes[i];
        let c = if language != DOS_LANGUAGE {
            b
        } else if b == 0x8E {
            0xC4
        } else if b == 0x84 {
            0xE4
        } else if b == 0x99 {
            0xD6
        } else if b == 0x94 {
            0xF6
        } else if b == 0x9A {
            0xDC
        } else if b == 0x81 {
            0xFC
        } else if b == 0xE1 {
            0xDF
        } else {
            b
        };
        r.push(c);
        i = i + 1;
    }
    assert(r@ =~= working_bytes(bytes@));
    r
}

/// Whether every field of `fields` lies within a record of `record_len` bytes.
fn check_fields_fit(fields: &Vec<DbfFields>, record_len: u16) -> (r: bool)
    ensures
        r == fields_fit(fields_view(fields@), record_len as int),
{
    let ghost fs = fields_view(fields@);
    let mut j: usize = 0;
    while j < fields.len()
        invariant
            j <= fields@.len(),
            fs == fields_view(fields@),
            forall|k: int| 0 <= k < j ==> (#[trigger] fs[k]).displacement + fs[k].length <= record_len,
        decreases fields@.len() - j,
    {
        assert(fs[j as int] == fields@[j as int]@);
        if fields[j].length > record_len as usize || fields[j].displacement as u64
            + fields[j].length as u64 > record_len as u64 {
            return false;
        }
        j = j + 1;
    }
    true
}

/// Decodes the table `dbf`, looking memo fields up in `memo`.
pub fn decode_table(dbf: &[u8], memo: &MemoResolver) -> (r: Result<CsvOutput, DbfError>)
    ensures
        output_matches(r, table_result(dbf@, memo@)),
{
    let ghost s = dbf@;
    let fields = match get_fields(dbf) {
        Ok(f) => f,
        Err(e) => {
            if e == DbfError::TruncatedRecordArea {
                let ghost fs = schema(s);
                let ghost j = choose|j: int|
                    0 <= j < fs.len() && (#[trigger] fs[j]).displacement > u32::MAX;
                assert(record_length(s) <= 0xffff);
                assert(!fields_fit(fs, record_length(s)));
            }
            return Err(e);
        },
    };
    let ghost fs = fields_view(fields@);
    assert(fs == schema(s));
    let header = DbfHeader::new(dbf);
    let record_len = header.bytes_record;
    let header_len = header.bytes_header;
    let records = header.records;
    if record_len == 0 || !check_fields_fit(&fields, record_len) {
        return Err(DbfError::TruncatedRecordArea);
    }
    let n = dbf.len();
    assert(records as u64 * record_len as u64 <= 0xffff_ffffu64 * 0xffffu64) by (nonlinear_arith)
        requires
            records <= 0xffff_ffffu64,
            record_len <= 0xffffu64,
    ;
    if header_len as u64 + records as u64 * record_len as u64 > n as u64 {
        return Err(DbfError::TruncatedRecordArea);
    }
    proof {
        lemma_field_count_within_buffer(s, 0);
    }
    if header_len as usize <= 32 + 32 * fields.len() {
        return Err(DbfError::TruncatedHeader);
    }
    assert(layout_error(s) is None);
    let work = working_copy(dbf, header.language);
    let head = get_field_header_as_csv(&fields);
    let mut active = head.clone();
    let mut gone = String::new();
    let mut any_gone = false;
    let mut i: u32 = 0;
    while i < records
        invariant
            s == dbf@,
            n == s.len(),
            fs == fields_view(fields@),
            fs == schema(s),
            layout_error(s) is None,
            work@ == working_bytes(s),
            records == record_count(s),
            record_len == record_length(s),
            header_len == header_length(s),
            fields_fit(fs, record_len as int),
            i <= records,
            forall|k: int| 0 <= k < i ==> !#[trigger] record_fails(s, memo@, k),
            head@ == header_line(fs),
            active@ == head@ + lines_of(s, memo@, routed(s, i as nat, true)),
            gone@ == lines_of(s, memo@, routed(s, i as nat, false)),
            any_gone == (routed(s, i as nat, false).len() > 0),
        decreases records - i,
    {
        proof {
            lemma_record_span(s, i as int);
        }
        let start = header_len as usize + i as usize * record_len as usize;
        let end = start + record_len as usize;
        let rec = slice_subrange(work.as_slice(), start, end);
        assert(rec@ == record(s, i as int));
        let line = match get_record_as_csv(rec, &fields, memo) {
            Ok(line) => line,
            Err(e) => {
                proof {
                    lemma_fields_error_kind(rec@, fs, memo@);
                }
                assert(record_fails(s, memo@, i as int));
                return Err(e);
            },
        };
        proof {
            lemma_routed_step(s, memo@, i as nat);
        }
        assert(line@ == line_of(s, memo@, i as int));
        if rec[0] == ACTIVE_FLAG {
            active.append(line.as_str());
        } else {
            gone.append(line.as_str());
            any_gone = true;
        }
        i = i + 1;
    }
    let deleted = if any_gone {
        let mut d = head;
        d.append(gone.as_str());
        Some(d)
    } else {
        None
    };
    Ok(CsvOutput { active, deleted })
}

/// Decodes the table `dbf` with its memo file `memo`, if there is one.
pub fn convert_dbf_bytes(dbf: &[u8], memo: Option<Vec<u8>>) -> (r: Result<CsvOutput, DbfError>)
    ensures
        output_matches(
            r,
            table_result(
                dbf@,
                crate::memo::memo_model(
                    match memo {
                        None => None,
                        Some(d) => Some(d@),
                    },
                ),
            ),
        ),
{
    let resolver = MemoResolver::new(memo);
    decode_table(dbf, &resolver)
}

} // verus!
