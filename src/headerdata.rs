//! The table header, the memo-file header and the field-descriptor array.
use crate::bytes::{be_u16, le_u16, le_u32, read_be_u16, read_le_u16, read_le_u32};
use crate::error::DbfError;
use crate::text::{decimal_string, decimal_text, push_char};
use vstd::prelude::*;
use vstd::slice::slice_subrange;

verus! {

/// The fixed 32-byte table header.
#[derive(Debug)]
pub struct DbfHeader {
    pub version: u8,
    /// Date of the last update, as `day.month.year`.
    pub last_update: String,
    /// Number of records.
    pub records: u32,
    /// Length of the header in bytes; the record area starts there.
    pub bytes_header: u16,
    /// Length of every record in bytes, delete flag included.
    pub bytes_record: u16,
    /// Language / code-page identifier.
    pub language: u8,
}

/// `day.month.year` for the three date bytes of the header (year offset from 1900).
pub open spec fn header_date_text(d: Seq<u8>) -> Seq<char> {
    decimal_text(d[2] as nat) + seq!['.'] + decimal_text(d[1] as nat) + seq!['.'] + decimal_text(
        (d[0] + 1900) as nat,
    )
}

impl DbfHeader {
    /// Reads the header from the first 32 bytes of a table file.
    pub fn new(bytes: &[u8]) -> (h: Self)
        requires
            bytes@.len() >= 32,
        ensures
            h.version == bytes@[0],
            h.last_update@ == header_date_text(bytes@.subrange(1, 4)),
            h.records == le_u32(bytes@, 4),
            h.bytes_header == le_u16(bytes@, 8),
            h.bytes_record == le_u16(bytes@, 10),
            h.language == bytes@[29],
    {
        DbfHeader {
            version: bytes[0],
            last_update: get_date_for_header(slice_subrange(bytes, 1, 4)),
            records: read_le_u32(bytes, 4),
            bytes_header: read_le_u16(bytes, 8),
            bytes_record: read_le_u16(bytes, 10),
            language: bytes[29],
        }
    }
}

fn get_date_for_header(bytes: &[u8]) -> (r: String)
    requires
        bytes@.len() == 3,
    ensures
        r@ == header_date_text(bytes@),
{
    let mut r = decimal_string(bytes[2] as u32);
    push_char(&mut r, '.');
    let month = decimal_string(bytes[1] as u32);
    r.append(month.as_str());
    push_char(&mut r, '.');
    let year = decimal_string(bytes[0] as u32 + 1900);
    r.append(year.as_str());
    r
}

/// The two memo-file dialects.
#[derive(Debug, Clone, Copy, PartialEq, Eq, Structural)]
pub enum MemoFileType {
    /// Blocks of a fixed size, each blob ended by a 0x1A byte.
    Old,
    /// Blocks of a declared size, each blob led by its big-endian length.
    New,
}

/// What the memo-file header says of its dialect and block size.
#[derive(Debug, Clone, Copy)]
pub struct MemoHeader {
    pub memo_type: MemoFileType,
    pub block_size: u16,
}

impl MemoHeader {
    /// Reads bytes 6–7 (big-endian block size, nonzero in the newer dialect)
    /// and, when those are zero, bytes 20–21 (little-endian block size).
    pub fn new(bytes: &[u8]) -> (h: Self)
        requires
            bytes@.len() >= 22,
        ensures
            be_u16(bytes@, 6) != 0 ==> h.memo_type == MemoFileType::New && h.block_size == be_u16(
                bytes@,
                6,
            ),
            be_u16(bytes@, 6) == 0 ==> h.memo_type == MemoFileType::Old && h.block_size == le_u16(
                bytes@,
                20,
            ),
    {
        let size = read_be_u16(bytes, 6);
        if size > 0 {
            MemoHeader { memo_type: MemoFileType::New, block_size: size }
        } else {
            MemoHeader { memo_type: MemoFileType::Old, block_size: read_le_u16(bytes, 20) }
        }
    }
}

/// The model of one field descriptor.
pub struct FieldSpec {
    pub name: Seq<char>,
    pub tag: char,
    /// Offset of the field within a record.
    pub displacement: int,
    pub length: nat,
    pub decimals: nat,
}

/// One field descriptor.
#[derive(Debug)]
pub struct DbfFields {
    pub fieldname: String,
    pub fieldtype: char,
    pub displacement: u32,
    pub length: usize,
    pub decimal_places: usize,
}

impl View for DbfFields {
    type V = FieldSpec;

    open spec fn view(&self) -> FieldSpec {
        FieldSpec {
            name: self.fieldname@,
            tag: self.fieldtype,
            displacement: self.displacement as int,
            length: self.length as nat,
            decimals: self.decimal_places as nat,
        }
    }
}

/// The non-zero bytes of `b`, each taken as the character of that code point.
pub open spec fn latin1_text(b: Seq<u8>) -> Seq<char>
    decreases b.len(),
{
    if b.len() == 0 {
        seq![]
    } else if b.last() == 0 {
        latin1_text(b.drop_last())
    } else {
        latin1_text(b.drop_last()).push(b.last() as char)
    }
}

/// The descriptor `d` as stored (name, type tag, displacement, length, decimals).
pub open spec fn raw_field(d: Seq<u8>) -> FieldSpec {
    FieldSpec {
        name: latin1_text(d.subrange(0, 11)),
        tag: d[11] as char,
        displacement: le_u32(d, 12),
        length: d[16] as nat,
        decimals: d[17] as nat,
    }
}

impl DbfFields {
    /// Reads one descriptor.
    pub fn new(bytes: &[u8]) -> (f: Self)
        requires
            bytes@.len() >= 18,
        ensures
            f@ == raw_field(bytes@),
    {
        DbfFields {
            fieldname: latin1_to_string(slice_subrange(bytes, 0, 11)),
            fieldtype: bytes[11] as char,
            displacement: read_le_u32(bytes, 12),
            length: bytes[16] as usize,
            decimal_places: bytes[17] as usize,
        }
    }
}

fn latin1_to_string(latin1_data: &[u8]) -> (r: String)
    ensures
        r@ == latin1_text(latin1_data@),
{
    let mut r = String::new();
    let mut i: usize = 0;
    while i < latin1_data.len()
        invariant
            i <= latin1_data@.len(),
            r@ == latin1_text(latin1_data@.subrange(0, i as int)),
        decreases latin1_data@.len() - i,
    {
        assert(latin1_data@.subrange(0, i + 1).drop_last() =~= latin1_data@.subrange(0, i as int));
        let b = latin1_data[i];
        if b != 0 {
            push_char(&mut r, b as char);
        }
        i = i + 1;
    }
    assert(latin1_data@.subrange(0, i as int) =~= latin1_data@);
    r
}

/// Models of a sequence of descriptors.
pub open spec fn fields_view(v: Seq<DbfFields>) -> Seq<FieldSpec> {
    v.map_values(|f: DbfFields| f@)
}

/// Offset of the `k`-th descriptor.
pub open spec fn descriptor_start(k: int) -> int {
    32 + 32 * k
}

/// The `k`-th descriptor as stored.
pub open spec fn raw_descriptor(s: Seq<u8>, k: int) -> FieldSpec {
    raw_field(s.subrange(descriptor_start(k), descriptor_start(k) + 32))
}

/// Scan of the descriptor array from descriptor `k` on: the number of fields
/// before the 0x0D terminator, or `None` where a descriptor or the terminator
/// would lie past the end of the buffer.
pub open spec fn field_count_from(s: Seq<u8>, k: nat) -> Option<nat>
    decreases s.len() - descriptor_start(k as int),
{
    let pos = descriptor_start(k as int);
    if pos >= s.len() {
        None
    } else if s[pos] == 0x0D {
        Some(k)
    } else if pos + 32 > s.len() {
        None
    } else {
        field_count_from(s, k + 1)
    }
}

/// The number of fields of the table `s`, or `None` where its header is cut short.
pub open spec fn field_count(s: Seq<u8>) -> Option<nat> {
    if s.len() < 32 {
        None
    } else {
        field_count_from(s, 0)
    }
}

/// The descriptors `0..n` of `s` as stored.
pub open spec fn raw_fields(s: Seq<u8>, n: nat) -> Seq<FieldSpec> {
    Seq::new(n, |k: int| raw_descriptor(s, k))
}

/// The sum of the lengths of the fields before the `k`-th.
pub open spec fn length_before(fs: Seq<FieldSpec>, k: int) -> int
    decreases k,
{
    if k <= 0 {
        0
    } else {
        length_before(fs, k - 1) + fs[k - 1].length
    }
}

/// `f` with its displacement replaced by `d`.
pub open spec fn with_displacement(f: FieldSpec, d: int) -> FieldSpec {
    FieldSpec { name: f.name, tag: f.tag, displacement: d, length: f.length, decimals: f.decimals }
}

/// The effective descriptors: a stored displacement of zero is replaced by one
/// plus the lengths of all earlier fields (byte 0 holds the delete flag).
pub open spec fn resolve_displacements(fs: Seq<FieldSpec>) -> Seq<FieldSpec> {
    Seq::new(
        fs.len(),
        |k: int|
            if fs[k].displacement == 0 {
                with_displacement(fs[k], 1 + length_before(fs, k))
            } else {
                fs[k]
            },
    )
}

/// The schema of a table whose descriptor array is well formed.
pub open spec fn schema(s: Seq<u8>) -> Seq<FieldSpec>
    recommends
        field_count(s) is Some,
{
    resolve_displacements(raw_fields(s, field_count(s)->Some_0))
}

/// Whether every displacement of `fs` can be held in 32 bits.
pub open spec fn displacements_fit(fs: Seq<FieldSpec>) -> bool {
    forall|j: int| 0 <= j < fs.len() ==> (#[trigger] fs[j]).displacement <= u32::MAX
}

/// A bound above every 32-bit displacement, at which the running sum of field
/// lengths is held once it gets there.
const SUM_CAP: u64 = 0x1_0000_0000;

proof fn lemma_length_before_prefix(s: Seq<u8>, n: nat, m: nat, k: int)
    requires
        0 <= k <= n <= m,
    ensures
        length_before(raw_fields(s, n), k) == length_before(raw_fields(s, m), k),
    decreases k,
{
    if k > 0 {
        lemma_length_before_prefix(s, n, m, k - 1);
    }
}

proof fn lemma_length_before_nonneg(fs: Seq<FieldSpec>, k: int)
    ensures
        length_before(fs, k) >= 0,
    decreases k,
{
    if k > 0 {
        lemma_length_before_nonneg(fs, k - 1);
    }
}

/// Where no descriptor stores a displacement, the effective displacement of
/// each field is one plus the lengths of the fields before it; and the
/// schema is the one of a table that stores exactly those displacements.
pub proof fn lemma_displacement_fallback(absent: Seq<FieldSpec>, given: Seq<FieldSpec>)
    requires
        absent.len() == given.len(),
        forall|k: int| 0 <= k < absent.len() ==> (#[trigger] absent[k]).displacement == 0,
        forall|k: int|
            0 <= k < absent.len() ==> #[trigger] given[k] == with_displacement(
                absent[k],
                1 + length_before(absent, k),
            ),
    ensures
        forall|k: int|
            0 <= k < absent.len() ==> (#[trigger] resolve_displacements(absent)[k]).displacement
                == 1 + length_before(absent, k),
        resolve_displacements(absent) == resolve_displacements(given),
{
    assert forall|k: int| 0 <= k < absent.len() implies resolve_displacements(absent)[k]
        == resolve_displacements(given)[k] by {
        lemma_length_before_nonneg(absent, k);
        assert(given[k].displacement != 0);
    }
    assert(resolve_displacements(absent) =~= resolve_displacements(given));
}

/// Reads the field descriptors that follow the fixed header, up to the 0x0D
/// terminator, and fills in absent displacements. A filled-in displacement
/// beyond 32 bits lies past every record, which the table's record area
/// cannot hold.
pub fn get_fields(bytes: &[u8]) -> (r: Result<Vec<DbfFields>, DbfError>)
    ensures
        match field_count(bytes@) {
            None => r == Err::<Vec<DbfFields>, DbfError>(DbfError::TruncatedHeader),
            Some(n) => if displacements_fit(resolve_displacements(raw_fields(bytes@, n))) {
                r is Ok && fields_view(r->Ok_0@) == resolve_displacements(raw_fields(bytes@, n))
            } else {
                r == Err::<Vec<DbfFields>, DbfError>(DbfError::TruncatedRecordArea)
            },
        },
{
    if bytes.len() < 32 {
        return Err(DbfError::TruncatedHeader);
    }
    let mut result: Vec<DbfFields> = Vec::new();
    let mut pos: usize = 32;
    let mut running: u64 = 1;
    let mut too_far = false;
    let ghost mut k: nat = 0;
    loop
        invariant
            bytes@.len() >= 32,
            pos == descriptor_start(k as int),
            field_count_from(bytes@, k) == field_count(bytes@),
            running == if 1 + length_before(raw_fields(bytes@, k), k as int) > SUM_CAP {
                SUM_CAP as int
            } else {
                1 + length_before(raw_fields(bytes@, k), k as int)
            },
            too_far == !displacements_fit(resolve_displacements(raw_fields(bytes@, k))),
            !too_far ==> result@.len() == k,
            !too_far ==> forall|j: int|
                0 <= j < k ==> (#[trigger] result@[j])@ == resolve_displacements(
                    raw_fields(bytes@, k),
                )[j],
        decreases bytes@.len() - pos,
    {
        if pos >= bytes.len() {
            return Err(DbfError::TruncatedHeader);
        }
        if bytes[pos] == 0x0D {
            if too_far {
                return Err(DbfError::TruncatedRecordArea);
            }
            assert(fields_view(result@) =~= resolve_displacements(raw_fields(bytes@, k)));
            return Ok(result);
        }
        if bytes.len() - pos < 32 {
            return Err(DbfError::TruncatedHeader);
        }
        let ghost before = raw_fields(bytes@, k);
        let ghost after = raw_fields(bytes@, k + 1);
        proof {
            lemma_length_before_nonneg(before, k as int);
            lemma_length_before_prefix(bytes@, k, k + 1, k as int);
            assert forall|j: int| 0 <= j < k implies length_before(before, j) == length_before(
                after,
                j,
            ) by {
                lemma_length_before_prefix(bytes@, k, k + 1, j);
            }
            assert forall|j: int| 0 <= j < k implies resolve_displacements(before)[j]
                == resolve_displacements(after)[j] by {
                assert(before[j] == after[j]);
            }
        }
        let mut field = DbfFields::new(slice_subrange(bytes, pos, pos + 32));
        assert(bytes@.subrange(pos as int, pos + 32) == bytes@.subrange(
            descriptor_start(k as int),
            descriptor_start(k as int) + 32,
        ));
        assert(field@ == after[k as int]);
        let length = field.length as u64;
        if field.displacement == 0 {
            if running > 0xffff_ffff {
                too_far = true;
            } else {
                field.displacement = running as u32;
            }
        }
        assert(resolve_displacements(after)[k as int].displacement > u32::MAX <==> (field@.displacement
            == 0 && running > 0xffff_ffff));
        running = if running + length > SUM_CAP {
            SUM_CAP
        } else {
            running + length
        };
        if !too_far {
            result.push(field);
        }
        proof {
            if !displacements_fit(resolve_displacements(before)) {
                let j = choose|j: int|
                    0 <= j < before.len() && (#[trigger] resolve_displacements(before)[j]).displacement
                        > u32::MAX;
                assert(resolve_displacements(after)[j].displacement > u32::MAX);
            }
            if too_far {
                assert(!displacements_fit(resolve_displacements(after)));
            } else {
                assert forall|j: int| 0 <= j < after.len() implies (#[trigger] resolve_displacements(
                    after,
                )[j]).displacement <= u32::MAX by {
                    if j < k {
                        assert(resolve_displacements(before)[j].displacement <= u32::MAX);
                    }
                }
            }
        }
        pos = pos + 32;
        proof {
            k = k + 1;
        }
    }
}

/// The names of `fs`, separated by `;`.
pub open spec fn names_text(fs: Seq<FieldSpec>) -> Seq<char>
    decreases fs.len(),
{
    if fs.len() == 0 {
        seq![]
    } else if fs.len() == 1 {
        fs[0].name
    } else {
        names_text(fs.drop_last()) + seq![';'] + fs.last().name
    }
}

/// The header line of a CSV stream: the field names separated by `;`, and CRLF.
pub open spec fn header_line(fs: Seq<FieldSpec>) -> Seq<char> {
    names_text(fs) + seq!['\r', '\n']
}

/// The header line for the fields `fields`.
pub fn get_field_header_as_csv(fields: &Vec<DbfFields>) -> (r: String)
    ensures
        r@ == header_line(fields_view(fields@)),
{
    let mut result = String::new();
    let ghost fs = fields_view(fields@);
    let mut i: usize = 0;
    while i < fields.len()
        invariant
            i <= fields@.len(),
            fs == fields_view(fields@),
            result@ == names_text(fs.subrange(0, i as int)),
        decreases fields@.len() - i,
    {
        assert(fs.subrange(0, i + 1).drop_last() =~= fs.subrange(0, i as int));
        assert(fs.subrange(0, i + 1).last() == fs[i as int]);
        if i > 0 {
            push_char(&mut result, ';');
        }
        result.append(fields[i].fieldname.as_str());
        i = i + 1;
    }
    assert(fs.subrange(0, i as int) =~= fs);
    push_char(&mut result, '\r');
    push_char(&mut result, '\n');
    result
}

} // verus!
