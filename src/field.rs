//! Decoding of one field's raw bytes into text, by field type.
use crate::bytes::{le_u32, read_le_u32, trim, trim_bounds};
use crate::error::DbfError;
use crate::memo::{resolve_text, MemoResolver, MemoView};
use crate::text::{decimal_string, decimal_text, decode_windows_1252, push_char, windows_1252_text};
use vstd::prelude::*;
use vstd::slice::slice_subrange;

verus! {

/// The field types, one per type tag.
#[derive(Debug, Clone, Copy, PartialEq, Eq, Structural)]
pub enum FieldKind {
    /// `C`
    Character,
    /// `N`
    Numeric,
    /// `D`
    Date,
    /// `L`
    Logical,
    /// `I`
    Integer,
    /// `M`
    Memo,
    /// `F`
    Float,
    /// `T`
    Time,
    /// `Y`
    Currency,
    /// `B` and `O`
    Double,
    /// `G`
    General,
    /// `P`
    Picture,
    /// `+`
    Autoincrement,
    /// `@`
    Timestamp,
    /// `V`
    Varchar,
    /// Any other tag.
    Unknown,
}

/// The kind of field that the type tag `tag` declares.
pub open spec fn kind_of(tag: char) -> FieldKind {
    if tag == 'C' {
        FieldKind::Character
    } else if tag == 'N' {
        FieldKind::Numeric
    } else if tag == 'D' {
        FieldKind::Date
    } else if tag == 'L' {
        FieldKind::Logical
    } else if tag == 'I' {
        FieldKind::Integer
    } else if tag == 'M' {
        FieldKind::Memo
    } else if tag == 'F' {
        FieldKind::Float
    } else if tag == 'T' {
        FieldKind::Time
    } else if tag == 'Y' {
        FieldKind::Currency
    } else if tag == 'B' || tag == 'O' {
        FieldKind::Double
    } else if tag == 'G' {
        FieldKind::General
    } else if tag == 'P' {
        FieldKind::Picture
    } else if tag == '+' {
        FieldKind::Autoincrement
    } else if tag == '@' {
        FieldKind::Timestamp
    } else if tag == 'V' {
        FieldKind::Varchar
    } else {
        FieldKind::Unknown
    }
}

impl FieldKind {
    pub fn from_tag(tag: char) -> (r: FieldKind)
        ensures
            r == kind_of(tag),
    {
        match tag {
            'C' => FieldKind::Character,
            'N' => FieldKind::Numeric,
            'D' => FieldKind::Date,
            'L' => FieldKind::Logical,
            'I' => FieldKind::Integer,
            'M' => FieldKind::Memo,
            'F' => FieldKind::Float,
            'T' => FieldKind::Time,
            'Y' => FieldKind::Currency,
            'B' | 'O' => FieldKind::Double,
            'G' => FieldKind::General,
            'P' => FieldKind::Picture,
            '+' => FieldKind::Autoincrement,
            '@' => FieldKind::Timestamp,
            'V' => FieldKind::Varchar,
            _ => FieldKind::Unknown,
        }
    }

    /// The placeholder text of a kind that is not decoded.
    pub fn placeholder(self) -> (r: &'static str)
        requires
            self.is_unsupported(),
        ensures
            r@ == placeholder_text(self),
    {
        match self {
            FieldKind::Float => "missing implementation for float",
            FieldKind::Time => "missing implementation for time",
            FieldKind::Currency => "missing implementation for currency",
            FieldKind::Double => "missing implementation for double",
            FieldKind::General => "missing implementation for general",
            FieldKind::Picture => "missing implementation for picture",
            FieldKind::Autoincrement => "missing implementation for autoinc",
            FieldKind::Timestamp => "missing implementation for timestamp",
            FieldKind::Varchar => "missing implementation for varchar",
            _ => "missing implementation unknown fieldtype",
        }
    }

    pub open spec fn is_unsupported(self) -> bool {
        !(self is Character || self is Numeric || self is Date || self is Logical
            || self is Integer || self is Memo)
    }
}

/// The placeholder that stands in the output for a field of an undecoded kind.
pub open spec fn placeholder_text(k: FieldKind) -> Seq<char> {
    match k {
        FieldKind::Float => "missing implementation for float"@,
        FieldKind::Time => "missing implementation for time"@,
        FieldKind::Currency => "missing implementation for currency"@,
        FieldKind::Double => "missing implementation for double"@,
        FieldKind::General => "missing implementation for general"@,
        FieldKind::Picture => "missing implementation for picture"@,
        FieldKind::Autoincrement => "missing implementation for autoinc"@,
        FieldKind::Timestamp => "missing implementation for timestamp"@,
        FieldKind::Varchar => "missing implementation for varchar"@,
        _ => "missing implementation unknown fieldtype"@,
    }
}

/// `DD.MM.YYYY` rearranged from the eight bytes `YYYYMMDD`.
pub open spec fn date_bytes(t: Seq<u8>) -> Seq<u8> {
    seq![t[6], t[7], 0x2Eu8, t[4], t[5], 0x2Eu8, t[0], t[1], t[2], t[3]]
}

/// A date field: empty unless the field holds exactly eight characters
/// between whitespace, which are reordered from `YYYYMMDD` to `DD.MM.YYYY`.
pub open spec fn date_text(raw: Seq<u8>) -> Seq<char> {
    let t = trim(raw);
    if t.len() != 8 {
        seq![]
    } else {
        windows_1252_text(date_bytes(t))
    }
}

/// A logical field: one byte `y`/`t` (any case) is true, `n`/`f` is false,
/// anything else (the unset marker among them) is empty.
pub open spec fn logical_text(raw: Seq<u8>) -> Seq<char> {
    if raw.len() == 1 && (raw[0] == 0x79 || raw[0] == 0x59 || raw[0] == 0x74 || raw[0] == 0x54) {
        "true"@
    } else if raw.len() == 1 && (raw[0] == 0x6E || raw[0] == 0x4E || raw[0] == 0x66 || raw[0]
        == 0x46) {
        "false"@
    } else {
        seq![]
    }
}

/// An integer field: four bytes, unsigned little-endian, in decimal; a field
/// of another width is empty.
pub open spec fn integer_text(raw: Seq<u8>) -> Seq<char> {
    if raw.len() == 4 {
        decimal_text(le_u32(raw, 0) as nat)
    } else {
        seq![]
    }
}

/// `b` without its zero bytes.
pub open spec fn strip_nul(b: Seq<u8>) -> Seq<u8>
    decreases b.len(),
{
    if b.len() == 0 {
        seq![]
    } else if b.last() == 0 {
        strip_nul(b.drop_last())
    } else {
        strip_nul(b.drop_last()).push(b.last())
    }
}

pub open spec fn is_digit(b: u8) -> bool {
    0x30 <= b && b <= 0x39
}

/// The value of the decimal digits `d`.
pub open spec fn digits_value(d: Seq<u8>) -> int
    decreases d.len(),
{
    if d.len() == 0 {
        0
    } else {
        10 * digits_value(d.drop_last()) + (d.last() - 0x30)
    }
}

/// `t` without one leading `+`.
pub open spec fn unsigned_digits(t: Seq<u8>) -> Seq<u8> {
    if t.len() > 0 && t[0] == 0x2B {
        t.drop_first()
    } else {
        t
    }
}

/// The block index written as decimal text `t` (an optional `+` and digits
/// whose value fits in 32 bits), or 0 where `t` is anything else.
pub open spec fn decimal_index(t: Seq<u8>) -> nat {
    let d = unsigned_digits(t);
    if d.len() > 0 && (forall|i: int| 0 <= i < d.len() ==> is_digit(#[trigger] d[i]))
        && digits_value(d) <= u32::MAX {
        digits_value(d) as nat
    } else {
        0
    }
}

/// The block index of a memo field: four bytes little-endian, or else decimal
/// text between whitespace, zero bytes ignored.
pub open spec fn memo_index(raw: Seq<u8>) -> nat {
    if raw.len() == 4 {
        le_u32(raw, 0) as nat
    } else {
        decimal_index(trim(strip_nul(raw)))
    }
}

/// A memo field: nothing for index 0, the placeholder where no memo file is
/// present, and otherwise the blob between double quotes.
pub open spec fn memo_text(raw: Seq<u8>, m: MemoView) -> Result<Seq<char>, DbfError> {
    let block = memo_index(raw);
    if block == 0 || m is Missing {
        resolve_text(m, block)
    } else {
        match resolve_text(m, block) {
            Ok(t) => Ok(seq!['"'] + t + seq!['"']),
            Err(e) => Err(e),
        }
    }
}

/// The text of a field with type tag `tag` and raw bytes `raw`.
pub open spec fn field_text(tag: char, raw: Seq<u8>, m: MemoView) -> Result<Seq<char>, DbfError> {
    let k = kind_of(tag);
    match k {
        FieldKind::Character => Ok(windows_1252_text(raw)),
        FieldKind::Numeric => Ok(windows_1252_text(raw)),
        FieldKind::Date => Ok(date_text(raw)),
        FieldKind::Logical => Ok(logical_text(raw)),
        FieldKind::Integer => Ok(integer_text(raw)),
        FieldKind::Memo => memo_text(raw, m),
        _ => Ok(placeholder_text(k)),
    }
}

proof fn lemma_digits_grow(d: Seq<u8>, i: int, j: int)
    requires
        0 <= i <= j <= d.len(),
        forall|k: int| 0 <= k < d.len() ==> is_digit(#[trigger] d[k]),
    ensures
        digits_value(d.subrange(0, i)) <= digits_value(d.subrange(0, j)),
        0 <= digits_value(d.subrange(0, i)),
    decreases j,
{
    if j > i {
        lemma_digits_grow(d, i, j - 1);
        assert(d.subrange(0, j).drop_last() =~= d.subrange(0, j - 1));
    } else if i > 0 {
        lemma_digits_grow(d, i - 1, i - 1);
        assert(d.subrange(0, i).drop_last() =~= d.subrange(0, i - 1));
    } else {
        assert(d.subrange(0, 0) =~= Seq::<u8>::empty());
    }
}

/// The index named by the decimal text `t`, or 0.
fn parse_decimal_index(t: &[u8]) -> (r: u32)
    ensures
        r == decimal_index(t@),
{
    let mut i: usize = 0;
    if t.len() > 0 && t[0] == 0x2B {
        i = 1;
    }
    let ghost d = unsigned_digits(t@);
    assert(d =~= t@.subrange(i as int, t@.len() as int));
    if i == t.len() {
        return 0;
    }
    let mut j: usize = i;
    while j < t.len()
        invariant
            i <= j <= t@.len(),
            d == t@.subrange(i as int, t@.len() as int),
            d == unsigned_digits(t@),
            forall|k: int| i <= k < j ==> is_digit(#[trigger] t@[k]),
        decreases t@.len() - j,
    {
        if !(0x30 <= t[j] && t[j] <= 0x39) {
            assert(!is_digit(d[j - i]));
            assert(!(forall|k: int| 0 <= k < d.len() ==> is_digit(#[trigger] d[k])));
            return 0;
        }
        j = j + 1;
    }
    assert forall|k: int| 0 <= k < d.len() implies is_digit(#[trigger] d[k]) by {
        assert(d[k] == t@[k + i]);
    }
    let mut value: u64 = 0;
    let mut j: usize = i;
    while j < t.len()
        invariant
            i <= j <= t@.len(),
            d == t@.subrange(i as int, t@.len() as int),
            d == unsigned_digits(t@),
            forall|k: int| 0 <= k < d.len() ==> is_digit(#[trigger] d[k]),
            value == digits_value(d.subrange(0, j - i)),
            value <= u32::MAX,
        decreases t@.len() - j,
    {
        assert(d.subrange(0, j - i + 1).drop_last() =~= d.subrange(0, j - i));
        assert(d[j - i] == t@[j as int]);
        value = value * 10 + (t[j] - 0x30) as u64;
        j = j + 1;
        assert(value == digits_value(d.subrange(0, j - i)));
        if value > 0xffff_ffff {
            proof {
                lemma_digits_grow(d, j - i, d.len() as int);
                assert(d.subrange(0, d.len() as int) =~= d);
            }
            return 0;
        }
    }
    assert(d.subrange(0, j - i) =~= d);
    value as u32
}

/// The block index that a memo field's raw bytes name.
pub fn memo_block_number(raw: &[u8]) -> (r: u32)
    ensures
        r == memo_index(raw@),
{
    if raw.len() == 4 {
        return read_le_u32(raw, 0);
    }
    let mut kept: Vec<u8> = Vec::new();
    let mut i: usize = 0;
    while i < raw.len()
        invariant
            i <= raw@.len(),
            kept@ == strip_nul(raw@.subrange(0, i as int)),
        decreases raw@.len() - i,
    {
        assert(raw@.subrange(0, i + 1).drop_last() =~= raw@.subrange(0, i as int));
        if raw[i] != 0 {
            kept.push(raw[i]);
        }
        i = i + 1;
    }
    assert(raw@.subrange(0, i as int) =~= raw@);
    let (start, end) = trim_bounds(kept.as_slice());
    parse_decimal_index(slice_subrange(kept.as_slice(), start, end))
}

fn decode_date(raw: &[u8]) -> (r: String)
    ensures
        r@ == date_text(raw@),
{
    let (start, end) = trim_bounds(raw);
    if end - start != 8 {
        return String::new();
    }
    let t = slice_subrange(raw, start, end);
    let mut v: Vec<u8> = Vec::new();
    v.push(t[6]);
    v.push(t[7]);
    v.push(0x2E);
    v.push(t[4]);
    v.push(t[5]);
    v.push(0x2E);
    v.push(t[0]);
    v.push(t[1]);
    v.push(t[2]);
    v.push(t[3]);
    assert(v@ =~= date_bytes(t@));
    decode_windows_1252(v.as_slice())
}

fn decode_logical(raw: &[u8]) -> (r: String)
    ensures
        r@ == logical_text(raw@),
{
    if raw.len() == 1 {
        let b = raw[0];
        if b == 0x79 || b == 0x59 || b == 0x74 || b == 0x54 {
            return String::from_str("true");
        } else if b == 0x6E || b == 0x4E || b == 0x66 || b == 0x46 {
            return String::from_str("false");
        }
    }
    String::new()
}

fn decode_integer(raw: &[u8]) -> (r: String)
    ensures
        r@ == integer_text(raw@),
{
    if raw.len() == 4 {
        decimal_string(read_le_u32(raw, 0))
    } else {
        String::new()
    }
}

fn decode_memo(raw: &[u8], memo: &MemoResolver) -> (r: Result<String, DbfError>)
    ensures
        match memo_text(raw@, memo@) {
            Ok(t) => r is Ok && r->Ok_0@ == t,
            Err(e) => r == Err::<String, DbfError>(e),
        },
{
    let block = memo_block_number(raw);
    if block == 0 || !memo.is_present() {
        return memo.resolve(block);
    }
    match memo.resolve(block) {
        Ok(text) => {
            let mut quoted = String::new();
            push_char(&mut quoted, '"');
            quoted.append(text.as_str());
            push_char(&mut quoted, '"');
            Ok(quoted)
        },
        Err(e) => Err(e),
    }
}

/// The text of one field, from its raw bytes and type tag; memo fields are
/// looked up in `memo`.
pub fn get_field_content_as_string(bytes: &[u8], fieldtype: char, memo: &MemoResolver) -> (r:
    Result<String, DbfError>)
    ensures
        match field_text(fieldtype, bytes@, memo@) {
            Ok(t) => r is Ok && r->Ok_0@ == t,
            Err(e) => r == Err::<String, DbfError>(e),
        },
{
    let kind = FieldKind::from_tag(fieldtype);
    match kind {
        FieldKind::Character | FieldKind::Numeric => Ok(decode_windows_1252(bytes)),
        FieldKind::Date => Ok(decode_date(bytes)),
        FieldKind::Logical => Ok(decode_logical(bytes)),
        FieldKind::Integer => Ok(decode_integer(bytes)),
        FieldKind::Memo => decode_memo(bytes, memo),
        _ => Ok(String::from_str(kind.placeholder())),
    }
}

} // verus!
