//! Fixed-width integers and whitespace trimming on raw bytes.
use vstd::prelude::*;

verus! {

/// Little-endian 16-bit value of `s[at..at + 2]`.
pub open spec fn le_u16(s: Seq<u8>, at: int) -> int {
    s[at] + 256 * s[at + 1]
}

/// Little-endian 32-bit value of `s[at..at + 4]`.
pub open spec fn le_u32(s: Seq<u8>, at: int) -> int {
    s[at] + 256 * s[at + 1] + 65536 * s[at + 2] + 16777216 * s[at + 3]
}

/// Big-endian 16-bit value of `s[at..at + 2]`.
pub open spec fn be_u16(s: Seq<u8>, at: int) -> int {
    256 * s[at] + s[at + 1]
}

/// Big-endian 32-bit value of `s[at..at + 4]`.
pub open spec fn be_u32(s: Seq<u8>, at: int) -> int {
    16777216 * s[at] + 65536 * s[at + 1] + 256 * s[at + 2] + s[at + 3]
}

pub fn read_le_u16(s: &[u8], at: usize) -> (r: u16)
    requires
        at + 2 <= s@.len(),
    ensures
        r == le_u16(s@, at as int),
{
    s[at] as u16 + 256 * (s[at + 1] as u16)
}

pub fn read_be_u16(s: &[u8], at: usize) -> (r: u16)
    requires
        at + 2 <= s@.len(),
    ensures
        r == be_u16(s@, at as int),
{
    256 * (s[at] as u16) + s[at + 1] as u16
}

pub fn read_le_u32(s: &[u8], at: usize) -> (r: u32)
    requires
        at + 4 <= s@.len(),
    ensures
        r == le_u32(s@, at as int),
{
    s[at] as u32 + 256 * (s[at + 1] as u32) + 65536 * (s[at + 2] as u32) + 16777216 * (
    s[at + 3] as u32)
}

pub fn read_be_u32(s: &[u8], at: usize) -> (r: u32)
    requires
        at + 4 <= s@.len(),
    ensures
        r == be_u32(s@, at as int),
{
    16777216 * (s[at] as u32) + 65536 * (s[at + 1] as u32) + 256 * (s[at + 2] as u32) + s[at
        + 3] as u32
}

/// ASCII whitespace: space, tab, line feed, vertical tab, form feed, carriage return.
pub open spec fn is_blank(b: u8) -> bool {
    b == 0x20 || (0x09 <= b && b <= 0x0D)
}

/// `s` without its leading whitespace.
pub open spec fn trim_front(s: Seq<u8>) -> Seq<u8>
    decreases s.len(),
{
    if s.len() > 0 && is_blank(s[0]) {
        trim_front(s.drop_first())
    } else {
        s
    }
}

/// `s` without its trailing whitespace.
pub open spec fn trim_back(s: Seq<u8>) -> Seq<u8>
    decreases s.len(),
{
    if s.len() > 0 && is_blank(s.last()) {
        trim_back(s.drop_last())
    } else {
        s
    }
}

/// `s` without leading and trailing whitespace.
pub open spec fn trim(s: Seq<u8>) -> Seq<u8> {
    trim_back(trim_front(s))
}

/// Bounds `(start, end)` of `trim(s@)` within `s`.
pub fn trim_bounds(s: &[u8]) -> (r: (usize, usize))
    ensures
        r.0 <= r.1 <= s@.len(),
        s@.subrange(r.0 as int, r.1 as int) == trim(s@),
{
    let n = s.len();
    let mut start: usize = 0;
    assert(s@.subrange(0, n as int) =~= s@);
    while start < n && is_blank_byte(s[start])
        invariant
            start <= n == s@.len(),
            trim_front(s@) == trim_front(s@.subrange(start as int, n as int)),
        decreases n - start,
    {
        assert(s@.subrange(start as int, n as int).drop_first() =~= s@.subrange(
            start as int + 1,
            n as int,
        ));
        start = start + 1;
    }
    let ghost front = s@.subrange(start as int, n as int);
    assert(trim_front(s@) == front);
    let mut end: usize = n;
    while end > start && is_blank_byte(s[end - 1])
        invariant
            start <= end <= n == s@.len(),
            front == s@.subrange(start as int, n as int),
            trim_back(front) == trim_back(s@.subrange(start as int, end as int)),
        decreases end,
    {
        assert(s@.subrange(start as int, end as int).drop_last() =~= s@.subrange(
            start as int,
            end as int - 1,
        ));
        end = end - 1;
    }
    (start, end)
}

pub fn is_blank_byte(b: u8) -> (r: bool)
    ensures
        r == is_blank(b),
{
    b == 0x20 || (0x09 <= b && b <= 0x0D)
}

} // verus!
