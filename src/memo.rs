//! Resolution of memo references into the companion memo file.
use crate::bytes::{be_u16, be_u32, read_be_u32};
use crate::error::DbfError;
use crate::headerdata::{MemoFileType, MemoHeader};
use crate::text::{decode_windows_1252, windows_1252_text};
use vstd::prelude::*;
use vstd::slice::slice_subrange;

verus! {

/// Block size of the fixed-block dialect.
pub const FIXED_BLOCK_SIZE: u64 = 512;

/// The byte that ends a blob in the fixed-block dialect.
pub const BLOB_END: u8 = 0x1A;

/// The memo file of a table, with its dialect decided once.
pub enum MemoResolver {
    /// No memo file was supplied.
    Missing,
    /// Blobs start at multiples of 512 bytes and end before a 0x1A byte.
    FixedBlock { data: Vec<u8> },
    /// Blobs start at multiples of `block_size` with an 8-byte sub-header whose
    /// bytes 4–7 hold the blob length, big-endian.
    LengthPrefixed { data: Vec<u8>, block_size: u16 },
}

/// The model of a memo resolver.
pub enum MemoView {
    Missing,
    FixedBlock(Seq<u8>),
    LengthPrefixed(Seq<u8>, nat),
}

impl View for MemoResolver {
    type V = MemoView;

    open spec fn view(&self) -> MemoView {
        match self {
            MemoResolver::Missing => MemoView::Missing,
            MemoResolver::FixedBlock { data } => MemoView::FixedBlock(data@),
            MemoResolver::LengthPrefixed { data, block_size } => MemoView::LengthPrefixed(
                data@,
                *block_size as nat,
            ),
        }
    }
}

/// The dialect of the memo file `memo`: length-prefixed where the big-endian
/// bytes 6–7 are nonzero, fixed-block otherwise (also for a file too short to
/// hold its header, in which no block can be found).
pub open spec fn memo_model(memo: Option<Seq<u8>>) -> MemoView {
    match memo {
        None => MemoView::Missing,
        Some(d) => if d.len() >= 22 && be_u16(d, 6) != 0 {
            MemoView::LengthPrefixed(d, be_u16(d, 6) as nat)
        } else {
            MemoView::FixedBlock(d)
        },
    }
}

/// The first 0x1A byte at or after `i`.
pub open spec fn blob_end_from(m: Seq<u8>, i: int) -> Option<int>
    decreases m.len() - i,
{
    if i < 0 || i >= m.len() {
        None
    } else if m[i] == BLOB_END {
        Some(i)
    } else {
        blob_end_from(m, i + 1)
    }
}

/// Blob `block` of a fixed-block memo file: the bytes from the block boundary
/// up to the first 0x1A; `None` where the block starts past the end of the
/// file or the blob is not terminated.
pub open spec fn fixed_blob(m: Seq<u8>, block: nat) -> Option<Seq<u8>> {
    let start = (block * FIXED_BLOCK_SIZE) as int;
    match blob_end_from(m, start) {
        Some(end) => Some(m.subrange(start, end)),
        None => None,
    }
}

/// Blob `block` of a length-prefixed memo file: the `length` bytes after the
/// 8-byte sub-header at `block * block_size`; `None` where they do not fit in the file.
pub open spec fn prefixed_blob(m: Seq<u8>, block: nat, block_size: nat) -> Option<Seq<u8>> {
    let start = (block * block_size) as int;
    if start + 8 > m.len() {
        None
    } else {
        let length = be_u32(m, start + 4);
        if start + 8 + length > m.len() {
            None
        } else {
            Some(m.subrange(start + 8, start + 8 + length))
        }
    }
}

/// The raw bytes of blob `block`, for a memo file that is present.
pub open spec fn memo_blob(m: MemoView, block: nat) -> Option<Seq<u8>> {
    match m {
        MemoView::Missing => None,
        MemoView::FixedBlock(d) => fixed_blob(d, block),
        MemoView::LengthPrefixed(d, size) => prefixed_blob(d, block, size),
    }
}

/// What a memo lookup yields: nothing for block 0, a placeholder where no
/// memo file is present, and otherwise the decoded blob.
pub open spec fn resolve_text(m: MemoView, block: nat) -> Result<Seq<char>, DbfError> {
    if block == 0 {
        Ok(seq![])
    } else if m is Missing {
        Ok(MISSING_MEMO@)
    } else {
        match memo_blob(m, block) {
            None => Err(DbfError::MalformedMemoBlock),
            Some(b) => Ok(windows_1252_text(b)),
        }
    }
}

/// The text that stands for a memo whose file is missing.
pub const MISSING_MEMO: &'static str = "memofile missing";

proof fn lemma_blob_end_step(m: Seq<u8>, i: int)
    requires
        0 <= i < m.len(),
        m[i] != BLOB_END,
    ensures
        blob_end_from(m, i) == blob_end_from(m, i + 1),
{
}

proof fn lemma_blob_end_first(m: Seq<u8>, i: int)
    requires
        blob_end_from(m, i) is Some,
    ensures
        0 <= i <= blob_end_from(m, i)->Some_0 < m.len(),
        m[blob_end_from(m, i)->Some_0] == BLOB_END,
        forall|j: int| i <= j < blob_end_from(m, i)->Some_0 ==> m[j] != BLOB_END,
    decreases m.len() - i,
{
    if 0 <= i < m.len() && m[i] != BLOB_END {
        lemma_blob_end_first(m, i + 1);
    }
}

/// A fixed-block blob is the bytes from its block boundary up to, not
/// including, the first 0x1A byte after it.
pub proof fn lemma_fixed_blob_framing(m: Seq<u8>, block: nat)
    requires
        fixed_blob(m, block) is Some,
    ensures
        ({
            let start = (block * FIXED_BLOCK_SIZE) as int;
            let b = fixed_blob(m, block)->Some_0;
            &&& start + b.len() < m.len()
            &&& m[start + b.len()] == BLOB_END
            &&& forall|i: int| 0 <= i < b.len() ==> b[i] == m[start + i] && b[i] != BLOB_END
        }),
{
    lemma_blob_end_first(m, (block * FIXED_BLOCK_SIZE) as int);
}

/// A length-prefixed blob is exactly the `length` bytes after its 8-byte
/// sub-header, `length` being big-endian at offset 4 of the sub-header.
pub proof fn lemma_prefixed_blob_framing(m: Seq<u8>, block: nat, block_size: nat)
    requires
        prefixed_blob(m, block, block_size) is Some,
    ensures
        ({
            let start = (block * block_size) as int;
            let b = prefixed_blob(m, block, block_size)->Some_0;
            &&& b.len() == be_u32(m, start + 4)
            &&& start + 8 + b.len() <= m.len()
            &&& forall|i: int| 0 <= i < b.len() ==> b[i] == m[start + 8 + i]
        }),
{
}

/// Looking up block `block >= 1` of a fixed-block memo file gives the decoded
/// bytes from the block boundary up to, not including, the first 0x1A after it.
pub proof fn lemma_fixed_block_resolution(d: Seq<u8>, block: nat)
    requires
        block >= 1,
        blob_end_from(d, (block * FIXED_BLOCK_SIZE) as int) is Some,
    ensures
        ({
            let start = (block * FIXED_BLOCK_SIZE) as int;
            let end = blob_end_from(d, start)->Some_0;
            &&& start <= end < d.len()
            &&& d[end] == BLOB_END
            &&& forall|j: int| start <= j < end ==> d[j] != BLOB_END
            &&& resolve_text(MemoView::FixedBlock(d), block) == Ok::<Seq<char>, DbfError>(
                windows_1252_text(d.subrange(start, end)),
            )
        }),
{
    lemma_blob_end_first(d, (block * FIXED_BLOCK_SIZE) as int);
}

/// Looking up block `block >= 1` of a length-prefixed memo file gives the
/// decoded `length` bytes after the 8-byte sub-header, `length` being read
/// big-endian at offset 4 of the sub-header, where they lie within the file.
pub proof fn lemma_prefixed_resolution(d: Seq<u8>, block_size: nat, block: nat)
    requires
        block >= 1,
        block * block_size + 8 <= d.len(),
        block * block_size + 8 + be_u32(d, (block * block_size + 4) as int) <= d.len(),
    ensures
        ({
            let start = (block * block_size) as int;
            let length = be_u32(d, start + 4);
            resolve_text(MemoView::LengthPrefixed(d, block_size), block) == Ok::<
                Seq<char>,
                DbfError,
            >(windows_1252_text(d.subrange(start + 8, start + 8 + length)))
        }),
{
}

impl MemoResolver {
    /// Takes the memo file, if any, and decides its dialect from its header.
    pub fn new(memo: Option<Vec<u8>>) -> (r: Self)
        ensures
            r@ == memo_model(
                match memo {
                    None => None,
                    Some(d) => Some(d@),
                },
            ),
    {
        match memo {
            None => MemoResolver::Missing,
            Some(data) => {
                if data.len() >= 22 {
                    let header = MemoHeader::new(data.as_slice());
                    if header.memo_type == MemoFileType::New {
                        return MemoResolver::LengthPrefixed { data, block_size: header.block_size };
                    }
                }
                MemoResolver::FixedBlock { data }
            },
        }
    }

    /// Whether a memo file is present.
    pub fn is_present(&self) -> (r: bool)
        ensures
            r == !(self@ is Missing),
    {
        match self {
            MemoResolver::Missing => false,
            _ => true,
        }
    }

    /// The text of blob `block`.
    pub fn resolve(&self, block: u32) -> (r: Result<String, DbfError>)
        ensures
            match resolve_text(self@, block as nat) {
                Ok(t) => r is Ok && r->Ok_0@ == t,
                Err(e) => r == Err::<String, DbfError>(e),
            },
    {
        if block == 0 {
            return Ok(String::new());
        }
        match self {
            MemoResolver::Missing => Ok(String::from_str(MISSING_MEMO)),
            MemoResolver::FixedBlock { data } => {
                let start: u64 = block as u64 * FIXED_BLOCK_SIZE;
                if start >= data.len() as u64 {
                    return Err(DbfError::MalformedMemoBlock);
                }
                let start = start as usize;
                let mut end: usize = start;
                while end < data.len() && data[end] != BLOB_END
                    invariant
                        start <= end <= data@.len(),
                        blob_end_from(data@, start as int) == blob_end_from(data@, end as int),
                    decreases data@.len() - end,
                {
                    proof {
                        lemma_blob_end_step(data@, end as int);
                    }
                    end = end + 1;
                }
                if end == data.len() {
                    return Err(DbfError::MalformedMemoBlock);
                }
                Ok(decode_windows_1252(slice_subrange(data.as_slice(), start, end)))
            },
            MemoResolver::LengthPrefixed { data, block_size } => {
                let size = *block_size as u64;
                assert(block as u64 * size <= 0xffff_ffffu64 * 0xffffu64) by (nonlinear_arith)
                    requires
                        block <= 0xffff_ffffu64,
                        size <= 0xffffu64,
                ;
                let start: u64 = block as u64 * size;
                if start + 8 > data.len() as u64 {
                    return Err(DbfError::MalformedMemoBlock);
                }
                let length = read_be_u32(data.as_slice(), start as usize + 4);
                if start + 8 + length as u64 > data.len() as u64 {
                    return Err(DbfError::MalformedMemoBlock);
                }
                let from = start as usize + 8;
                Ok(decode_windows_1252(slice_subrange(data.as_slice(), from, from + length as usize)))
            },
        }
    }
}

} // verus!
