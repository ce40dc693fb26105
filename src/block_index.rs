use vstd::prelude::*;

use crate::error::ScanError;

verus! {

/// One entry of the block index: where a compressed block starts, and where its
/// content starts in the decompressed stream.
#[derive(Debug, Clone, Copy, PartialEq, Eq, Structural)]
pub struct BlockEntry {
    pub compressed_offset: u64,
    pub uncompressed_offset: u64,
}

/// The little-endian unsigned integer held by the eight bytes of `b` from `at`.
pub open spec fn le_u64_at(b: Seq<u8>, at: int) -> int {
    b[at] as int + 0x100 * b[at + 1] as int + 0x1_0000 * b[at + 2] as int + 0x100_0000 * b[at
        + 3] as int + 0x1_0000_0000 * b[at + 4] as int + 0x100_0000_0000 * b[at + 5] as int
        + 0x1_0000_0000_0000 * b[at + 6] as int + 0x100_0000_0000_0000 * b[at + 7] as int
}

/// The count that a block index file states in its first eight bytes.
pub open spec fn stated_count(b: Seq<u8>) -> int {
    le_u64_at(b, 0)
}

/// The `i`-th pair of a block index file.
pub open spec fn entry_at(b: Seq<u8>, i: int) -> BlockEntry {
    BlockEntry {
        compressed_offset: le_u64_at(b, 8 + 16 * i) as u64,
        uncompressed_offset: le_u64_at(b, 16 + 16 * i) as u64,
    }
}

/// The file holds the stated count and exactly that many pairs.
pub open spec fn block_index_well_framed(b: Seq<u8>) -> bool {
    b.len() >= 8 && b.len() == 8 + 16 * stated_count(b)
}

/// Both offsets never decrease from one entry to the next.
pub open spec fn blocks_sorted(e: Seq<BlockEntry>) -> bool {
    forall|i: int, j: int|
        0 <= i <= j < e.len() ==> e[i].compressed_offset <= e[j].compressed_offset
            && e[i].uncompressed_offset <= e[j].uncompressed_offset
}

/// The entries that a well-framed block index file lists, in file order.
pub open spec fn block_entries(b: Seq<u8>) -> Seq<BlockEntry> {
    Seq::new(stated_count(b) as nat, |i: int| entry_at(b, i))
}

/// A block index file is accepted when it is well framed and its entries are sorted.
pub open spec fn block_index_valid(b: Seq<u8>) -> bool {
    block_index_well_framed(b) && blocks_sorted(block_entries(b))
}

/// The entry of the first block: its content starts the stream.
pub open spec fn origin() -> BlockEntry {
    BlockEntry { compressed_offset: 0, uncompressed_offset: 0 }
}

/// The mapping that a valid block index file gives: its entries, preceded by the
/// first block's entry unless the file lists that one first itself.
pub open spec fn loaded_entries(b: Seq<u8>) -> Seq<BlockEntry> {
    let e = block_entries(b);
    if e.len() > 0 && e[0] == origin() {
        e
    } else {
        seq![origin()] + e
    }
}

/// Reads the little-endian `u64` at `at`.
pub fn read_le_u64(b: &[u8], at: usize) -> (r: u64)
    requires
        at + 8 <= b@.len(),
    ensures
        r == le_u64_at(b@, at as int),
{
    (b[at] as u64) + 0x100 * (b[at + 1] as u64) + 0x1_0000 * (b[at + 2] as u64) + 0x100_0000 * (
    b[at + 3] as u64) + 0x1_0000_0000 * (b[at + 4] as u64) + 0x100_0000_0000 * (b[at + 5] as u64)
        + 0x1_0000_0000_0000 * (b[at + 6] as u64) + 0x100_0000_0000_0000 * (b[at + 7] as u64)
}

/// Loads a block index: a little-endian `u64` count N, then N pairs of
/// little-endian `u64` (compressed offset, uncompressed offset).
/// The file is refused when its length is not exactly that of N pairs, or when
/// either offset ever decreases, since lookups rely on the order.
/// The mapping always starts with the first block's entry (0, 0): where the
/// file does not list it first, it is added in front.
pub fn parse_block_index(b: &[u8]) -> (r: Result<Vec<BlockEntry>, ScanError>)
    ensures
        match r {
            Ok(v) => block_index_valid(b@) && v@ == loaded_entries(b@) && v@.len() > 0 && v@[0]
                == origin() && blocks_sorted(v@),
            Err(e) => !block_index_valid(b@) && e == ScanError::MalformedIndex,
        },
{
    let len = b.len();
    if len < 8 {
        return Err(ScanError::MalformedIndex);
    }
    let count = read_le_u64(b, 0);
    let body = len - 8;
    if body % 16 != 0 || (body / 16) as u64 != count {
        return Err(ScanError::MalformedIndex);
    }
    let n = body / 16;
    let mut v: Vec<BlockEntry> = Vec::new();
    let mut i: usize = 0;
    while i < n
        invariant
            len == b@.len(),
            len == 8 + 16 * n,
            n == stated_count(b@),
            i <= n,
            v@.len() == i,
            forall|k: int| 0 <= k < i ==> v@[k] == entry_at(b@, k),
            forall|k: int, j: int|
                0 <= k <= j < i ==> v@[k].compressed_offset <= v@[j].compressed_offset
                    && v@[k].uncompressed_offset <= v@[j].uncompressed_offset,
        decreases n - i,
    {
        let e = BlockEntry {
            compressed_offset: read_le_u64(b, 8 + 16 * i),
            uncompressed_offset: read_le_u64(b, 16 + 16 * i),
        };
        if i > 0 {
            let prev = v[i - 1];
            if e.compressed_offset < prev.compressed_offset || e.uncompressed_offset
                < prev.uncompressed_offset {
                assert(block_entries(b@)[i - 1] == prev);
                assert(block_entries(b@)[i as int] == e);
                return Err(ScanError::MalformedIndex);
            }
        }
        v.push(e);
        i = i + 1;
    }
    assert(v@ =~= block_entries(b@));
    let first = BlockEntry { compressed_offset: 0, uncompressed_offset: 0 };
    if v.len() == 0 || v[0] != first {
        v.insert(0, first);
        assert(v@ =~= loaded_entries(b@));
    }
    Ok(v)
}

/// The entries from which a seek to `target` may start: those whose content
/// starts at or before it.
pub open spec fn starts_at_or_before(e: BlockEntry, target: u64) -> bool {
    e.uncompressed_offset <= target
}

/// `i` is the last entry whose content starts at or before `target`.
pub open spec fn is_seek_entry(blocks: Seq<BlockEntry>, target: u64, i: int) -> bool {
    0 <= i < blocks.len() && starts_at_or_before(blocks[i], target) && forall|j: int|
        i < j < blocks.len() ==> !starts_at_or_before(#[trigger] blocks[j], target)
}

/// Binary search for the last entry whose uncompressed offset is at most `target`;
/// `None` when every entry starts after it.
pub fn locate(blocks: &[BlockEntry], target: u64) -> (r: Option<usize>)
    requires
        blocks_sorted(blocks@),
    ensures
        match r {
            Some(i) => is_seek_entry(blocks@, target, i as int),
            None => forall|j: int|
                0 <= j < blocks@.len() ==> !starts_at_or_before(#[trigger] blocks@[j], target),
        },
{
    // Entries below `lo` start at or before the target; entries from `hi` on start after it.
    let mut lo: usize = 0;
    let mut hi: usize = blocks.len();
    while lo < hi
        invariant
            lo <= hi <= blocks@.len(),
            blocks_sorted(blocks@),
            forall|j: int| 0 <= j < lo ==> starts_at_or_before(#[trigger] blocks@[j], target),
            forall|j: int|
                hi <= j < blocks@.len() ==> !starts_at_or_before(#[trigger] blocks@[j], target),
        decreases hi - lo,
    {
        let mid = lo + (hi - lo) / 2;
        if blocks[mid].uncompressed_offset <= target {
            lo = mid + 1;
        } else {
            hi = mid;
        }
    }
    if lo == 0 {
        None
    } else {
        Some(lo - 1)
    }
}

} // verus!
