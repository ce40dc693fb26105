use vstd::prelude::*;

use std::io::BufRead;

use crate::block_index::{blocks_sorted, is_seek_entry, locate, starts_at_or_before, BlockEntry};
use crate::error::ScanError;

verus! {

/// The content of one BGZF frame once inflated, or `None` when the frame is
/// not a valid BGZF block (bad header, corrupt deflate data, checksum mismatch).
pub uninterp spec fn bgzf_inflated(frame: Seq<u8>) -> Option<Seq<u8>>;

/// Relies on `noodles_bgzf::Reader` through `std::io::BufRead::fill_buf` and
/// `consume`: each `fill_buf` inflates the next frame of `data[start..end]` and
/// checks its CRC, and returns an empty slice once the input is used up; what
/// comes out depends on those bytes alone.
#[verifier::external_body]
fn inflate_frame(data: &[u8], start: usize, end: usize) -> (r: Option<Vec<u8>>)
    requires
        start <= end <= data@.len(),
    ensures
        match r {
            Some(v) => bgzf_inflated(data@.subrange(start as int, end as int)) == Some(v@),
            None => bgzf_inflated(data@.subrange(start as int, end as int)) is None,
        },
{
    let mut reader = noodles_bgzf::Reader::new(&data[start..end]);
    let mut out = Vec::new();
    loop {
        let n = match reader.fill_buf() {
            Ok(chunk) => {
                out.extend_from_slice(chunk);
                chunk.len()
            },
            Err(_) => return None,
        };
        if n == 0 {
            return Some(out);
        }
        reader.consume(n);
    }
}

/// Bytes of a BGZF header, up to and including its block size field.
pub const HEADER_LEN: usize = 18;

/// The total size of the frame that starts at `pos`, as its header states it.
pub open spec fn frame_size(data: Seq<u8>, pos: int) -> int {
    data[pos + 16] as int + 256 * data[pos + 17] as int + 1
}

/// A whole frame, header included, starts at `pos` and ends within `data`.
pub open spec fn frame_fits(data: Seq<u8>, pos: int) -> bool {
    pos + 18 <= data.len() && frame_size(data, pos) >= 18 && pos + frame_size(data, pos)
        <= data.len()
}

/// The decompressed stream that the archive `data` holds from the block at `pos`
/// on: the contents of its blocks, one after another, until the end of `data`
/// (then the flag is true) or until the first block that cannot be framed or
/// inflated (then it is false).
pub open spec fn stream(data: Seq<u8>, pos: int) -> (Seq<u8>, bool)
    decreases data.len() - pos,
{
    if pos < 0 || pos >= data.len() {
        (Seq::empty(), pos == data.len())
    } else if !frame_fits(data, pos) {
        (Seq::empty(), false)
    } else {
        match bgzf_inflated(data.subrange(pos, pos + frame_size(data, pos))) {
            None => (Seq::empty(), false),
            Some(c) => {
                let rest = stream(data, pos + frame_size(data, pos));
                (c + rest.0, rest.1)
            },
        }
    }
}

/// Reads the decompressed stream of an archive one block at a time, holding at
/// most one inflated block.
pub struct BlockReader<'a> {
    data: &'a [u8],
    next: usize,
    block: Vec<u8>,
    at: usize,
}

impl<'a> BlockReader<'a> {
    pub closed spec fn wf(&self) -> bool {
        self.at <= self.block@.len() && self.next <= self.data@.len()
    }

    /// The archive being read.
    pub closed spec fn archive(&self) -> Seq<u8> {
        self.data@
    }

    /// What is left to read: the rest of the cached block, then the stream from
    /// the next block on.
    pub closed spec fn remaining(&self) -> (Seq<u8>, bool) {
        let rest = stream(self.data@, self.next as int);
        (self.block@.skip(self.at as int) + rest.0, rest.1)
    }

    /// A reader positioned at the block that starts at `pos`.
    pub fn new(data: &'a [u8], pos: usize) -> (r: Self)
        requires
            pos <= data@.len(),
        ensures
            r.wf(),
            r.archive() == data@,
            r.remaining() == stream(data@, pos as int),
    {
        let r = BlockReader { data, next: pos, block: Vec::new(), at: 0 };
        assert(r.block@.skip(0) + stream(data@, pos as int).0 =~= stream(data@, pos as int).0);
        r
    }

    /// Replaces the cached block by the next non-empty one. `Ok(false)` at a
    /// clean end of the archive, an error at a block that cannot be read.
    fn load_next(&mut self) -> (r: Result<bool, ScanError>)
        requires
            old(self).wf(),
            old(self).at == old(self).block@.len(),
        ensures
            final(self).wf(),
            final(self).archive() == old(self).archive(),
            final(self).remaining() == old(self).remaining(),
            match r {
                Ok(true) => final(self).at < final(self).block@.len(),
                Ok(false) => old(self).remaining() == (Seq::<u8>::empty(), true),
                Err(e) => old(self).remaining() == (Seq::<u8>::empty(), false) && e
                    == ScanError::DecompressionError,
            },
    {
        proof {
            assert(self.block@.skip(self.at as int) =~= Seq::<u8>::empty());
        }
        loop
            invariant
                self.wf(),
                self.archive() == old(self).archive(),
                self.remaining() == old(self).remaining(),
                self.at == self.block@.len(),
            decreases self.data@.len() - self.next,
        {
            proof {
                assert(self.block@.skip(self.at as int) =~= Seq::<u8>::empty());
                assert(self.remaining().0 =~= stream(self.data@, self.next as int).0);
            }
            let len = self.data.len();
            if self.next == len {
                return Ok(false);
            }
            if len - self.next < HEADER_LEN {
                return Err(ScanError::DecompressionError);
            }
            let size = self.data[self.next + 16] as usize + 256 * (self.data[self.next
                + 17] as usize) + 1;
            if size < HEADER_LEN || size > len - self.next {
                return Err(ScanError::DecompressionError);
            }
            let end = self.next + size;
            match inflate_frame(self.data, self.next, end) {
                None => {
                    return Err(ScanError::DecompressionError);
                },
                Some(content) => {
                    self.block = content;
                    self.at = 0;
                    self.next = end;
                    proof {
                        assert(self.block@.skip(0) =~= self.block@);
                    }
                    if self.block.len() > 0 {
                        return Ok(true);
                    }
                },
            }
        }
    }

    /// Reads the next byte of the stream: `Ok(None)` at a clean end,
    /// `DecompressionError` at a block that cannot be read.
    pub fn read_byte(&mut self) -> (r: Result<Option<u8>, ScanError>)
        requires
            old(self).wf(),
        ensures
            final(self).wf(),
            final(self).archive() == old(self).archive(),
            ({
                let (c, ok) = old(self).remaining();
                match r {
                    Ok(Some(b)) => c.len() > 0 && b == c[0] && final(self).remaining() == (
                    c.drop_first(), ok),
                    Ok(None) => c.len() == 0 && ok,
                    Err(e) => c.len() == 0 && !ok && e == ScanError::DecompressionError,
                }
            }),
    {
        if self.at == self.block.len() {
            match self.load_next() {
                Ok(true) => {},
                Ok(false) => {
                    return Ok(None);
                },
                Err(e) => {
                    return Err(e);
                },
            }
        }
        let n = self.block.len();
        let b = self.block[self.at];
        proof {
            let rest = stream(self.data@, self.next as int).0;
            assert((self.block@.skip(self.at as int) + rest).drop_first() =~= self.block@.skip(
                self.at + 1,
            ) + rest);
        }
        self.at = self.at + 1;
        Ok(Some(b))
    }
}

/// Where a seek to `target` leaves the reader: the stream from `target` on, or
/// why it cannot start there. The seek starts from the last block whose content
/// starts at or before `target`, and discards the bytes up to it.
pub open spec fn seek_spec(data: Seq<u8>, blocks: Seq<BlockEntry>, target: u64) -> Result<
    (Seq<u8>, bool),
    ScanError,
> {
    if exists|i: int| is_seek_entry(blocks, target, i) {
        let i = choose|i: int| is_seek_entry(blocks, target, i);
        let e = blocks[i];
        if e.compressed_offset > data.len() {
            Err(ScanError::OffsetOutOfRange)
        } else {
            let (c, ok) = stream(data, e.compressed_offset as int);
            let skip = target - e.uncompressed_offset;
            if skip <= c.len() {
                Ok((c.skip(skip), ok))
            } else if ok {
                Err(ScanError::OffsetOutOfRange)
            } else {
                Err(ScanError::DecompressionError)
            }
        }
    } else {
        Err(ScanError::OffsetOutOfRange)
    }
}

/// Positions a reader at `target` in the decompressed stream of `data`, using the
/// block index `blocks`.
pub fn seek<'a>(data: &'a [u8], blocks: &[BlockEntry], target: u64) -> (r: Result<
    BlockReader<'a>,
    ScanError,
>)
    requires
        blocks_sorted(blocks@),
    ensures
        match r {
            Ok(rd) => rd.wf() && rd.archive() == data@ && seek_spec(data@, blocks@, target)
                == Ok::<(Seq<u8>, bool), ScanError>(rd.remaining()),
            Err(e) => seek_spec(data@, blocks@, target) == Err::<(Seq<u8>, bool), ScanError>(e),
        },
{
    let i = match locate(blocks, target) {
        None => {
            return Err(ScanError::OffsetOutOfRange);
        },
        Some(i) => i,
    };
    proof {
        assert forall|j: int| is_seek_entry(blocks@, target, j) implies j == i by {
            if j < i {
                assert(starts_at_or_before(blocks@[i as int], target));
            }
        }
        assert(is_seek_entry(blocks@, target, i as int));
        let j = choose|j: int| is_seek_entry(blocks@, target, j);
        assert(j == i);
    }
    let e = blocks[i];
    if e.compressed_offset > data.len() as u64 {
        return Err(ScanError::OffsetOutOfRange);
    }
    let mut rd = BlockReader::new(data, e.compressed_offset as usize);
    let skip = target - e.uncompressed_offset;
    let ghost c = stream(data@, e.compressed_offset as int).0;
    let mut k: u64 = 0;
    while k < skip
        invariant
            rd.wf(),
            rd.archive() == data@,
            k <= skip,
            k <= c.len(),
            i < blocks@.len(),
            e == blocks@[i as int],
            e.compressed_offset <= data@.len(),
            skip == target - e.uncompressed_offset,
            c == stream(data@, e.compressed_offset as int).0,
            forall|j: int| is_seek_entry(blocks@, target, j) ==> j == i,
            is_seek_entry(blocks@, target, i as int),
            rd.remaining() == (c.skip(k as int), stream(data@, e.compressed_offset as int).1),
        decreases skip - k,
    {
        match rd.read_byte() {
            Ok(Some(_)) => {
                proof {
                    assert(c.skip(k as int).drop_first() =~= c.skip(k + 1));
                }
            },
            Ok(None) => {
                assert(c.len() == k);
                return Err(ScanError::OffsetOutOfRange);
            },
            Err(e) => {
                assert(c.len() == k);
                return Err(e);
            },
        }
        k = k + 1;
    }
    Ok(rd)
}

} // verus!
