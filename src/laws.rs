use vstd::prelude::*;

use crate::archive::{seek_spec, stream};
use crate::block_index::{is_seek_entry, starts_at_or_before, BlockEntry};
use crate::decoder::decode_spec;
use crate::distributor::{combine, record_bytes, record_result, total_result};
use crate::error::ScanError;
use crate::record_index::RecordModel;
use crate::scanner::Matcher;

verus! {

/// The block index agrees with the archive: it starts at the stream's start, and
/// each entry names a block from which the archive decodes to the full stream
/// with the entry's uncompressed offset dropped.
pub open spec fn index_consistent(data: Seq<u8>, blocks: Seq<BlockEntry>) -> bool {
    let full = stream(data, 0);
    blocks.len() > 0 && blocks[0].uncompressed_offset == 0 && forall|i: int|
        0 <= i < blocks.len() ==> {
            let e = #[trigger] blocks[i];
            e.compressed_offset <= data.len() && e.uncompressed_offset <= full.0.len() && stream(
                data,
                e.compressed_offset as int,
            ) == (full.0.skip(e.uncompressed_offset as int), full.1)
        }
}

/// Some entry is the last one that starts at or before `target`, once any does.
pub proof fn lemma_seek_entry_exists(blocks: Seq<BlockEntry>, target: u64, i: int)
    requires
        0 <= i < blocks.len(),
        starts_at_or_before(blocks[i], target),
    ensures
        exists|j: int| is_seek_entry(blocks, target, j),
    decreases blocks.len() - i,
{
    if exists|j: int| i < j < blocks.len() && starts_at_or_before(#[trigger] blocks[j], target) {
        let j = choose|j: int| i < j < blocks.len() && starts_at_or_before(#[trigger] blocks[j], target);
        lemma_seek_entry_exists(blocks, target, j);
    } else {
        assert(is_seek_entry(blocks, target, i));
    }
}

/// With a consistent index, a seek to any offset within the decompressed stream
/// leaves the reader exactly at that offset of the full stream.
pub proof fn lemma_seek_matches_full_stream(data: Seq<u8>, blocks: Seq<BlockEntry>, target: u64)
    requires
        index_consistent(data, blocks),
        target <= stream(data, 0).0.len(),
    ensures
        seek_spec(data, blocks, target) == Ok::<(Seq<u8>, bool), ScanError>(
            (stream(data, 0).0.skip(target as int), stream(data, 0).1),
        ),
{
    let full = stream(data, 0);
    assert(starts_at_or_before(blocks[0], target));
    lemma_seek_entry_exists(blocks, target, 0);
    let i = choose|i: int| is_seek_entry(blocks, target, i);
    let e = blocks[i];
    let c = full.0.skip(e.uncompressed_offset as int);
    assert(c.skip(target - e.uncompressed_offset) =~= full.0.skip(target as int));
}

/// With a consistent index, a seek past the end of a cleanly ending stream is
/// out of range.
pub proof fn lemma_seek_past_end(data: Seq<u8>, blocks: Seq<BlockEntry>, target: u64)
    requires
        index_consistent(data, blocks),
        stream(data, 0).1,
        target > stream(data, 0).0.len(),
    ensures
        seek_spec(data, blocks, target) == Err::<(Seq<u8>, bool), ScanError>(
            ScanError::OffsetOutOfRange,
        ),
{
    assert(starts_at_or_before(blocks[0], target));
    lemma_seek_entry_exists(blocks, target, 0);
}

/// With a consistent index, a record whose offset lies past the end of a cleanly
/// ending stream cannot be read: its offset is out of range.
pub proof fn lemma_record_past_end(data: Seq<u8>, blocks: Seq<BlockEntry>, rec: RecordModel)
    requires
        index_consistent(data, blocks),
        stream(data, 0).1,
        rec.offset > stream(data, 0).0.len(),
    ensures
        record_bytes(data, blocks, rec) == Err::<Seq<u8>, ScanError>(ScanError::OffsetOutOfRange),
{
    lemma_seek_past_end(data, blocks, rec.offset);
}

/// What decoding a record straight from the full decompressed stream gives.
pub open spec fn reference_bytes(data: Seq<u8>, rec: RecordModel) -> Result<Seq<u8>, ScanError> {
    let full = stream(data, 0);
    decode_spec(full.0.skip(rec.offset as int), full.1, rec.length, rec.line_bases, rec.line_width)
}

/// The count in a record decoded straight from the full decompressed stream.
pub open spec fn reference_result(data: Seq<u8>, rec: RecordModel, m: Matcher) -> Result<
    nat,
    ScanError,
> {
    match reference_bytes(data, rec) {
        Err(e) => Err(e),
        Ok(buf) => Ok(m.count_spec(buf)),
    }
}

/// The total over records decoded straight from the full decompressed stream,
/// one after another.
pub open spec fn reference_total(data: Seq<u8>, recs: Seq<RecordModel>, m: Matcher) -> Result<
    nat,
    ScanError,
>
    decreases recs.len(),
{
    if recs.len() == 0 {
        Ok(0)
    } else {
        combine(reference_total(data, recs.drop_last(), m), reference_result(data, recs.last(), m))
    }
}

/// Seeking to a record's offset and decoding its length gives the same bytes as
/// decoding it from the full decompressed stream, whichever blocks the record
/// spans.
pub proof fn lemma_record_matches_full_decode(
    data: Seq<u8>,
    blocks: Seq<BlockEntry>,
    rec: RecordModel,
)
    requires
        index_consistent(data, blocks),
        rec.offset <= stream(data, 0).0.len(),
    ensures
        record_bytes(data, blocks, rec) == reference_bytes(data, rec),
{
    lemma_seek_matches_full_stream(data, blocks, rec.offset);
}

/// The indexed scan's total equals the total taken over the full decompressed
/// stream, record after record.
pub proof fn lemma_indexed_total_matches_full_decode(
    data: Seq<u8>,
    blocks: Seq<BlockEntry>,
    recs: Seq<RecordModel>,
    m: Matcher,
)
    requires
        index_consistent(data, blocks),
        forall|k: int| 0 <= k < recs.len() ==> (#[trigger] recs[k]).offset <= stream(data, 0).0.len(),
    ensures
        total_result(data, blocks, recs, m) == reference_total(data, recs, m),
    decreases recs.len(),
{
    if recs.len() > 0 {
        assert forall|k: int| 0 <= k < recs.drop_last().len() implies (
        #[trigger] recs.drop_last()[k]).offset <= stream(data, 0).0.len() by {
            assert(recs.drop_last()[k] == recs[k]);
        }
        lemma_indexed_total_matches_full_decode(data, blocks, recs.drop_last(), m);
        lemma_record_matches_full_decode(data, blocks, recs.last());
    }
}

/// Splitting the records into two runs, scanning each on its own and joining the
/// results gives the total of one scan over all of them: any partition of the
/// records among workers, reduced in order, gives the same result.
pub proof fn lemma_total_split(
    data: Seq<u8>,
    blocks: Seq<BlockEntry>,
    recs: Seq<RecordModel>,
    m: Matcher,
    k: int,
)
    requires
        0 <= k <= recs.len(),
    ensures
        total_result(data, blocks, recs, m) == combine(
            total_result(data, blocks, recs.take(k), m),
            total_result(data, blocks, recs.skip(k), m),
        ),
    decreases recs.len(),
{
    if k == recs.len() {
        assert(recs.take(k) =~= recs);
        assert(recs.skip(k) =~= Seq::<RecordModel>::empty());
    } else {
        let init = recs.drop_last();
        assert(init.take(k) =~= recs.take(k));
        assert(recs.skip(k).drop_last() =~= init.skip(k));
        assert(recs.skip(k).last() == recs.last());
        lemma_total_split(data, blocks, init, m, k);
    }
}

/// Two neighbouring records that can both be read may trade places without
/// changing the total; since such swaps reach every order, the total of records
/// that can all be read does not depend on their order.
pub proof fn lemma_total_swap(
    data: Seq<u8>,
    blocks: Seq<BlockEntry>,
    recs: Seq<RecordModel>,
    m: Matcher,
    i: int,
)
    requires
        0 <= i,
        i + 1 < recs.len(),
        record_result(data, blocks, recs[i], m) is Ok,
        record_result(data, blocks, recs[i + 1], m) is Ok,
    ensures
        total_result(data, blocks, recs, m) == total_result(
            data,
            blocks,
            recs.update(i, recs[i + 1]).update(i + 1, recs[i]),
            m,
        ),
{
    let swapped = recs.update(i, recs[i + 1]).update(i + 1, recs[i]);
    lemma_total_split(data, blocks, recs, m, i + 2);
    lemma_total_split(data, blocks, swapped, m, i + 2);
    assert(swapped.skip(i + 2) =~= recs.skip(i + 2));
    let p = recs.take(i + 2);
    let q = swapped.take(i + 2);
    assert(p.drop_last().drop_last() =~= q.drop_last().drop_last());
    assert(p.drop_last().last() == q.last());
    assert(q.drop_last().last() == p.last());
    let base = total_result(data, blocks, p.drop_last().drop_last(), m);
    assert(total_result(data, blocks, p.drop_last(), m) == combine(
        base,
        record_result(data, blocks, p.drop_last().last(), m),
    ));
    assert(total_result(data, blocks, q.drop_last(), m) == combine(
        base,
        record_result(data, blocks, q.drop_last().last(), m),
    ));
}

} // verus!
