use vstd::prelude::*;

use crate::archive::{seek, seek_spec};
use crate::block_index::{blocks_sorted, BlockEntry};
use crate::decoder::{decode_spec, read_record};
use crate::error::ScanError;
use crate::record_index::{RecordModel, SequenceRecord};
use crate::scanner::{lemma_count_class_bound, lemma_pattern_count_bound, Matcher};

verus! {

/// The payload of a record as a seek to its offset and a decode of its length give it.
pub open spec fn record_bytes(data: Seq<u8>, blocks: Seq<BlockEntry>, rec: RecordModel) -> Result<
    Seq<u8>,
    ScanError,
> {
    match seek_spec(data, blocks, rec.offset) {
        Err(e) => Err(e),
        Ok((s, ok)) => decode_spec(s, ok, rec.length, rec.line_bases, rec.line_width),
    }
}

/// The number of matches in a record, or why it could not be read.
pub open spec fn record_result(
    data: Seq<u8>,
    blocks: Seq<BlockEntry>,
    rec: RecordModel,
    m: Matcher,
) -> Result<nat, ScanError> {
    match record_bytes(data, blocks, rec) {
        Err(e) => Err(e),
        Ok(buf) => Ok(m.count_spec(buf)),
    }
}

/// Joins the results of two runs of records: the first error, else the sum.
pub open spec fn combine(a: Result<nat, ScanError>, b: Result<nat, ScanError>) -> Result<
    nat,
    ScanError,
> {
    match a {
        Err(e) => Err(e),
        Ok(x) => match b {
            Err(e) => Err(e),
            Ok(y) => Ok(x + y),
        },
    }
}

/// The total over a run of records, failing with the first record's error.
pub open spec fn total_result(
    data: Seq<u8>,
    blocks: Seq<BlockEntry>,
    recs: Seq<RecordModel>,
    m: Matcher,
) -> Result<nat, ScanError>
    decreases recs.len(),
{
    if recs.len() == 0 {
        Ok(0)
    } else {
        combine(
            total_result(data, blocks, recs.drop_last(), m),
            record_result(data, blocks, recs.last(), m),
        )
    }
}

/// The sum of the records' lengths.
pub open spec fn total_length(recs: Seq<RecordModel>) -> nat
    decreases recs.len(),
{
    if recs.len() == 0 {
        0
    } else {
        total_length(recs.drop_last()) + recs.last().length as nat
    }
}

/// The values of a run of records.
pub open spec fn models(recs: Seq<SequenceRecord>) -> Seq<RecordModel> {
    recs.map_values(|r: SequenceRecord| r@)
}

/// A count never exceeds the length of the record it is taken over.
pub proof fn lemma_record_count_bound(
    data: Seq<u8>,
    blocks: Seq<BlockEntry>,
    rec: RecordModel,
    m: Matcher,
)
    ensures
        record_result(data, blocks, rec, m) is Ok ==> record_result(data, blocks, rec, m)->Ok_0
            <= rec.length,
{
    if let Ok(buf) = record_bytes(data, blocks, rec) {
        if let Ok((s, ok)) = seek_spec(data, blocks, rec.offset) {
            assert(buf.len() == rec.length);
        }
        match m {
            Matcher::Fixed(p) => lemma_pattern_count_bound(buf, p@),
            Matcher::AnyOf(c) => lemma_count_class_bound(buf, c@, buf.len() as int),
        }
    }
}

pub proof fn lemma_total_bound(
    data: Seq<u8>,
    blocks: Seq<BlockEntry>,
    recs: Seq<RecordModel>,
    m: Matcher,
)
    ensures
        total_result(data, blocks, recs, m) is Ok ==> total_result(data, blocks, recs, m)->Ok_0
            <= total_length(recs),
    decreases recs.len(),
{
    if recs.len() > 0 {
        lemma_total_bound(data, blocks, recs.drop_last(), m);
        lemma_record_count_bound(data, blocks, recs.last(), m);
    }
}

/// Seeks to a record and decodes its payload.
pub fn decode_record(data: &[u8], blocks: &[BlockEntry], rec: &SequenceRecord) -> (r: Result<
    Vec<u8>,
    ScanError,
>)
    requires
        blocks_sorted(blocks@),
        rec@.wf(),
    ensures
        match r {
            Ok(v) => record_bytes(data@, blocks@, rec@) == Ok::<Seq<u8>, ScanError>(v@),
            Err(e) => record_bytes(data@, blocks@, rec@) == Err::<Seq<u8>, ScanError>(e),
        },
{
    let mut rd = match seek(data, blocks, rec.offset) {
        Ok(rd) => rd,
        Err(e) => {
            return Err(e);
        },
    };
    read_record(&mut rd, rec.length, rec.line_bases, rec.line_width)
}

/// Seeks to a record, decodes it and counts the matches in it.
pub fn count_record(data: &[u8], blocks: &[BlockEntry], rec: &SequenceRecord, m: &Matcher) -> (r:
    Result<u64, ScanError>)
    requires
        blocks_sorted(blocks@),
        rec@.wf(),
    ensures
        match r {
            Ok(n) => record_result(data@, blocks@, rec@, *m) == Ok::<nat, ScanError>(n as nat),
            Err(e) => record_result(data@, blocks@, rec@, *m) == Err::<nat, ScanError>(e),
        },
{
    match decode_record(data, blocks, rec) {
        Ok(buf) => Ok(m.count_in(buf.as_slice())),
        Err(e) => Err(e),
    }
}

/// Whether the records' lengths sum to at most `u64::MAX`, which bounds every total.
pub fn lengths_fit(recs: &[SequenceRecord]) -> (r: bool)
    ensures
        r == (total_length(models(recs@)) <= u64::MAX),
{
    let n = recs.len();
    let mut sum: u64 = 0;
    let mut i: usize = 0;
    while i < n
        invariant
            n == recs@.len(),
            i <= n,
            sum == total_length(models(recs@).take(i as int)),
        decreases n - i,
    {
        proof {
            assert(models(recs@).take(i + 1).drop_last() =~= models(recs@).take(i as int));
            lemma_total_length_prefix(models(recs@), i + 1);
        }
        if sum > u64::MAX - recs[i].length {
            return false;
        }
        sum = sum + recs[i].length;
        i = i + 1;
    }
    proof {
        assert(models(recs@).take(n as int) =~= models(recs@));
    }
    true
}

pub proof fn lemma_total_length_prefix(recs: Seq<RecordModel>, k: int)
    requires
        0 <= k <= recs.len(),
    ensures
        total_length(recs.take(k)) <= total_length(recs),
    decreases recs.len(),
{
    if k < recs.len() {
        assert(recs.drop_last().take(k) =~= recs.take(k));
        lemma_total_length_prefix(recs.drop_last(), k);
    } else {
        assert(recs.take(k) =~= recs);
    }
}

/// Counts the matches over all records, one after another, and returns their
/// sum; the first record that cannot be read ends the scan with its error.
pub fn count(data: &[u8], blocks: &[BlockEntry], recs: &[SequenceRecord], m: &Matcher) -> (r:
    Result<u64, ScanError>)
    requires
        blocks_sorted(blocks@),
        forall|k: int| 0 <= k < recs@.len() ==> (#[trigger] recs@[k])@.wf(),
        total_length(models(recs@)) <= u64::MAX,
    ensures
        match r {
            Ok(n) => total_result(data@, blocks@, models(recs@), *m) == Ok::<nat, ScanError>(
                n as nat,
            ),
            Err(e) => total_result(data@, blocks@, models(recs@), *m) == Err::<nat, ScanError>(e),
        },
{
    let n = recs.len();
    let mut total: u64 = 0;
    let mut i: usize = 0;
    proof {
        assert(models(recs@).take(0) =~= Seq::<RecordModel>::empty());
    }
    while i < n
        invariant
            n == recs@.len(),
            i <= n,
            blocks_sorted(blocks@),
            forall|k: int| 0 <= k < recs@.len() ==> (#[trigger] recs@[k])@.wf(),
            total_length(models(recs@)) <= u64::MAX,
            total_result(data@, blocks@, models(recs@).take(i as int), *m) == Ok::<
                nat,
                ScanError,
            >(total as nat),
        decreases n - i,
    {
        let ghost prefix = models(recs@).take(i + 1);
        proof {
            assert(prefix.drop_last() =~= models(recs@).take(i as int));
            assert(prefix.last() == recs@[i as int]@);
            lemma_total_bound(data@, blocks@, prefix, *m);
            lemma_total_length_prefix(models(recs@), i + 1);
        }
        match count_record(data, blocks, &recs[i], m) {
            Ok(c) => {
                total = total + c;
            },
            Err(e) => {
                proof {
                    assert(models(recs@).take(i as int + 1).take(i as int) =~= models(recs@).take(i as int));
                    lemma_error_persists(data@, blocks@, models(recs@), *m, i + 1);
                }
                return Err(e);
            },
        }
        i = i + 1;
    }
    proof {
        assert(models(recs@).take(n as int) =~= models(recs@));
    }
    Ok(total)
}

/// Once a prefix of the records fails, the whole run fails with the same error.
pub proof fn lemma_error_persists(
    data: Seq<u8>,
    blocks: Seq<BlockEntry>,
    recs: Seq<RecordModel>,
    m: Matcher,
    k: int,
)
    requires
        0 <= k <= recs.len(),
        total_result(data, blocks, recs.take(k), m) is Err,
    ensures
        total_result(data, blocks, recs, m) == total_result(data, blocks, recs.take(k), m),
    decreases recs.len(),
{
    if k < recs.len() {
        assert(recs.drop_last().take(k) =~= recs.take(k));
        lemma_error_persists(data, blocks, recs.drop_last(), m, k);
    } else {
        assert(recs.take(k) =~= recs);
    }
}

} // verus!
