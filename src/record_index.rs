use vstd::prelude::*;

use crate::error::ScanError;

verus! {

/// Where a named record's payload lies in the decompressed stream, and how it is
/// wrapped into lines.
#[derive(Debug)]
pub struct SequenceRecord {
    pub name: Vec<u8>,
    /// Payload bytes, line terminators not counted.
    pub length: u64,
    /// Start of the payload in the decompressed stream.
    pub offset: u64,
    /// Payload bytes on each full line.
    pub line_bases: u32,
    /// Bytes on each full line, its terminator included.
    pub line_width: u32,
}

/// The value of a [`SequenceRecord`].
pub struct RecordModel {
    pub name: Seq<u8>,
    pub length: u64,
    pub offset: u64,
    pub line_bases: u32,
    pub line_width: u32,
}

impl View for SequenceRecord {
    type V = RecordModel;

    open spec fn view(&self) -> RecordModel {
        RecordModel {
            name: self.name@,
            length: self.length,
            offset: self.offset,
            line_bases: self.line_bases,
            line_width: self.line_width,
        }
    }
}

impl RecordModel {
    /// A line never holds more payload than bytes.
    pub open spec fn wf(self) -> bool {
        self.line_bases <= self.line_width
    }
}

/// The pieces of `s` between occurrences of `sep`: one more piece than separators.
pub open spec fn split(s: Seq<u8>, sep: u8) -> Seq<Seq<u8>>
    decreases s.len(),
{
    if s.len() == 0 {
        seq![Seq::empty()]
    } else {
        let p = split(s.drop_last(), sep);
        if s.last() == sep {
            p.push(Seq::empty())
        } else {
            p.update(p.len() - 1, p.last().push(s.last()))
        }
    }
}

pub proof fn lemma_split_nonempty(s: Seq<u8>, sep: u8)
    ensures
        split(s, sep).len() >= 1,
    decreases s.len(),
{
    if s.len() > 0 {
        lemma_split_nonempty(s.drop_last(), sep);
    }
}

/// The lines of an index text; a final line terminator ends the last line
/// rather than starting an empty one.
pub open spec fn index_lines(text: Seq<u8>) -> Seq<Seq<u8>> {
    let p = split(text, 10u8);
    if p.last().len() == 0 {
        p.drop_last()
    } else {
        p
    }
}

pub open spec fn is_digit(b: u8) -> bool {
    48u8 <= b <= 57u8
}

/// A non-empty run of ASCII decimal digits.
pub open spec fn is_decimal(s: Seq<u8>) -> bool {
    s.len() > 0 && forall|i: int| 0 <= i < s.len() ==> is_digit(#[trigger] s[i])
}

/// The number that a run of decimal digits writes.
pub open spec fn decimal_value(s: Seq<u8>) -> nat
    decreases s.len(),
{
    if s.len() == 0 {
        0
    } else {
        decimal_value(s.drop_last()) * 10 + (s.last() - 48u8) as nat
    }
}

/// The value of a decimal field, when it is one and is at most `max`.
pub open spec fn decimal_field(s: Seq<u8>, max: nat) -> Option<nat> {
    if is_decimal(s) && decimal_value(s) <= max {
        Some(decimal_value(s))
    } else {
        None
    }
}

/// The record that one line of the index describes: five tab-separated fields,
/// name, length, offset, line bases and line width, the last of which is at
/// least the one before it.
pub open spec fn parse_line_spec(line: Seq<u8>) -> Option<RecordModel> {
    let f = split(line, 9u8);
    if f.len() != 5 {
        None
    } else {
        let length = decimal_field(f[1], u64::MAX as nat);
        let offset = decimal_field(f[2], u64::MAX as nat);
        let bases = decimal_field(f[3], u32::MAX as nat);
        let width = decimal_field(f[4], u32::MAX as nat);
        if length is Some && offset is Some && bases is Some && width is Some
            && bases->0 <= width->0 {
            Some(
                RecordModel {
                    name: f[0],
                    length: length->0 as u64,
                    offset: offset->0 as u64,
                    line_bases: bases->0 as u32,
                    line_width: width->0 as u32,
                },
            )
        } else {
            None
        }
    }
}

/// Every line of the text describes a record.
pub open spec fn record_index_valid(text: Seq<u8>) -> bool {
    forall|i: int|
        0 <= i < index_lines(text).len() ==> #[trigger] parse_line_spec(index_lines(text)[i]) is Some
}

/// The records that a valid index text describes, in line order.
pub open spec fn record_entries(text: Seq<u8>) -> Seq<RecordModel> {
    index_lines(text).map_values(|l: Seq<u8>| parse_line_spec(l)->0)
}

/// Splits `s` at every `sep`.
pub fn split_bytes(s: &[u8], sep: u8) -> (r: Vec<Vec<u8>>)
    ensures
        r@.len() == split(s@, sep).len(),
        forall|k: int| 0 <= k < r@.len() ==> (#[trigger] r@[k])@ == split(s@, sep)[k],
{
    let n = s.len();
    let mut done: Vec<Vec<u8>> = Vec::new();
    let mut cur: Vec<u8> = Vec::new();
    let mut i: usize = 0;
    proof {
        assert(s@.take(0) =~= Seq::<u8>::empty());
    }
    while i < n
        invariant
            n == s@.len(),
            i <= n,
            done@.len() + 1 == split(s@.take(i as int), sep).len(),
            forall|k: int|
                0 <= k < done@.len() ==> (#[trigger] done@[k])@ == split(s@.take(i as int), sep)[k],
            cur@ == split(s@.take(i as int), sep).last(),
        decreases n - i,
    {
        let b = s[i];
        proof {
            assert(s@.take(i + 1).drop_last() =~= s@.take(i as int));
            lemma_split_nonempty(s@.take(i as int), sep);
        }
        if b == sep {
            done.push(cur);
            cur = Vec::new();
        } else {
            cur.push(b);
        }
        i = i + 1;
    }
    proof {
        assert(s@.take(n as int) =~= s@);
    }
    done.push(cur);
    done
}

pub proof fn lemma_decimal_prefix_le(s: Seq<u8>, k: int)
    requires
        0 <= k <= s.len(),
    ensures
        decimal_value(s.take(k)) <= decimal_value(s),
    decreases s.len(),
{
    if k < s.len() {
        assert(s.drop_last().take(k) =~= s.take(k));
        lemma_decimal_prefix_le(s.drop_last(), k);
    } else {
        assert(s.take(k) =~= s);
    }
}

/// Parses a decimal field no greater than `max`.
pub fn parse_decimal(s: &[u8], max: u64) -> (r: Option<u64>)
    ensures
        match r {
            Some(v) => decimal_field(s@, max as nat) == Some(v as nat),
            None => decimal_field(s@, max as nat) is None,
        },
{
    let n = s.len();
    if n == 0 {
        return None;
    }
    let mut v: u64 = 0;
    let mut i: usize = 0;
    proof {
        assert(s@.take(0) =~= Seq::<u8>::empty());
    }
    while i < n
        invariant
            n == s@.len(),
            i <= n,
            v == decimal_value(s@.take(i as int)),
            v <= max,
            forall|k: int| 0 <= k < i ==> is_digit(#[trigger] s@[k]),
        decreases n - i,
    {
        let b = s[i];
        if b < 48 || b > 57 {
            return None;
        }
        let d = (b - 48) as u64;
        proof {
            assert(s@.take(i + 1).drop_last() =~= s@.take(i as int));
        }
        if d > max || v > (max - d) / 10 {
            proof {
                lemma_decimal_prefix_le(s@, i + 1);
            }
            return None;
        }
        v = v * 10 + d;
        i = i + 1;
    }
    proof {
        assert(s@.take(n as int) =~= s@);
    }
    Some(v)
}

/// Parses one line of the record index.
fn parse_line(line: &[u8]) -> (r: Option<SequenceRecord>)
    ensures
        match r {
            Some(rec) => parse_line_spec(line@) == Some(rec@),
            None => parse_line_spec(line@) is None,
        },
{
    let f = split_bytes(line, 9);
    if f.len() != 5 {
        return None;
    }
    let length = parse_decimal(f[1].as_slice(), u64::MAX);
    let offset = parse_decimal(f[2].as_slice(), u64::MAX);
    let bases = parse_decimal(f[3].as_slice(), u32::MAX as u64);
    let width = parse_decimal(f[4].as_slice(), u32::MAX as u64);
    match (length, offset, bases, width) {
        (Some(length), Some(offset), Some(bases), Some(width)) => {
            if bases > width {
                return None;
            }
            let name = vstd::slice::slice_to_vec(f[0].as_slice());
            Some(
                SequenceRecord {
                    name,
                    length,
                    offset,
                    line_bases: bases as u32,
                    line_width: width as u32,
                },
            )
        },
        _ => None,
    }
}

/// Loads a record index: one line per record, each with five tab-separated
/// fields (name, length, offset, line bases, line width).
/// Any line with another number of fields, a field that is not a decimal number
/// in range, or fewer line bases than line width, makes the whole text malformed.
/// Offsets need not increase from one record to the next.
pub fn parse_record_index(text: &[u8]) -> (r: Result<Vec<SequenceRecord>, ScanError>)
    ensures
        match r {
            Ok(v) => record_index_valid(text@) && v@.len() == record_entries(text@).len()
                && forall|k: int| 0 <= k < v@.len() ==> (#[trigger] v@[k])@ == record_entries(text@)[k],
            Err(e) => !record_index_valid(text@) && e == ScanError::MalformedIndex,
        },
{
    let lines = split_bytes(text, 10);
    proof {
        lemma_split_nonempty(text@, 10u8);
    }
    let mut n = lines.len();
    if lines[n - 1].len() == 0 {
        n = n - 1;
    }
    assert(n == index_lines(text@).len());
    let mut v: Vec<SequenceRecord> = Vec::new();
    let mut i: usize = 0;
    while i < n
        invariant
            n == index_lines(text@).len(),
            n <= lines@.len(),
            lines@.len() == split(text@, 10u8).len(),
            forall|k: int| 0 <= k < n ==> (#[trigger] lines@[k])@ == index_lines(text@)[k],
            i <= n,
            v@.len() == i,
            forall|k: int| 0 <= k < i ==> parse_line_spec(index_lines(text@)[k]) is Some,
            forall|k: int| 0 <= k < i ==> (#[trigger] v@[k])@ == record_entries(text@)[k],
        decreases n - i,
    {
        match parse_line(lines[i].as_slice()) {
            Some(rec) => {
                v.push(rec);
            },
            None => {
                return Err(ScanError::MalformedIndex);
            },
        }
        i = i + 1;
    }
    Ok(v)
}

} // verus!
