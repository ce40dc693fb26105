use vstd::prelude::*;

use vstd::arithmetic::div_mod::lemma_fundamental_div_mod_converse_mod;

use crate::archive::BlockReader;
use crate::error::ScanError;

verus! {

/// The byte with ASCII lower case letters made upper case.
pub open spec fn upper(b: u8) -> u8 {
    if 97u8 <= b <= 122u8 {
        (b - 32) as u8
    } else {
        b
    }
}

pub open spec fn upper_all(s: Seq<u8>) -> Seq<u8> {
    s.map_values(|b: u8| upper(b))
}

/// Makes an ASCII lower case letter upper case; leaves other bytes alone.
pub fn to_upper(b: u8) -> (r: u8)
    ensures
        r == upper(b),
{
    if 97 <= b && b <= 122 {
        b - 32
    } else {
        b
    }
}

/// Whether the byte at position `k` of a line-wrapped stream is payload: each
/// line holds `line_bases` payload bytes, then terminator bytes up to `line_width`.
pub open spec fn is_payload(k: int, line_bases: u32, line_width: u32) -> bool {
    line_bases > 0 && k % (line_width as int) < line_bases
}

/// The payload bytes of a line-wrapped stream `s`, terminators left out.
pub open spec fn payload(s: Seq<u8>, line_bases: u32, line_width: u32) -> Seq<u8>
    decreases s.len(),
{
    if s.len() == 0 {
        Seq::empty()
    } else {
        let p = payload(s.drop_last(), line_bases, line_width);
        if is_payload(s.len() - 1, line_bases, line_width) {
            p.push(s.last())
        } else {
            p
        }
    }
}

/// The payload of a prefix is a prefix of the payload.
pub proof fn lemma_payload_prefix(s: Seq<u8>, n: int, line_bases: u32, line_width: u32)
    requires
        0 <= n <= s.len(),
    ensures
        payload(s.take(n), line_bases, line_width).len() <= payload(s, line_bases, line_width).len(),
        payload(s, line_bases, line_width).take(
            payload(s.take(n), line_bases, line_width).len() as int,
        ) == payload(s.take(n), line_bases, line_width),
    decreases s.len(),
{
    if n == s.len() {
        assert(s.take(n) =~= s);
        assert(payload(s, line_bases, line_width).take(
            payload(s, line_bases, line_width).len() as int,
        ) =~= payload(s, line_bases, line_width));
    } else {
        assert(s.drop_last().take(n) =~= s.take(n));
        lemma_payload_prefix(s.drop_last(), n, line_bases, line_width);
        let p = payload(s.drop_last(), line_bases, line_width);
        let q = payload(s.take(n), line_bases, line_width);
        if is_payload(s.len() - 1, line_bases, line_width) {
            assert(p.push(s.last()).take(q.len() as int) =~= p.take(q.len() as int));
        }
    }
}

/// What decoding a record of `length` payload bytes from the stream `s` gives:
/// its first `length` payload bytes, upper-cased; `TruncatedRecord` when the
/// stream ends cleanly before that, `DecompressionError` when it ends at a block
/// that cannot be read (`ok` false).
pub open spec fn decode_spec(s: Seq<u8>, ok: bool, length: u64, line_bases: u32, line_width: u32) -> Result<
    Seq<u8>,
    ScanError,
> {
    let p = payload(s, line_bases, line_width);
    if p.len() >= length {
        Ok(upper_all(p.take(length as int)))
    } else if ok {
        Err(ScanError::TruncatedRecord)
    } else {
        Err(ScanError::DecompressionError)
    }
}

/// Reads a record of `length` payload bytes from `rd`, skipping line
/// terminators and upper-casing each payload byte as it is taken.
pub fn read_record(rd: &mut BlockReader, length: u64, line_bases: u32, line_width: u32) -> (r: Result<
    Vec<u8>,
    ScanError,
>)
    requires
        old(rd).wf(),
        line_bases <= line_width,
    ensures
        final(rd).wf(),
        ({
            let (s, ok) = old(rd).remaining();
            match r {
                Ok(v) => decode_spec(s, ok, length, line_bases, line_width) == Ok::<
                    Seq<u8>,
                    ScanError,
                >(v@),
                Err(e) => decode_spec(s, ok, length, line_bases, line_width) == Err::<
                    Seq<u8>,
                    ScanError,
                >(e),
            }
        }),
{
    let ghost s = rd.remaining().0;
    let ghost ok = rd.remaining().1;
    let ghost mut consumed: int = 0;
    let ghost mut lines: int = 0;
    let mut out: Vec<u8> = Vec::new();
    let mut col: u32 = 0;
    let ghost lw = line_width as int;
    proof {
        assert(s.take(0) =~= Seq::<u8>::empty());
        assert(s.skip(0) =~= s);
        assert(upper_all(Seq::<u8>::empty()) =~= Seq::<u8>::empty());
    }
    while (out.len() as u64) < length
        invariant
            rd.wf(),
            line_bases <= line_width,
            0 <= consumed <= s.len(),
            rd.remaining() == (s.skip(consumed), ok),
            out@ == upper_all(payload(s.take(consumed), line_bases, line_width)),
            out@.len() <= length,
            line_width > 0 ==> col < line_width && consumed == lines * line_width + col,
            line_width == 0 ==> col == 0,
            lw == line_width as int,
            s == old(rd).remaining().0,
            ok == old(rd).remaining().1,
        decreases s.len() - consumed,
    {
        proof {
            lemma_payload_prefix(s, consumed, line_bases, line_width);
        }
        match rd.read_byte() {
            Ok(Some(b)) => {
                proof {
                    assert(s.take(consumed + 1).drop_last() =~= s.take(consumed));
                    assert(s.skip(consumed).drop_first() =~= s.skip(consumed + 1));
                    if line_width > 0 {
                        lemma_fundamental_div_mod_converse_mod(
                            consumed,
                            line_width as int,
                            lines,
                            col as int,
                        );
                    }
                }
                if line_bases > 0 && col < line_bases {
                    out.push(to_upper(b));
                    proof {
                        assert(out@ =~= upper_all(
                            payload(s.take(consumed + 1), line_bases, line_width),
                        ));
                    }
                }
                if line_width > 0 && col + 1 < line_width {
                    col = col + 1;
                } else {
                    proof {
                        if line_width > 0 {
                            assert(col + 1 == line_width);
                            assert((lines + 1) * lw == lines * lw + lw) by (nonlinear_arith);
                            assert(consumed + 1 == (lines + 1) * lw);
                            lines = lines + 1;
                        }
                    }
                    col = 0;
                }
                proof {
                    consumed = consumed + 1;
                }
            },
            Ok(None) => {
                proof {
                    assert(s.skip(consumed).len() == 0);
                    assert(s.take(consumed) =~= s);
                    assert(out@.len() == payload(s, line_bases, line_width).len());
                }
                return Err(ScanError::TruncatedRecord);
            },
            Err(e) => {
                proof {
                    assert(s.skip(consumed).len() == 0);
                    assert(s.take(consumed) =~= s);
                    assert(out@.len() == payload(s, line_bases, line_width).len());
                }
                return Err(e);
            },
        }
    }
    proof {
        lemma_payload_prefix(s, consumed, line_bases, line_width);
        let p = payload(s, line_bases, line_width);
        assert(p.take(length as int) =~= payload(s.take(consumed), line_bases, line_width));
    }
    Ok(out)
}

} // verus!
