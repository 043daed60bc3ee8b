//! Line framing: each line ended by LF (optionally CR LF) is one reading.
//! Used by indicators in continuous ASCII mode and many PLC bridges.
use vstd::prelude::*;
use crate::events::{events_match, ReadingModel, WeighEvent};
use crate::text::{
    find_byte, find_from, lemma_find_from, lemma_find_from_prefix, lemma_find_from_skip,
};
use super::{frame_reading, parse_ascii_frame, reading_seq, Protocol};

verus! {

/// Readings of the complete lines of `buf` from `pos` on, and the position
/// after the last line terminator (`pos` when there is none). Empty lines
/// and lines without a reading yield nothing.
pub open spec fn crlf_scan(buf: Seq<u8>, pos: int) -> (Seq<ReadingModel>, int)
    decreases buf.len() - pos,
{
    if pos < 0 || pos >= buf.len() {
        (Seq::empty(), pos)
    } else {
        proof {
            lemma_find_from(buf, pos, 10);
        }
        match find_from(buf, pos, 10) {
            None => (Seq::empty(), pos),
            Some(nl) => {
                let line_end = if nl > pos && buf[nl - 1] == 13 {
                    nl - 1
                } else {
                    nl
                };
                let line = buf.subrange(pos, line_end);
                let here = if line.len() > 0 {
                    reading_seq(frame_reading(line))
                } else {
                    Seq::empty()
                };
                let rest = crlf_scan(buf, nl + 1);
                (here + rest.0, rest.1)
            },
        }
    }
}

/// The discarded count lies between the scan start and the end of the buffer.
pub proof fn lemma_crlf_scan_bounds(buf: Seq<u8>, pos: int)
    requires
        0 <= pos <= buf.len(),
    ensures
        pos <= crlf_scan(buf, pos).1 <= buf.len(),
    decreases buf.len() - pos,
{
    if pos < buf.len() {
        lemma_find_from(buf, pos, 10);
        match find_from(buf, pos, 10) {
            None => {},
            Some(nl) => {
                lemma_crlf_scan_bounds(buf, nl + 1);
            },
        }
    }
}

/// Scanning `s` from `i` is scanning `s.skip(p)` from `i - p`, with the
/// consumed count shifted by `p`.
pub proof fn lemma_crlf_scan_skip(s: Seq<u8>, p: int, i: int)
    requires
        0 <= p <= i,
        p <= s.len(),
    ensures
        crlf_scan(s, i).0 == crlf_scan(s.skip(p), i - p).0,
        crlf_scan(s, i).1 == crlf_scan(s.skip(p), i - p).1 + p,
    decreases s.len() - i,
{
    let t = s.skip(p);
    if i < s.len() {
        lemma_find_from(s, i, 10);
        lemma_find_from_skip(s, p, i, 10);
        match find_from(s, i, 10) {
            None => {},
            Some(nl) => {
                lemma_crlf_scan_skip(s, p, nl + 1);
                let le = if nl > i && s[nl - 1] == 13 {
                    nl - 1
                } else {
                    nl
                };
                assert(s.subrange(i, le) =~= t.subrange(i - p, le - p));
            },
        }
    }
}

/// Scanning `a + c` from a position inside `a` first yields what scanning
/// `a` yields, then goes on from where the scan of `a` stopped.
pub proof fn lemma_crlf_scan_prefix(a: Seq<u8>, c: Seq<u8>, p: int)
    requires
        0 <= p <= a.len(),
    ensures
        crlf_scan(a + c, p).0 == crlf_scan(a, p).0 + crlf_scan(a + c, crlf_scan(a, p).1).0,
        crlf_scan(a + c, p).1 == crlf_scan(a + c, crlf_scan(a, p).1).1,
    decreases a.len() - p,
{
    let s = a + c;
    if p == a.len() {
        assert(crlf_scan(a, p).0 + crlf_scan(s, p).0 =~= crlf_scan(s, p).0);
    } else {
        lemma_find_from(a, p, 10);
        match find_from(a, p, 10) {
            None => {
                assert(crlf_scan(a, p).0 + crlf_scan(s, p).0 =~= crlf_scan(s, p).0);
            },
            Some(nl) => {
                lemma_find_from_prefix(a, c, p, 10);
                lemma_crlf_scan_prefix(a, c, nl + 1);
                let le = if nl > p && a[nl - 1] == 13 {
                    nl - 1
                } else {
                    nl
                };
                assert(a.subrange(p, le) =~= s.subrange(p, le));
                let here = if a.subrange(p, le).len() > 0 {
                    reading_seq(frame_reading(a.subrange(p, le)))
                } else {
                    Seq::empty()
                };
                assert(crlf_scan(s, p).0 == here + crlf_scan(s, nl + 1).0);
                assert(crlf_scan(a, p).0 == here + crlf_scan(a, nl + 1).0);
                assert(crlf_scan(s, p).0 =~= crlf_scan(a, p).0 + crlf_scan(
                    s,
                    crlf_scan(a, p).1,
                ).0);
            },
        }
    }
}

/// The scan of a buffer holding one line `line` followed by its terminator
/// `term` (LF or CR LF), when the line holds no LF.
proof fn lemma_crlf_one_line(line: Seq<u8>, term: Seq<u8>)
    requires
        term == seq![10u8] || term == seq![13u8, 10u8],
        forall|k: int| 0 <= k < line.len() ==> #[trigger] line[k] != 10,
    ensures
        crlf_scan(line + term, 0).1 == line.len() + term.len(),
        crlf_scan(line + term, 0).0 == (if (if term.len() == 2 {
            line
        } else if line.len() > 0 && line.last() == 13 {
            line.drop_last()
        } else {
            line
        }).len() > 0 {
            reading_seq(
                frame_reading(
                    if term.len() == 2 {
                        line
                    } else if line.len() > 0 && line.last() == 13 {
                        line.drop_last()
                    } else {
                        line
                    },
                ),
            )
        } else {
            Seq::<ReadingModel>::empty()
        }),
{
    let buf = line + term;
    let nl = buf.len() - 1;
    lemma_find_from(buf, 0, 10);
    assert(buf[nl] == 10);
    if term.len() == 2 {
        assert(buf[line.len() as int] == 13);
    }
    assert forall|m: int| 0 <= m < nl implies #[trigger] buf[m] != 10 by {
        if m < line.len() {
            assert(buf[m] == line[m]);
        }
    }
    assert(find_from(buf, 0, 10) == Some(nl)) by {
        if find_from(buf, 0, 10) != Some(nl) {
            match find_from(buf, 0, 10) {
                Some(k) => {
                    assert(k < nl ==> buf[k] != 10);
                },
                None => {
                    assert(buf[nl] != 10);
                },
            }
        }
    }
    let le = if nl > 0 && buf[nl - 1] == 13 {
        nl - 1
    } else {
        nl
    };
    if term.len() == 2 {
        assert(buf.subrange(0, le) =~= line);
    } else if line.len() > 0 && line.last() == 13 {
        assert(buf[nl - 1] == line.last());
        assert(buf.subrange(0, le) =~= line.drop_last());
    } else {
        if nl > 0 {
            assert(buf[nl - 1] == line.last());
        }
        assert(buf.subrange(0, le) =~= line);
    }
    assert(crlf_scan(buf, nl + 1) == (Seq::<ReadingModel>::empty(), nl + 1));
    let here = if buf.subrange(0, le).len() > 0 {
        reading_seq(frame_reading(buf.subrange(0, le)))
    } else {
        Seq::<ReadingModel>::empty()
    };
    assert(here + Seq::<ReadingModel>::empty() =~= here);
}

/// Only a CR directly before the LF is stripped: a line that holds no LF and
/// does not end in CR yields, ended by a bare LF, exactly what it yields
/// ended by CR LF, namely the reading of the whole line, its bytes kept
/// whole as the reading's raw frame; and every byte of the line and its
/// terminator is consumed.
pub proof fn lemma_line_endings(line: Seq<u8>)
    requires
        forall|k: int| 0 <= k < line.len() ==> #[trigger] line[k] != 10,
        line.len() == 0 || line.last() != 13,
    ensures
        crlf_scan(line + seq![10u8], 0).0 == crlf_scan(line + seq![13u8, 10u8], 0).0,
        crlf_scan(line + seq![10u8], 0).1 == line.len() + 1,
        crlf_scan(line + seq![13u8, 10u8], 0).1 == line.len() + 2,
        line.len() > 0 ==> crlf_scan(line + seq![10u8], 0).0 == reading_seq(frame_reading(line)),
        line.len() == 0 ==> crlf_scan(line + seq![10u8], 0).0.len() == 0,
        forall|j: int|
            0 <= j < crlf_scan(line + seq![10u8], 0).0.len() ==> (#[trigger] crlf_scan(
                line + seq![10u8],
                0,
            ).0[j]).raw == line,
{
    lemma_crlf_one_line(line, seq![10u8]);
    lemma_crlf_one_line(line, seq![13u8, 10u8]);
}

/// Line extraction does not depend on how the stream is chunked: extracting
/// from `a`, then from what `a` left pending followed by `c`, yields the
/// readings and consumes the bytes that extracting from `a + c` at once does.
pub proof fn lemma_crlf_chunking(a: Seq<u8>, c: Seq<u8>)
    ensures
        crlf_scan(a + c, 0).0 == crlf_scan(a, 0).0 + crlf_scan(
            a.skip(crlf_scan(a, 0).1) + c,
            0,
        ).0,
        crlf_scan(a + c, 0).1 == crlf_scan(a, 0).1 + crlf_scan(
            a.skip(crlf_scan(a, 0).1) + c,
            0,
        ).1,
{
    let c1 = crlf_scan(a, 0).1;
    lemma_crlf_scan_bounds(a, 0);
    lemma_crlf_scan_prefix(a, c, 0);
    lemma_crlf_scan_skip(a + c, c1, c1);
    assert((a + c).skip(c1) =~= a.skip(c1) + c);
}

/// Line-oriented protocol (CR/LF or LF alone).
pub struct CrLfProtocol;

impl Protocol for CrLfProtocol {
    fn name(&self) -> (r: &'static str)
        ensures
            r@ == "CR/LF"@,
    {
        "CR/LF"
    }

    fn try_extract(&self, buffer: &[u8]) -> (r: (Vec<WeighEvent>, usize))
        ensures
            events_match(r.0@, crlf_scan(buffer@, 0).0),
            r.1 as int == crlf_scan(buffer@, 0).1,
            r.1 <= buffer@.len(),
    {
        proof {
            lemma_crlf_scan_bounds(buffer@, 0);
        }
        let mut events: Vec<WeighEvent> = Vec::new();
        let mut pos: usize = 0;
        let ghost mut acc: Seq<ReadingModel> = Seq::empty();
        let ghost b = buffer@;
        assert(acc + crlf_scan(b, 0).0 =~= crlf_scan(b, 0).0);
        loop
            invariant
                b == buffer@,
                pos <= buffer.len(),
                events_match(events@, acc),
                crlf_scan(b, 0).0 == acc + crlf_scan(b, pos as int).0,
                crlf_scan(b, 0).1 == crlf_scan(b, pos as int).1,
            decreases buffer.len() - pos,
        {
            if pos >= buffer.len() {
                proof {
                    assert(acc + crlf_scan(b, pos as int).0 =~= acc);
                }
                return (events, pos);
            }
            proof {
                lemma_find_from(b, pos as int, 10);
            }
            let nl_pos = match find_byte(buffer, pos, 10) {
                None => {
                    proof {
                        assert(acc + crlf_scan(b, pos as int).0 =~= acc);
                    }
                    return (events, pos);
                },
                Some(k) => k,
            };
            let line_end = if nl_pos > pos && buffer[nl_pos - 1] == 13 {
                nl_pos - 1
            } else {
                nl_pos
            };
            let line = vstd::slice::slice_subrange(buffer, pos, line_end);
            let ghost here: Seq<ReadingModel> = if line@.len() > 0 {
                reading_seq(frame_reading(line@))
            } else {
                Seq::empty()
            };
            if line.len() > 0 {
                match parse_ascii_frame(line) {
                    Some(event) => {
                        events.push(event);
                    },
                    None => {},
                }
            }
            proof {
                let old_len = acc.len();
                acc = acc + here;
                assert(crlf_scan(b, pos as int).0 =~= here + crlf_scan(b, nl_pos + 1).0);
                assert(crlf_scan(b, 0).0 =~= acc + crlf_scan(b, nl_pos + 1).0);
                assert forall|i: int| 0 <= i < events@.len() implies #[trigger] events@[i].matches(
                    acc[i],
                ) by {
                    if i < old_len {
                    }
                }
            }
            pos = nl_pos + 1;
        }
    }
}

} // verus!
