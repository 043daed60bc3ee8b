//! STX (0x02) payload ETX (0x03) framing with an optional checksum byte.
//! Used by Mettler Toledo, Rinstrum, CAS and most industrial indicators.
use vstd::prelude::*;
use crate::events::{events_match, ReadingModel, WeighEvent};
use crate::text::{
    find_byte, find_from, lemma_find_from, lemma_find_from_prefix, lemma_find_from_skip,
    lemma_find_from_suffix,
};
use super::{frame_reading, parse_ascii_frame, reading_seq, Protocol};

verus! {

/// The byte after a frame's ETX is a checksum (skipped) unless it is STX, CR or LF.
pub open spec fn is_checksum_byte(b: u8) -> bool {
    !(b == 2 || b == 13 || b == 10)
}

/// Readings of the complete frames of `buf` from `pos` on, and how many
/// bytes may be discarded: everything up to the last frame (and its
/// checksum); up to an STX whose ETX has not arrived yet; or, when no STX
/// follows, all but the last byte.
pub open spec fn stx_scan(buf: Seq<u8>, pos: int) -> (Seq<ReadingModel>, int)
    decreases buf.len() - pos,
{
    if pos < 0 || pos >= buf.len() {
        (Seq::empty(), pos)
    } else {
        proof {
            lemma_find_from(buf, pos, 2);
        }
        match find_from(buf, pos, 2) {
            None => (Seq::empty(), buf.len() - 1),
            Some(s) => {
                proof {
                    lemma_find_from(buf, s + 1, 3);
                }
                match find_from(buf, s + 1, 3) {
                    None => (Seq::empty(), s),
                    Some(e) => {
                        let payload = buf.subrange(s + 1, e);
                        let n0 = e + 1;
                        let next = if n0 < buf.len() && is_checksum_byte(buf[n0]) {
                            n0 + 1
                        } else {
                            n0
                        };
                        let rest = stx_scan(buf, next);
                        (reading_seq(frame_reading(payload)) + rest.0, rest.1)
                    },
                }
            },
        }
    }
}

/// The discarded count lies between the scan start and the end of the buffer.
pub proof fn lemma_stx_scan_bounds(buf: Seq<u8>, pos: int)
    requires
        0 <= pos <= buf.len(),
    ensures
        0 <= stx_scan(buf, pos).1 <= buf.len(),
    decreases buf.len() - pos,
{
    if pos < buf.len() {
        lemma_find_from(buf, pos, 2);
        match find_from(buf, pos, 2) {
            None => {},
            Some(s) => {
                lemma_find_from(buf, s + 1, 3);
                match find_from(buf, s + 1, 3) {
                    None => {},
                    Some(e) => {
                        let n0 = e + 1;
                        let next = if n0 < buf.len() && is_checksum_byte(buf[n0]) {
                            n0 + 1
                        } else {
                            n0
                        };
                        lemma_stx_scan_bounds(buf, next);
                    },
                }
            },
        }
    }
}

/// The scan from a position inside `s` depends only on where the next STX is.
pub proof fn lemma_stx_scan_same_stx(s: Seq<u8>, p: int, q: int)
    requires
        0 <= p < s.len(),
        0 <= q < s.len(),
        find_from(s, p, 2) == find_from(s, q, 2),
    ensures
        stx_scan(s, p) == stx_scan(s, q),
{
}

/// Scanning `s` from `i` is scanning `s.skip(p)` from `i - p`, with the
/// consumed count shifted by `p`.
pub proof fn lemma_stx_scan_skip(s: Seq<u8>, p: int, i: int)
    requires
        0 <= p <= i,
        p <= s.len(),
    ensures
        stx_scan(s, i).0 == stx_scan(s.skip(p), i - p).0,
        stx_scan(s, i).1 == stx_scan(s.skip(p), i - p).1 + p,
    decreases s.len() - i,
{
    let t = s.skip(p);
    if i < s.len() {
        lemma_find_from(s, i, 2);
        lemma_find_from_skip(s, p, i, 2);
        match find_from(s, i, 2) {
            None => {},
            Some(k) => {
                lemma_find_from(s, k + 1, 3);
                lemma_find_from_skip(s, p, k + 1, 3);
                match find_from(s, k + 1, 3) {
                    None => {},
                    Some(e) => {
                        let n0 = e + 1;
                        let next = if n0 < s.len() && is_checksum_byte(s[n0]) {
                            n0 + 1
                        } else {
                            n0
                        };
                        lemma_stx_scan_skip(s, p, next);
                        assert(s.subrange(k + 1, e) =~= t.subrange(k + 1 - p, e - p));
                    },
                }
            },
        }
    }
}

/// Scanning `a + c` from a position inside `a` first yields the readings
/// scanning `a` yields, then those of scanning `a + c` from where the scan
/// of `a` stopped.
pub proof fn lemma_stx_scan_prefix(a: Seq<u8>, c: Seq<u8>, p: int)
    requires
        0 <= p <= a.len(),
    ensures
        stx_scan(a + c, p).0 == stx_scan(a, p).0 + stx_scan(a + c, stx_scan(a, p).1).0,
    decreases a.len() - p,
{
    let s = a + c;
    if p == a.len() {
        assert(stx_scan(a, p).0 + stx_scan(s, p).0 =~= stx_scan(s, p).0);
    } else {
        lemma_find_from(a, p, 2);
        match find_from(a, p, 2) {
            None => {
                let q = a.len() - 1;
                lemma_find_from_suffix(a, c, p, 2);
                lemma_find_from(a, q, 2);
                lemma_find_from_suffix(a, c, q, 2);
                lemma_stx_scan_same_stx(s, p, q);
                assert(stx_scan(a, p).0 + stx_scan(s, q).0 =~= stx_scan(s, q).0);
            },
            Some(k) => {
                lemma_find_from_prefix(a, c, p, 2);
                lemma_find_from(a, k + 1, 3);
                match find_from(a, k + 1, 3) {
                    None => {
                        lemma_find_from(a, k, 2);
                        lemma_find_from_prefix(a, c, k, 2);
                        lemma_stx_scan_same_stx(s, p, k);
                        assert(stx_scan(a, p).0 + stx_scan(s, k).0 =~= stx_scan(s, k).0);
                    },
                    Some(e) => {
                        lemma_find_from_prefix(a, c, k + 1, 3);
                        let payload = a.subrange(k + 1, e);
                        assert(payload =~= s.subrange(k + 1, e));
                        let here = reading_seq(frame_reading(payload));
                        let n0 = e + 1;
                        if n0 < a.len() {
                            let next = if is_checksum_byte(a[n0]) {
                                n0 + 1
                            } else {
                                n0
                            };
                            lemma_stx_scan_prefix(a, c, next);
                            assert(stx_scan(s, p).0 =~= stx_scan(a, p).0 + stx_scan(
                                s,
                                stx_scan(a, p).1,
                            ).0);
                        } else {
                            let next_s = if n0 < s.len() && is_checksum_byte(s[n0]) {
                                n0 + 1
                            } else {
                                n0
                            };
                            if next_s != n0 {
                                assert(s[n0] != 2);
                                assert(find_from(s, n0, 2) == find_from(s, n0 + 1, 2));
                                if n0 + 1 < s.len() {
                                    lemma_stx_scan_same_stx(s, n0, n0 + 1);
                                } else {
                                    assert(find_from(s, n0 + 1, 2) is None);
                                    assert(stx_scan(s, n0).0 =~= Seq::<ReadingModel>::empty());
                                }
                            }
                            assert(stx_scan(s, next_s).0 == stx_scan(s, n0).0);
                            assert(stx_scan(a, n0).0 =~= Seq::<ReadingModel>::empty());
                            assert(stx_scan(a, n0).1 == n0);
                            assert(stx_scan(a, p).0 == here + stx_scan(a, n0).0);
                            assert(stx_scan(a, p).1 == n0);
                            assert(stx_scan(s, p).0 == here + stx_scan(s, next_s).0);
                            assert(stx_scan(s, p).0 =~= stx_scan(a, p).0 + stx_scan(
                                s,
                                stx_scan(a, p).1,
                            ).0);
                        }
                    },
                }
            },
        }
    }
}

/// STX/ETX extraction does not depend on how the stream is chunked:
/// extracting from `a`, then from what `a` left pending followed by `c`,
/// yields the readings extracting from `a + c` at once yields.
pub proof fn lemma_stx_chunking(a: Seq<u8>, c: Seq<u8>)
    ensures
        stx_scan(a + c, 0).0 == stx_scan(a, 0).0 + stx_scan(a.skip(stx_scan(a, 0).1) + c, 0).0,
{
    let c1 = stx_scan(a, 0).1;
    lemma_stx_scan_bounds(a, 0);
    lemma_stx_scan_prefix(a, c, 0);
    lemma_stx_scan_skip(a + c, c1, c1);
    assert((a + c).skip(c1) =~= a.skip(c1) + c);
}

/// STX/ETX protocol.
pub struct StxEtxProtocol;

impl Protocol for StxEtxProtocol {
    fn name(&self) -> (r: &'static str)
        ensures
            r@ == "STX/ETX"@,
    {
        "STX/ETX"
    }

    fn try_extract(&self, buffer: &[u8]) -> (r: (Vec<WeighEvent>, usize))
        ensures
            events_match(r.0@, stx_scan(buffer@, 0).0),
            r.1 as int == stx_scan(buffer@, 0).1,
            r.1 <= buffer@.len(),
    {
        proof {
            lemma_stx_scan_bounds(buffer@, 0);
        }
        let mut events: Vec<WeighEvent> = Vec::new();
        let mut pos: usize = 0;
        let ghost mut acc: Seq<ReadingModel> = Seq::empty();
        let ghost b = buffer@;
        assert(acc + stx_scan(b, 0).0 =~= stx_scan(b, 0).0);
        loop
            invariant
                b == buffer@,
                pos <= buffer.len(),
                events_match(events@, acc),
                stx_scan(b, 0).0 == acc + stx_scan(b, pos as int).0,
                stx_scan(b, 0).1 == stx_scan(b, pos as int).1,
            decreases buffer.len() - pos,
        {
            if pos >= buffer.len() {
                proof {
                    assert(acc + stx_scan(b, pos as int).0 =~= acc);
                }
                return (events, pos);
            }
            proof {
                lemma_find_from(b, pos as int, 2);
            }
            let stx_pos = match find_byte(buffer, pos, 2) {
                None => {
                    proof {
                        assert(acc + stx_scan(b, pos as int).0 =~= acc);
                    }
                    return (events, buffer.len().saturating_sub(1));
                },
                Some(k) => k,
            };
            proof {
                lemma_find_from(b, stx_pos + 1, 3);
            }
            let etx_pos = match find_byte(buffer, stx_pos + 1, 3) {
                None => {
                    proof {
                        assert(acc + stx_scan(b, pos as int).0 =~= acc);
                    }
                    return (events, stx_pos);
                },
                Some(k) => k,
            };
            let payload = vstd::slice::slice_subrange(buffer, stx_pos + 1, etx_pos);
            let ghost here: Seq<ReadingModel> = reading_seq(frame_reading(payload@));
            match parse_ascii_frame(payload) {
                Some(event) => {
                    events.push(event);
                },
                None => {},
            }
            let mut next = etx_pos + 1;
            if next < buffer.len() && !(buffer[next] == 2 || buffer[next] == 13 || buffer[next]
                == 10) {
                next += 1;
            }
            proof {
                let old_len = acc.len();
                acc = acc + here;
                assert(stx_scan(b, pos as int).0 =~= here + stx_scan(b, next as int).0);
                assert(stx_scan(b, 0).0 =~= acc + stx_scan(b, next as int).0);
                assert forall|i: int| 0 <= i < events@.len() implies #[trigger] events@[i].matches(
                    acc[i],
                ) by {
                    if i < old_len {
                    }
                }
            }
            pos = next;
        }
    }
}

} // verus!
