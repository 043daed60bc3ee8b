//! Automatic detection of the framing a scale uses, by counting frame
//! delimiters in the first bytes it sends.
use vstd::prelude::*;
use super::protocols::ProtocolKind;

verus! {

/// Delimiters of one kind that must be seen before a framing is chosen.
pub const MIN_BOUNDARIES: usize = 3;

/// Bound on the learning buffer; when exceeded its older half is dropped.
pub const MAX_LEARN_BYTES: usize = 8192;

/// Number of occurrences of `b` in `s`.
pub open spec fn count_byte(s: Seq<u8>, b: u8) -> nat
    decreases s.len(),
{
    if s.len() == 0 {
        0
    } else {
        count_byte(s.drop_last(), b) + if s.last() == b {
            1nat
        } else {
            0nat
        }
    }
}

/// The byte before position `i` of `s`, where `prev` precedes `s`.
pub open spec fn byte_before(prev: u8, s: Seq<u8>, i: int) -> u8 {
    if i == 0 {
        prev
    } else {
        s[i - 1]
    }
}

/// Number of LF bytes of `s` preceded by CR (`prev` precedes `s`).
pub open spec fn count_crlf(prev: u8, s: Seq<u8>) -> nat
    decreases s.len(),
{
    if s.len() == 0 {
        0
    } else {
        count_crlf(prev, s.drop_last()) + if s.last() == 10 && byte_before(
            prev,
            s,
            s.len() - 1,
        ) == 13 {
            1nat
        } else {
            0nat
        }
    }
}

/// Number of LF bytes of `s` not preceded by CR (`prev` precedes `s`).
pub open spec fn count_lf_only(prev: u8, s: Seq<u8>) -> nat
    decreases s.len(),
{
    if s.len() == 0 {
        0
    } else {
        count_lf_only(prev, s.drop_last()) + if s.last() == 10 && byte_before(
            prev,
            s,
            s.len() - 1,
        ) != 13 {
            1nat
        } else {
            0nat
        }
    }
}

/// The last byte of `s`, or `prev` when `s` is empty.
pub open spec fn last_or(prev: u8, s: Seq<u8>) -> u8 {
    if s.len() == 0 {
        prev
    } else {
        s.last()
    }
}

/// The learning buffer after `s` was appended: its older half is dropped
/// once it is longer than [`MAX_LEARN_BYTES`].
pub open spec fn trim_learn(s: Seq<u8>) -> Seq<u8> {
    if s.len() > 8192 {
        s.skip(4096)
    } else {
        s
    }
}

/// Evidence gathered by the detector.
pub struct DetectorModel {
    pub buffer: Seq<u8>,
    pub stx: nat,
    pub etx: nat,
    pub crlf: nat,
    pub lf_only: nat,
    pub seen: nat,
}

/// The byte seen last (0 before any byte).
pub open spec fn prev_byte(d: DetectorModel) -> u8 {
    last_or(0, d.buffer)
}

/// The evidence after the bytes `s` were seen.
pub open spec fn feed_spec(d: DetectorModel, s: Seq<u8>) -> DetectorModel {
    DetectorModel {
        buffer: trim_learn(d.buffer + s),
        stx: d.stx + count_byte(s, 2),
        etx: d.etx + count_byte(s, 3),
        crlf: d.crlf + count_crlf(prev_byte(d), s),
        lf_only: d.lf_only + count_lf_only(prev_byte(d), s),
        seen: d.seen + s.len(),
    }
}

/// The framing the evidence supports: STX/ETX once three STX and three ETX
/// were seen; otherwise CR/LF once three CR LF pairs or three bare LF were seen.
pub open spec fn decide_spec(d: DetectorModel) -> Option<ProtocolKind> {
    if d.stx >= 3 && d.etx >= 3 {
        Some(ProtocolKind::StxEtx)
    } else if d.crlf >= 3 {
        Some(ProtocolKind::CrLf)
    } else if d.lf_only >= 3 {
        Some(ProtocolKind::CrLf)
    } else {
        None
    }
}

proof fn lemma_count_byte_concat(a: Seq<u8>, c: Seq<u8>, b: u8)
    ensures
        count_byte(a + c, b) == count_byte(a, b) + count_byte(c, b),
    decreases c.len(),
{
    if c.len() == 0 {
        assert(a + c =~= a);
    } else {
        lemma_count_byte_concat(a, c.drop_last(), b);
        assert((a + c).drop_last() =~= a + c.drop_last());
    }
}

proof fn lemma_count_lines_concat(p: u8, a: Seq<u8>, c: Seq<u8>)
    ensures
        count_crlf(p, a + c) == count_crlf(p, a) + count_crlf(last_or(p, a), c),
        count_lf_only(p, a + c) == count_lf_only(p, a) + count_lf_only(last_or(p, a), c),
    decreases c.len(),
{
    if c.len() == 0 {
        assert(a + c =~= a);
    } else {
        lemma_count_lines_concat(p, a, c.drop_last());
        let s = a + c;
        assert(s.drop_last() =~= a + c.drop_last());
        assert(byte_before(p, s, s.len() - 1) == byte_before(last_or(p, a), c, c.len() - 1));
    }
}

proof fn lemma_last_after_feed(d: DetectorModel, s: Seq<u8>)
    ensures
        prev_byte(feed_spec(d, s)) == last_or(prev_byte(d), s),
{
    let x = d.buffer + s;
    if x.len() > 8192 {
        assert(x.skip(4096).last() == x.last());
    }
    if s.len() > 0 {
        assert(x.last() == s.last());
    } else {
        assert(x =~= d.buffer);
    }
}

/// Detection does not depend on how the stream is chunked: feeding `a` then
/// `c` gathers the same evidence (delimiter counts, bytes seen, last byte) as
/// feeding `a + c` at once, hence decides the same framing.
pub proof fn lemma_detection_chunking(d: DetectorModel, a: Seq<u8>, c: Seq<u8>)
    ensures
        feed_spec(feed_spec(d, a), c).stx == feed_spec(d, a + c).stx,
        feed_spec(feed_spec(d, a), c).etx == feed_spec(d, a + c).etx,
        feed_spec(feed_spec(d, a), c).crlf == feed_spec(d, a + c).crlf,
        feed_spec(feed_spec(d, a), c).lf_only == feed_spec(d, a + c).lf_only,
        feed_spec(feed_spec(d, a), c).seen == feed_spec(d, a + c).seen,
        prev_byte(feed_spec(feed_spec(d, a), c)) == prev_byte(feed_spec(d, a + c)),
        decide_spec(feed_spec(feed_spec(d, a), c)) == decide_spec(feed_spec(d, a + c)),
{
    lemma_count_byte_concat(a, c, 2);
    lemma_count_byte_concat(a, c, 3);
    lemma_count_lines_concat(prev_byte(d), a, c);
    lemma_last_after_feed(d, a);
    lemma_last_after_feed(feed_spec(d, a), c);
    lemma_last_after_feed(d, a + c);
    if c.len() > 0 {
        assert((a + c).last() == c.last());
    } else {
        assert(a + c =~= a);
    }
}

/// Two detector states hold the same evidence: delimiter counts, bytes seen
/// and last byte (they may differ only in the learning buffer's older bytes).
pub open spec fn same_evidence(a: DetectorModel, b: DetectorModel) -> bool {
    &&& a.stx == b.stx
    &&& a.etx == b.etx
    &&& a.crlf == b.crlf
    &&& a.lf_only == b.lf_only
    &&& a.seen == b.seen
    &&& prev_byte(a) == prev_byte(b)
}

/// The detector after the chunks `cs` were fed, in order.
pub open spec fn feed_all(d: DetectorModel, cs: Seq<Seq<u8>>) -> DetectorModel
    decreases cs.len(),
{
    if cs.len() == 0 {
        d
    } else {
        feed_all(feed_spec(d, cs[0]), cs.drop_first())
    }
}

/// Detection over any number of chunks gathers the evidence, and so makes
/// the decision, that feeding all the bytes at once does: what the detector
/// decides is a function of every byte fed so far, whatever the chunking.
pub proof fn lemma_detection_all_chunks(d: DetectorModel, cs: Seq<Seq<u8>>)
    ensures
        same_evidence(feed_all(d, cs), feed_spec(d, cs.flatten())),
        decide_spec(feed_all(d, cs)) == decide_spec(feed_spec(d, cs.flatten())),
    decreases cs.len(),
{
    if cs.len() == 0 {
        lemma_last_after_feed(d, Seq::<u8>::empty());
        assert(d.buffer + Seq::<u8>::empty() =~= d.buffer);
        assert(count_byte(Seq::<u8>::empty(), 2) == 0);
    } else {
        let d1 = feed_spec(d, cs[0]);
        let rest = cs.drop_first();
        lemma_detection_all_chunks(d1, rest);
        lemma_detection_chunking(d, cs[0], rest.flatten());
        assert(cs.flatten() == cs[0] + rest.flatten());
    }
}

/// Once the evidence supports a framing it keeps supporting one, whatever
/// bytes follow: delimiter counts only grow.
pub proof fn lemma_detection_stays_decided(d: DetectorModel, s: Seq<u8>)
    requires
        decide_spec(d) is Some,
    ensures
        decide_spec(feed_spec(d, s)) is Some,
{
}

/// Counts delimiter bytes in the stream until a framing can be decided.
pub struct ProtocolDetector {
    buffer: Vec<u8>,
    stx_count: usize,
    etx_count: usize,
    crlf_count: usize,
    lf_only_count: usize,
    bytes_seen: usize,
}

impl View for ProtocolDetector {
    type V = DetectorModel;

    closed spec fn view(&self) -> DetectorModel {
        DetectorModel {
            buffer: self.buffer@,
            stx: self.stx_count as nat,
            etx: self.etx_count as nat,
            crlf: self.crlf_count as nat,
            lf_only: self.lf_only_count as nat,
            seen: self.bytes_seen as nat,
        }
    }
}

/// Each byte counts as at most one delimiter.
pub open spec fn counts_bounded(d: DetectorModel) -> bool {
    d.stx + d.etx + d.crlf + d.lf_only <= d.seen
}

impl ProtocolDetector {
    #[verifier::type_invariant]
    spec fn inv(&self) -> bool {
        counts_bounded(self@)
    }

    /// A detector that has seen nothing.
    pub fn new() -> (r: ProtocolDetector)
        ensures
            r@ == (DetectorModel {
                buffer: Seq::empty(),
                stx: 0,
                etx: 0,
                crlf: 0,
                lf_only: 0,
                seen: 0,
            }),
    {
        ProtocolDetector {
            buffer: Vec::new(),
            stx_count: 0,
            etx_count: 0,
            crlf_count: 0,
            lf_only_count: 0,
            bytes_seen: 0,
        }
    }

    /// Number of bytes seen so far.
    pub fn bytes_seen(&self) -> (r: usize)
        ensures
            r == self@.seen,
    {
        self.bytes_seen
    }

    /// Feeds more bytes of the stream; returns the framing once the evidence
    /// is sufficient (see [`decide_spec`]).
    pub fn feed(&mut self, bytes: &[u8]) -> (r: Option<ProtocolKind>)
        requires
            old(self)@.seen + bytes@.len() <= usize::MAX,
        ensures
            final(self)@ == feed_spec(old(self)@, bytes@),
            r == decide_spec(final(self)@),
    {
        proof {
            use_type_invariant(&*self);
        }
        let ghost d0 = self@;
        let ghost p0 = prev_byte(d0);
        let mut buffer: Vec<u8> = Vec::new();
        std::mem::swap(&mut buffer, &mut self.buffer);
        let mut stx = self.stx_count;
        let mut etx = self.etx_count;
        let mut crlf = self.crlf_count;
        let mut lf = self.lf_only_count;
        let mut seen = self.bytes_seen;
        let mut i: usize = 0;
        while i < bytes.len()
            invariant
                i <= bytes.len(),
                d0.seen + bytes@.len() <= usize::MAX,
                counts_bounded(d0),
                p0 == prev_byte(d0),
                buffer@ == d0.buffer + bytes@.subrange(0, i as int),
                stx == d0.stx + count_byte(bytes@.subrange(0, i as int), 2),
                etx == d0.etx + count_byte(bytes@.subrange(0, i as int), 3),
                crlf == d0.crlf + count_crlf(p0, bytes@.subrange(0, i as int)),
                lf == d0.lf_only + count_lf_only(p0, bytes@.subrange(0, i as int)),
                seen == d0.seen + i,
                stx + etx + crlf + lf <= seen,
            decreases bytes.len() - i,
        {
            let b = bytes[i];
            let ghost pre = bytes@.subrange(0, i as int);
            let ghost post = bytes@.subrange(0, i + 1);
            proof {
                assert(post.drop_last() =~= pre);
                assert(post.last() == b);
            }
            seen += 1;
            if b == 2 {
                stx += 1;
            } else if b == 3 {
                etx += 1;
            } else if b == 10 {
                let prev = if buffer.len() > 0 {
                    buffer[buffer.len() - 1]
                } else {
                    0
                };
                proof {
                    assert(prev == byte_before(p0, post, i as int));
                }
                if prev == 13 {
                    crlf += 1;
                } else {
                    lf += 1;
                }
            }
            buffer.push(b);
            i += 1;
            proof {
                assert(buffer@ =~= d0.buffer + bytes@.subrange(0, i as int));
            }
        }
        proof {
            assert(bytes@.subrange(0, bytes@.len() as int) =~= bytes@);
        }
        if buffer.len() > MAX_LEARN_BYTES {
            let rest = buffer.split_off(MAX_LEARN_BYTES / 2);
            buffer = rest;
        }
        *self = ProtocolDetector {
            buffer,
            stx_count: stx,
            etx_count: etx,
            crlf_count: crlf,
            lf_only_count: lf,
            bytes_seen: seen,
        };
        proof {
            assert(self@.buffer =~= feed_spec(d0, bytes@).buffer);
        }
        self.decide()
    }

    /// The framing the evidence gathered so far supports, if any.
    fn decide(&self) -> (r: Option<ProtocolKind>)
        ensures
            r == decide_spec(self@),
    {
        if self.stx_count >= MIN_BOUNDARIES && self.etx_count >= MIN_BOUNDARIES {
            return Some(ProtocolKind::StxEtx);
        }
        if self.crlf_count >= MIN_BOUNDARIES {
            return Some(ProtocolKind::CrLf);
        }
        if self.lf_only_count >= MIN_BOUNDARIES {
            return Some(ProtocolKind::CrLf);
        }
        None
    }
}

} // verus!
