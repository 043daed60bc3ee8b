//! Parsing of the serial byte stream: the framing is learnt from the first
//! bytes, then every complete frame becomes a weight reading.
pub mod detector;
pub mod protocols;

use vstd::prelude::*;
use crate::events::{events_match, ReadingModel, WeighEvent};
use self::detector::{decide_spec, feed_spec, DetectorModel, ProtocolDetector};
use self::protocols::{extract_spec, ProtocolKind};
use self::protocols::crlf::{crlf_scan, lemma_crlf_chunking};
use self::protocols::stx_etx::{lemma_stx_chunking, stx_scan};

verus! {

/// Bound on the bytes kept waiting for a frame; beyond it the older half is dropped.
pub const MAX_PENDING_BYTES: usize = 16_384;

/// State of the stream parser.
pub struct EngineModel {
    pub buffer: Seq<u8>,
    pub detector: DetectorModel,
    pub protocol: Option<ProtocolKind>,
}

/// The pending bytes after `consumed` bytes were taken by extraction; when
/// more than [`MAX_PENDING_BYTES`] remain, the older half is dropped.
pub open spec fn after_extract(buf: Seq<u8>, consumed: int) -> Seq<u8> {
    let rest = buf.skip(consumed);
    if rest.len() > 16_384 {
        rest.skip((rest.len() / 2) as int)
    } else {
        rest
    }
}

/// One step of the parser on a chunk of bytes: the next state and the
/// readings to emit. While learning, bytes go to the detector and yield no
/// reading; once the framing is known the pending bytes are cleared. Then
/// complete frames of the pending bytes yield readings.
pub open spec fn step_spec(m: EngineModel, bytes: Seq<u8>) -> (EngineModel, Seq<ReadingModel>) {
    let all = m.buffer + bytes;
    match m.protocol {
        None => {
            let d = feed_spec(m.detector, bytes);
            match decide_spec(d) {
                Some(k) => (
                    EngineModel { buffer: Seq::empty(), detector: d, protocol: Some(k) },
                    Seq::empty(),
                ),
                None => (EngineModel { buffer: all, detector: d, protocol: None }, Seq::empty()),
            }
        },
        Some(k) => {
            let ex = extract_spec(k, all);
            (
                EngineModel {
                    buffer: after_extract(all, ex.1),
                    detector: m.detector,
                    protocol: Some(k),
                },
                ex.0,
            )
        },
    }
}

/// Once the framing is known, the readings do not depend on how the stream
/// is chunked: the chunk `x` then the chunk `y` yield the readings `x + y`
/// yields at once, provided no pending bytes were dropped after `x`. With
/// line framing the parser also ends in the same state.
pub proof fn lemma_parser_chunking(m: EngineModel, x: Seq<u8>, y: Seq<u8>)
    requires
        m.protocol is Some,
        (m.buffer + x).skip(extract_spec(m.protocol->0, m.buffer + x).1).len() <= MAX_PENDING_BYTES,
    ensures
        step_spec(m, x).1 + step_spec(step_spec(m, x).0, y).1 == step_spec(m, x + y).1,
        m.protocol == Some(ProtocolKind::CrLf) ==> step_spec(step_spec(m, x).0, y).0 == step_spec(
            m,
            x + y,
        ).0,
{
    let k = m.protocol->0;
    let a = m.buffer + x;
    assert(m.buffer + (x + y) =~= a + y);
    match k {
        ProtocolKind::CrLf => {
            lemma_crlf_chunking(a, y);
            let c1 = crlf_scan(a, 0).1;
            let c2 = crlf_scan(a.skip(c1) + y, 0).1;
            crate::parser::protocols::crlf::lemma_crlf_scan_bounds(a, 0);
            crate::parser::protocols::crlf::lemma_crlf_scan_bounds(a.skip(c1) + y, 0);
            assert((a + y).skip(c1 + c2) =~= (a.skip(c1) + y).skip(c2));
        },
        ProtocolKind::StxEtx => {
            lemma_stx_chunking(a, y);
        },
    }
}

/// The parser's state and readings after the chunks `cs`, in order.
pub open spec fn run_steps(m: EngineModel, cs: Seq<Seq<u8>>) -> (EngineModel, Seq<ReadingModel>)
    decreases cs.len(),
{
    if cs.len() == 0 {
        (m, Seq::empty())
    } else {
        let first = step_spec(m, cs[0]);
        let rest = run_steps(first.0, cs.drop_first());
        (rest.0, first.1 + rest.1)
    }
}

/// Taking the chunk `x` drops no pending bytes: once the framing is known,
/// what extraction leaves is within [`MAX_PENDING_BYTES`].
pub open spec fn keeps_pending(m: EngineModel, x: Seq<u8>) -> bool {
    match m.protocol {
        Some(k) => (m.buffer + x).skip(extract_spec(k, m.buffer + x).1).len() <= MAX_PENDING_BYTES,
        None => true,
    }
}

/// No chunk of `cs` makes the parser drop pending bytes.
pub open spec fn never_trims(m: EngineModel, cs: Seq<Seq<u8>>) -> bool
    decreases cs.len(),
{
    cs.len() == 0 || (keeps_pending(m, cs[0]) && never_trims(step_spec(m, cs[0]).0, cs.drop_first()))
}

/// A parser that has seen nothing and knows no framing yet.
pub open spec fn fresh_engine() -> EngineModel {
    EngineModel {
        buffer: Seq::empty(),
        detector: DetectorModel { buffer: Seq::empty(), stx: 0, etx: 0, crlf: 0, lf_only: 0, seen: 0 },
        protocol: None,
    }
}

/// Once the framing is known, a run over any number of chunks yields, in
/// order, the readings the framing extracts from the pending bytes followed
/// by all the chunks at once, frames split across chunks included, provided
/// no pending bytes were dropped on the way.
pub proof fn lemma_parser_all_chunks(m: EngineModel, cs: Seq<Seq<u8>>)
    requires
        m.protocol is Some,
        cs.len() > 0,
        never_trims(m, cs),
    ensures
        run_steps(m, cs).1 == extract_spec(m.protocol->0, m.buffer + cs.flatten()).0,
    decreases cs.len(),
{
    let rest = cs.drop_first();
    let m1 = step_spec(m, cs[0]).0;
    assert(cs.flatten() == cs[0] + rest.flatten());
    if rest.len() == 0 {
        assert(rest.flatten() =~= Seq::<u8>::empty());
        assert(cs[0] + rest.flatten() =~= cs[0]);
        assert(step_spec(m, cs[0]).1 + Seq::<ReadingModel>::empty() =~= step_spec(m, cs[0]).1);
    } else {
        lemma_parser_all_chunks(m1, rest);
        lemma_parser_chunking(m, cs[0], rest.flatten());
    }
}

/// From a fresh parser: a first chunk on which the framing `k` is detected
/// yields no reading, and the chunks after it yield, in order, the readings
/// `k` extracts from all of them at once (none dropping pending bytes).
pub proof fn lemma_parser_learns_then_parses(d: Seq<u8>, ps: Seq<Seq<u8>>, k: ProtocolKind)
    requires
        decide_spec(feed_spec(fresh_engine().detector, d)) == Some(k),
        ps.len() > 0,
        never_trims(step_spec(fresh_engine(), d).0, ps),
    ensures
        step_spec(fresh_engine(), d).1 == Seq::<ReadingModel>::empty(),
        run_steps(fresh_engine(), seq![d] + ps).1 == extract_spec(k, ps.flatten()).0,
{
    let cs = seq![d] + ps;
    assert(cs[0] == d);
    assert(cs.drop_first() =~= ps);
    let m1 = step_spec(fresh_engine(), d).0;
    lemma_parser_all_chunks(m1, ps);
    assert(m1.buffer + ps.flatten() =~= ps.flatten());
    assert(Seq::<ReadingModel>::empty() + run_steps(m1, ps).1 =~= run_steps(m1, ps).1);
}

/// The stream parser: learns the framing, then turns frames into readings.
pub struct ParserEngine {
    buffer: Vec<u8>,
    detector: ProtocolDetector,
    protocol: Option<ProtocolKind>,
}

impl View for ParserEngine {
    type V = EngineModel;

    closed spec fn view(&self) -> EngineModel {
        EngineModel { buffer: self.buffer@, detector: self.detector@, protocol: self.protocol }
    }
}

/// A chunk of `n` bytes can be taken without the byte counter overflowing.
pub open spec fn accepts(m: EngineModel, n: nat) -> bool {
    m.protocol is Some || m.detector.seen + n <= usize::MAX
}

impl ParserEngine {
    /// A parser that has seen nothing and knows no framing yet.
    pub fn new() -> (r: ParserEngine)
        ensures
            r@ == fresh_engine(),
    {
        ParserEngine { buffer: Vec::new(), detector: ProtocolDetector::new(), protocol: None }
    }

    /// The framing in use, once detected.
    pub fn protocol(&self) -> (r: Option<ProtocolKind>)
        ensures
            r == self@.protocol,
    {
        self.protocol
    }

    /// Whether a chunk of `n` bytes can be taken (see [`accepts`]).
    pub fn can_accept(&self, n: usize) -> (r: bool)
        ensures
            r == accepts(self@, n as nat),
    {
        match self.protocol {
            Some(_) => true,
            None => self.detector.bytes_seen() <= usize::MAX - n,
        }
    }

    /// Takes the next chunk of the stream; returns the readings it completes.
    pub fn on_bytes(&mut self, bytes: &[u8]) -> (r: Vec<WeighEvent>)
        requires
            accepts(old(self)@, bytes@.len()),
        ensures
            final(self)@ == step_spec(old(self)@, bytes@).0,
            events_match(r@, step_spec(old(self)@, bytes@).1),
    {
        self.buffer.extend_from_slice(bytes);
        proof {
            assert(self.buffer@ =~= old(self)@.buffer + bytes@);
        }
        match self.protocol {
            None => {
                let detected = self.detector.feed(bytes);
                match detected {
                    Some(k) => {
                        self.protocol = Some(k);
                        self.buffer.clear();
                    },
                    None => {},
                }
                Vec::new()
            },
            Some(k) => {
                let (events, consumed) = k.try_extract(self.buffer.as_slice());
                let rest = self.buffer.split_off(consumed);
                self.buffer = rest;
                if self.buffer.len() > MAX_PENDING_BYTES {
                    let half = self.buffer.len() / 2;
                    let rest2 = self.buffer.split_off(half);
                    self.buffer = rest2;
                }
                proof {
                    let all = old(self)@.buffer + bytes@;
                    let ex = extract_spec(k, all);
                    assert(all.skip(consumed as int) =~= all.subrange(
                        consumed as int,
                        all.len() as int,
                    ));
                    let rest1 = all.skip(ex.1);
                    if rest1.len() > 16_384 {
                        assert(rest1.skip((rest1.len() / 2) as int) =~= rest1.subrange(
                            (rest1.len() / 2) as int,
                            rest1.len() as int,
                        ));
                    }
                    assert(self.buffer@ =~= after_extract(all, ex.1));
                }
                events
            },
        }
    }
}

} // verus!
