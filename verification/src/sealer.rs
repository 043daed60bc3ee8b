//! Sealing of readings with HMAC-SHA256 and the bounded log of sealed readings.
//!
//! The seal covers the message `"{id}|{value:.6}|{timestamp_ms}|{unit}"`;
//! changing the id, the value, the time stamp or the unit of a sealed
//! reading changes the message the seal is checked against.
use vstd::prelude::*;
use std::collections::VecDeque;
use hmac::Mac;
use crate::decimal::{fixed_text, lemma_fixed_ascii_shape, Decimal, DecimalModel};
use crate::events::{unit_label, SignedEvent, WeighEvent};
use crate::text::{dec_digits, is_digit, lemma_dec_digits_shape, push_dec};

verus! {

/// The HMAC-SHA256 tag of `msg` under `key`.
pub uninterp spec fn hmac_sha256(key: Seq<u8>, msg: Seq<u8>) -> Seq<u8>;

/// Lower-case hexadecimal digit for a value below 16.
pub open spec fn hex_digit(n: nat) -> char {
    if n < 10 {
        (48 + n) as char
    } else {
        (87 + n) as char
    }
}

/// Lower-case hexadecimal rendering: two digits per byte, high nibble first.
pub open spec fn hex_lower(s: Seq<u8>) -> Seq<char>
    decreases s.len(),
{
    if s.len() == 0 {
        Seq::empty()
    } else {
        hex_lower(s.drop_last()) + seq![
            hex_digit((s.last() / 16) as nat),
            hex_digit((s.last() % 16) as nat),
        ]
    }
}

/// HMAC-SHA256 of `msg` under `key` (hmac 0.12: `Hmac::<Sha256>::new_from_slice`,
/// `update`, `finalize`). Claims the tag is the named function of key and
/// message, and is 32 bytes long (the SHA-256 output size). `new_from_slice`
/// accepts keys of every length for HMAC.
#[verifier::external_body]
fn hmac_sha256_tag(key: &[u8], msg: &[u8]) -> (r: Vec<u8>)
    ensures
        r@ == hmac_sha256(key@, msg@),
        r@.len() == 32,
{
    let mut mac = <hmac::Hmac<sha2::Sha256> as Mac>::new_from_slice(key).expect(
        "HMAC accepts keys of any length",
    );
    mac.update(msg);
    mac.finalize().into_bytes().to_vec()
}

/// `hex::encode`: lower-case hexadecimal text of `bytes`, two digits per byte.
#[verifier::external_body]
fn hex_encode(bytes: &[u8]) -> (r: String)
    ensures
        r@ == hex_lower(bytes@),
{
    hex::encode(bytes)
}

/// The sealed message `"{id}|{value:.6}|{timestamp_ms}|{unit}"` as bytes.
pub open spec fn seal_message_spec(id: u64, value: DecimalModel, ts: u64, unit: Seq<char>) -> Seq<
    u8,
> {
    dec_digits(id as nat) + seq![124u8] + fixed_text(value, 6) + seq![124u8] + dec_digits(
        ts as nat,
    ) + seq![124u8] + vstd::utf8::encode_utf8(unit)
}

/// The seal of a reading's fields under `key`.
pub open spec fn expected_seal(
    id: u64,
    value: DecimalModel,
    ts: u64,
    unit: Seq<char>,
    key: Seq<u8>,
) -> Seq<char> {
    hex_lower(hmac_sha256(key, seal_message_spec(id, value, ts, unit)))
}

/// The sealed event's `hmac` is the seal of its fields under `key`.
pub open spec fn seal_holds(e: SignedEvent, key: Seq<u8>) -> bool {
    e.hmac@ == expected_seal(e.id, e.value@, e.timestamp_ms, e.unit@, key)
}

/// The message a seal covers.
pub fn seal_message(id: u64, value: &Decimal, timestamp_ms: u64, unit: &str) -> (r: Vec<u8>)
    ensures
        r@ == seal_message_spec(id, value@, timestamp_ms, unit@),
{
    let mut out: Vec<u8> = Vec::new();
    push_dec(&mut out, id);
    out.push(124);
    let v = value.fixed(6);
    out.extend_from_slice(v.as_slice());
    out.push(124);
    push_dec(&mut out, timestamp_ms);
    out.push(124);
    out.extend_from_slice(unit.as_bytes());
    proof {
        assert(out@ =~= seal_message_spec(id, value@, timestamp_ms, unit@));
    }
    out
}

/// HMAC-SHA256 seal (lower-case hex) of a reading's fields under `key`.
pub fn sign(id: u64, value: &Decimal, timestamp_ms: u64, unit: &str, key: &[u8]) -> (r: String)
    ensures
        r@ == expected_seal(id, value@, timestamp_ms, unit@, key@),
        r@.len() == 64,
{
    let message = seal_message(id, value, timestamp_ms, unit);
    let tag = hmac_sha256_tag(key, message.as_slice());
    proof {
        lemma_hex_lower_len(tag@);
    }
    hex_encode(tag.as_slice())
}

pub proof fn lemma_hex_lower_len(s: Seq<u8>)
    ensures
        hex_lower(s).len() == 2 * s.len(),
    decreases s.len(),
{
    if s.len() > 0 {
        lemma_hex_lower_len(s.drop_last());
    }
}

/// Whether the sealed event `event` was not altered since it was sealed
/// under `key`: its `hmac` equals the seal of its fields.
pub fn verify(event: &SignedEvent, key: &[u8]) -> (r: bool)
    ensures
        r == seal_holds(*event, key@),
{
    let expected = sign(event.id, &event.value, event.timestamp_ms, event.unit.as_str(), key);
    expected == event.hmac
}

/// Whether `tag` (an HMAC computed elsewhere) is the seal `event` carries.
pub fn matches_tag(event: &SignedEvent, tag: &[u8]) -> (r: bool)
    ensures
        r == (event.hmac@ == hex_lower(tag@)),
{
    let text = hex_encode(tag);
    text == event.hmac
}

/// The sealed form of `event` with identifier `id` and seal text built from `tag`.
pub fn seal_with_tag(event: &WeighEvent, id: u64, tag: &[u8]) -> (r: SignedEvent)
    ensures
        r.id == id,
        r.value@ == event.value@,
        r.unit@ == unit_label(event.unit),
        r.stable == event.stable,
        r.timestamp_ms == event.timestamp_ms,
        r.hmac@ == hex_lower(tag@),
{
    SignedEvent {
        id,
        value: event.value.copy(),
        unit: event.unit.to_string(),
        stable: event.stable,
        timestamp_ms: event.timestamp_ms,
        hmac: hex_encode(tag),
    }
}

/// Seals `event` under `key` with identifier `id`.
pub fn seal(event: &WeighEvent, id: u64, key: &[u8]) -> (r: SignedEvent)
    ensures
        r.id == id,
        r.value@ == event.value@,
        r.unit@ == unit_label(event.unit),
        r.stable == event.stable,
        r.timestamp_ms == event.timestamp_ms,
        seal_holds(r, key@),
{
    let unit = event.unit.to_string();
    let message = seal_message(id, &event.value, event.timestamp_ms, unit.as_str());
    let tag = hmac_sha256_tag(key, message.as_slice());
    seal_with_tag(event, id, tag.as_slice())
}

/// A reading sealed as [`seal`] seals it (its fields copied, its `hmac` the
/// seal of those fields under `key`) passes [`verify`] under `key`.
pub proof fn lemma_sealed_reading_verifies(e: WeighEvent, id: u64, key: Seq<u8>, s: SignedEvent)
    requires
        s.id == id,
        s.value@ == e.value@,
        s.unit@ == unit_label(e.unit),
        s.stable == e.stable,
        s.timestamp_ms == e.timestamp_ms,
        s.hmac@ == expected_seal(id, e.value@, e.timestamp_ms, unit_label(e.unit), key),
    ensures
        seal_holds(s, key),
{
}

/// A seal is determined by the sealed fields and the key: two readings with
/// the same id, value, time stamp and unit sealed under the same key carry
/// the same seal (so re-sealing a reading reproduces its seal).
pub proof fn lemma_seal_determined(e1: SignedEvent, e2: SignedEvent, key: Seq<u8>)
    requires
        seal_holds(e1, key),
        seal_holds(e2, key),
        e1.id == e2.id,
        e1.value@ == e2.value@,
        e1.timestamp_ms == e2.timestamp_ms,
        e1.unit@ == e2.unit@,
    ensures
        e1.hmac@ == e2.hmac@,
{
}

// ── Identifiers ─────────────────────────────────────────────────────────────

/// Source of reading identifiers 1, 2, 3, … shared by all sealed readings.
pub struct IdSequence {
    next: u64,
}

impl View for IdSequence {
    type V = nat;

    closed spec fn view(&self) -> nat {
        self.next as nat
    }
}

impl IdSequence {
    /// A sequence whose first identifier is 1.
    pub fn new() -> (r: IdSequence)
        ensures
            r@ == 1,
    {
        IdSequence { next: 1 }
    }

    /// Whether another identifier can be issued.
    pub fn can_take(&self) -> (r: bool)
        ensures
            r == (self@ < u64::MAX),
    {
        self.next < u64::MAX
    }

    /// Issues the next identifier; each one is larger than all issued before.
    pub fn take(&mut self) -> (r: u64)
        requires
            old(self)@ < u64::MAX,
        ensures
            r == old(self)@,
            final(self)@ == old(self)@ + 1,
            final(self)@ > r,
    {
        let r = self.next;
        self.next = self.next + 1;
        r
    }
}

/// `x` holds no byte `c`.
pub open spec fn lacks(x: Seq<u8>, c: u8) -> bool {
    forall|i: int| 0 <= i < x.len() ==> #[trigger] x[i] != c
}

proof fn lemma_split_at_separator(x1: Seq<u8>, y1: Seq<u8>, x2: Seq<u8>, y2: Seq<u8>, c: u8)
    requires
        x1 + seq![c] + y1 == x2 + seq![c] + y2,
        lacks(x1, c),
        lacks(x2, c),
    ensures
        x1 == x2,
        y1 == y2,
{
    let s = x1 + seq![c] + y1;
    if x1.len() < x2.len() {
        assert(s[x1.len() as int] == c);
        assert((x2 + seq![c] + y2)[x1.len() as int] == x2[x1.len() as int]);
    } else if x2.len() < x1.len() {
        assert((x2 + seq![c] + y2)[x2.len() as int] == c);
        assert(s[x2.len() as int] == x1[x2.len() as int]);
    }
    assert(x1 =~= s.subrange(0, x1.len() as int));
    assert(x2 =~= (x2 + seq![c] + y2).subrange(0, x2.len() as int));
    assert(y1 =~= s.skip(x1.len() as int + 1));
    assert(y2 =~= (x2 + seq![c] + y2).skip(x2.len() as int + 1));
}

proof fn lemma_digits_lack_bar(n: nat)
    ensures
        lacks(dec_digits(n), 124),
{
    lemma_dec_digits_shape(n);
    assert forall|i: int| 0 <= i < dec_digits(n).len() implies #[trigger] dec_digits(n)[i] != 124 by {
        assert(is_digit(dec_digits(n)[i]));
    }
}

/// The sealed message determines the sealed fields: two readings whose
/// messages are equal have the same id, time stamp and unit, and values
/// with the same six-decimal rendering. Altering any of these fields of a
/// sealed reading therefore changes the message its seal is checked against.
pub proof fn lemma_seal_message_injective(
    id1: u64,
    v1: DecimalModel,
    ts1: u64,
    u1: Seq<char>,
    id2: u64,
    v2: DecimalModel,
    ts2: u64,
    u2: Seq<char>,
)
    requires
        seal_message_spec(id1, v1, ts1, u1) == seal_message_spec(id2, v2, ts2, u2),
    ensures
        id1 == id2,
        fixed_text(v1, 6) == fixed_text(v2, 6),
        ts1 == ts2,
        u1 == u2,
{
    let bar = seq![124u8];
    let a1 = dec_digits(id1 as nat);
    let a2 = dec_digits(id2 as nat);
    let b1 = fixed_text(v1, 6);
    let b2 = fixed_text(v2, 6);
    let c1 = dec_digits(ts1 as nat);
    let c2 = dec_digits(ts2 as nat);
    let d1 = vstd::utf8::encode_utf8(u1);
    let d2 = vstd::utf8::encode_utf8(u2);
    lemma_digits_lack_bar(id1 as nat);
    lemma_digits_lack_bar(id2 as nat);
    lemma_digits_lack_bar(ts1 as nat);
    lemma_digits_lack_bar(ts2 as nat);
    lemma_fixed_ascii_shape(v1, 6);
    lemma_fixed_ascii_shape(v2, 6);
    assert(seal_message_spec(id1, v1, ts1, u1) =~= a1 + bar + (b1 + bar + (c1 + bar + d1)));
    assert(seal_message_spec(id2, v2, ts2, u2) =~= a2 + bar + (b2 + bar + (c2 + bar + d2)));
    lemma_split_at_separator(a1, b1 + bar + (c1 + bar + d1), a2, b2 + bar + (c2 + bar + d2), 124);
    lemma_split_at_separator(b1, c1 + bar + d1, b2, c2 + bar + d2, 124);
    lemma_split_at_separator(c1, d1, c2, d2, 124);
    lemma_dec_digits_shape(id1 as nat);
    lemma_dec_digits_shape(id2 as nat);
    lemma_dec_digits_shape(ts1 as nat);
    lemma_dec_digits_shape(ts2 as nat);
    vstd::utf8::encode_utf8_decode_utf8(u1);
    vstd::utf8::encode_utf8_decode_utf8(u2);
}

// ── Bounded log ─────────────────────────────────────────────────────────────

/// The log after `e` is recorded: when it already holds `max` entries or
/// more, its oldest entry is dropped first.
pub open spec fn ring_push(s: Seq<SignedEvent>, max: nat, e: SignedEvent) -> Seq<SignedEvent> {
    if s.len() >= max && s.len() > 0 {
        s.drop_first().push(e)
    } else {
        s.push(e)
    }
}

/// The log after the entries of `pushed` were recorded, in order, into an empty log.
pub open spec fn ring_fold(pushed: Seq<SignedEvent>, max: nat) -> Seq<SignedEvent>
    decreases pushed.len(),
{
    if pushed.len() == 0 {
        Seq::empty()
    } else {
        ring_push(ring_fold(pushed.drop_last(), max), max, pushed.last())
    }
}

/// Records `event` in the log, dropping the oldest entry when the log is full.
pub fn record_event(log: &mut VecDeque<SignedEvent>, max_events: usize, event: SignedEvent)
    ensures
        final(log)@ == ring_push(old(log)@, max_events as nat, event),
{
    if log.len() >= max_events {
        log.pop_front();
    }
    log.push_back(event);
    proof {
        let s = old(log)@;
        if s.len() >= max_events && s.len() > 0 {
            assert(s.subrange(1, s.len() as int) =~= s.drop_first());
        }
    }
}

/// A log bounded by `max >= 1` holds exactly the `max` most recent
/// entries (all of them while fewer were recorded), oldest first.
pub proof fn lemma_ring_keeps_latest(pushed: Seq<SignedEvent>, max: nat)
    requires
        max >= 1,
    ensures
        ring_fold(pushed, max) == pushed.subrange(
            if pushed.len() > max {
                pushed.len() - max
            } else {
                0
            },
            pushed.len() as int,
        ),
        ring_fold(pushed, max).len() <= max,
    decreases pushed.len(),
{
    if pushed.len() > 0 {
        let p = pushed.drop_last();
        lemma_ring_keeps_latest(p, max);
        let r = ring_fold(p, max);
        let n = pushed.len() as int;
        if r.len() >= max {
            assert(r.drop_first().push(pushed.last()) =~= pushed.subrange(n - max, n));
        } else {
            assert(r.push(pushed.last()) =~= pushed.subrange(0, n));
        }
    } else {
        assert(pushed.subrange(0, 0) =~= Seq::<SignedEvent>::empty());
    }
}

} // verus!
