//! Frame protocols and the extraction of a weight reading from a frame's text.
pub mod crlf;
pub mod stx_etx;

use vstd::prelude::*;
use crate::clock::now_millis;
use crate::decimal::{first_value, scan_number, Decimal, DecimalModel};
use crate::events::{events_match, unit_label, ReadingModel, WeighEvent, WeightUnit};
use crate::text::{
    ascii_chars, contains, ends_with, is_digit, is_printable, keep_printable, lower, lower_byte,
    printable_only, spec_contains, spec_ends_with, to_lower, trim, trim_spaces,
};
use self::crlf::{crlf_scan, CrLfProtocol};
use self::stx_etx::{stx_scan, StxEtxProtocol};

verus! {

/// A framing of the serial byte stream into weight readings.
pub trait Protocol {
    /// Human-readable name of the framing.
    fn name(&self) -> &'static str;

    /// Extracts the readings of the complete frames at the start of `buffer`;
    /// returns them with the number of bytes the caller may discard.
    fn try_extract(&self, buffer: &[u8]) -> (Vec<WeighEvent>, usize);
}

/// The framings the detector can recognise.
#[derive(Clone, Copy, Debug, PartialEq, Eq, Structural)]
pub enum ProtocolKind {
    /// STX (0x02) payload ETX (0x03) with an optional checksum byte.
    StxEtx,
    /// Lines ended by LF, optionally preceded by CR.
    CrLf,
}

/// Readings and consumed byte count the framing `k` extracts from `buf`.
pub open spec fn extract_spec(k: ProtocolKind, buf: Seq<u8>) -> (Seq<ReadingModel>, int) {
    match k {
        ProtocolKind::StxEtx => stx_scan(buf, 0),
        ProtocolKind::CrLf => crlf_scan(buf, 0),
    }
}

/// Name of a framing.
pub open spec fn kind_name(k: ProtocolKind) -> Seq<char> {
    match k {
        ProtocolKind::StxEtx => "STX/ETX"@,
        ProtocolKind::CrLf => "CR/LF"@,
    }
}

impl ProtocolKind {
    /// Name of the framing ("STX/ETX" or "CR/LF").
    pub fn name(&self) -> (r: &'static str)
        ensures
            r@ == kind_name(*self),
    {
        match self {
            ProtocolKind::StxEtx => StxEtxProtocol.name(),
            ProtocolKind::CrLf => CrLfProtocol.name(),
        }
    }

    /// Extracts readings with this framing (see [`extract_spec`]).
    pub fn try_extract(&self, buffer: &[u8]) -> (r: (Vec<WeighEvent>, usize))
        ensures
            events_match(r.0@, extract_spec(*self, buffer@).0),
            r.1 as int == extract_spec(*self, buffer@).1,
            r.1 <= buffer@.len(),
    {
        match self {
            ProtocolKind::StxEtx => StxEtxProtocol.try_extract(buffer),
            ProtocolKind::CrLf => CrLfProtocol.try_extract(buffer),
        }
    }
}

// ── Units and stability ─────────────────────────────────────────────────────

pub open spec fn pat_kg() -> Seq<u8> { seq![107u8, 103u8] }
pub open spec fn pat_sp_lb() -> Seq<u8> { seq![32u8, 108u8, 98u8] }
pub open spec fn pat_lb() -> Seq<u8> { seq![108u8, 98u8] }
pub open spec fn pat_sp_t_sp() -> Seq<u8> { seq![32u8, 116u8, 32u8] }
pub open spec fn pat_sp_t() -> Seq<u8> { seq![32u8, 116u8] }
pub open spec fn pat_ton() -> Seq<u8> { seq![116u8, 111u8, 110u8] }
pub open spec fn pat_sp_g_sp() -> Seq<u8> { seq![32u8, 103u8, 32u8] }
pub open spec fn pat_sp_g() -> Seq<u8> { seq![32u8, 103u8] }

/// Unit named in a frame's text (case-insensitive): "kg"; else " lb" or a
/// final "lb"; else " t ", a final " t" or "ton"; else " g " or a final " g".
pub open spec fn unit_of(text: Seq<u8>) -> WeightUnit {
    let t = lower(text);
    if spec_contains(t, pat_kg()) {
        WeightUnit::Kg
    } else if spec_contains(t, pat_sp_lb()) || spec_ends_with(t, pat_lb()) {
        WeightUnit::Lb
    } else if spec_contains(t, pat_sp_t_sp()) || spec_ends_with(t, pat_sp_t()) || spec_contains(
        t,
        pat_ton(),
    ) {
        WeightUnit::Ton
    } else if spec_contains(t, pat_sp_g_sp()) || spec_ends_with(t, pat_sp_g()) {
        WeightUnit::G
    } else {
        WeightUnit::Unknown
    }
}

/// Markers of a weight in motion or in error: "us ", " d ", "mov", "uns",
/// "dynamic", "motion", "err".
pub open spec fn unstable_markers() -> Seq<Seq<u8>> {
    seq![
        seq![117u8, 115u8, 32u8],
        seq![32u8, 100u8, 32u8],
        seq![109u8, 111u8, 118u8],
        seq![117u8, 110u8, 115u8],
        seq![100u8, 121u8, 110u8, 97u8, 109u8, 105u8, 99u8],
        seq![109u8, 111u8, 116u8, 105u8, 111u8, 110u8],
        seq![101u8, 114u8, 114u8],
    ]
}

/// A frame's text (case-insensitive) holds none of the unstable markers.
pub open spec fn stable_of(text: Seq<u8>) -> bool {
    let t = lower(text);
    !(exists|k: int| 0 <= k < 7 && #[trigger] spec_contains(t, unstable_markers()[k]))
}

/// The reading a frame yields: its printable bytes, trimmed, must be
/// non-empty and hold an in-range number.
pub open spec fn frame_reading(raw: Seq<u8>) -> Option<ReadingModel> {
    let text = trim(printable_only(raw));
    if text.len() == 0 {
        None
    } else {
        match first_value(text) {
            None => None,
            Some(v) => Some(
                ReadingModel { value: v, unit: unit_of(text), stable: stable_of(text), raw: raw },
            ),
        }
    }
}

/// The reading of a frame, as a sequence of zero or one elements.
pub open spec fn reading_seq(r: Option<ReadingModel>) -> Seq<ReadingModel> {
    match r {
        Some(x) => seq![x],
        None => Seq::empty(),
    }
}

/// Unit named in `text`.
pub fn detect_unit(text: &[u8]) -> (r: WeightUnit)
    ensures
        r == unit_of(text@),
{
    let t = to_lower(text);
    let kg: [u8; 2] = [107, 103];
    let sp_lb: [u8; 3] = [32, 108, 98];
    let lb: [u8; 2] = [108, 98];
    let sp_t_sp: [u8; 3] = [32, 116, 32];
    let sp_t: [u8; 2] = [32, 116];
    let ton: [u8; 3] = [116, 111, 110];
    let sp_g_sp: [u8; 3] = [32, 103, 32];
    let sp_g: [u8; 2] = [32, 103];
    proof {
        assert(kg@ =~= pat_kg());
        assert(sp_lb@ =~= pat_sp_lb());
        assert(lb@ =~= pat_lb());
        assert(sp_t_sp@ =~= pat_sp_t_sp());
        assert(sp_t@ =~= pat_sp_t());
        assert(ton@ =~= pat_ton());
        assert(sp_g_sp@ =~= pat_sp_g_sp());
        assert(sp_g@ =~= pat_sp_g());
    }
    if contains(&t, &kg) {
        WeightUnit::Kg
    } else if contains(&t, &sp_lb) || ends_with(&t, &lb) {
        WeightUnit::Lb
    } else if contains(&t, &sp_t_sp) || ends_with(&t, &sp_t) || contains(&t, &ton) {
        WeightUnit::Ton
    } else if contains(&t, &sp_g_sp) || ends_with(&t, &sp_g) {
        WeightUnit::G
    } else {
        WeightUnit::Unknown
    }
}

/// Whether `text` holds none of the markers of an unstable weight.
pub fn detect_stable(text: &[u8]) -> (r: bool)
    ensures
        r == stable_of(text@),
{
    let t = to_lower(text);
    let m0: [u8; 3] = [117, 115, 32];
    let m1: [u8; 3] = [32, 100, 32];
    let m2: [u8; 3] = [109, 111, 118];
    let m3: [u8; 3] = [117, 110, 115];
    let m4: [u8; 7] = [100, 121, 110, 97, 109, 105, 99];
    let m5: [u8; 6] = [109, 111, 116, 105, 111, 110];
    let m6: [u8; 3] = [101, 114, 114];
    let ghost ms = unstable_markers();
    proof {
        assert(m0@ =~= ms[0]);
        assert(m1@ =~= ms[1]);
        assert(m2@ =~= ms[2]);
        assert(m3@ =~= ms[3]);
        assert(m4@ =~= ms[4]);
        assert(m5@ =~= ms[5]);
        assert(m6@ =~= ms[6]);
    }
    let any = contains(&t, &m0) || contains(&t, &m1) || contains(&t, &m2) || contains(&t, &m3)
        || contains(&t, &m4) || contains(&t, &m5) || contains(&t, &m6);
    proof {
        if !any {
            assert forall|k: int| 0 <= k < 7 implies !#[trigger] spec_contains(t@, ms[k]) by {
                if k == 0 {} else if k == 1 {} else if k == 2 {} else if k == 3 {} else if k == 4 {} else if k == 5 {} else {}
            }
        } else {
            if spec_contains(t@, ms[0]) {
            } else if spec_contains(t@, ms[1]) {
            } else if spec_contains(t@, ms[2]) {
            } else if spec_contains(t@, ms[3]) {
            } else if spec_contains(t@, ms[4]) {
            } else if spec_contains(t@, ms[5]) {
            } else {
                assert(spec_contains(t@, ms[6]));
            }
        }
    }
    !any
}

/// The first in-range number written in `text`.
pub fn extract_numeric(text: &[u8]) -> (r: Option<Decimal>)
    ensures
        match first_value(text@) {
            Some(m) => r matches Some(d) && d@ == m,
            None => r is None,
        },
{
    match scan_number(text) {
        Some((_, _, d)) => Some(d),
        None => None,
    }
}

/// The reading of the frame `raw`, time-stamped `timestamp_ms`.
pub fn parse_ascii_frame_at(raw: &[u8], timestamp_ms: u64) -> (r: Option<WeighEvent>)
    ensures
        match frame_reading(raw@) {
            Some(x) => r matches Some(e) && e.matches(x) && e.timestamp_ms == timestamp_ms,
            None => r is None,
        },
{
    let printable = keep_printable(raw);
    let text = trim_spaces(&printable);
    if text.len() == 0 {
        return None;
    }
    let value = match extract_numeric(&text) {
        Some(v) => v,
        None => return None,
    };
    let unit = detect_unit(&text);
    let stable = detect_stable(&text);
    let mut raw_copy: Vec<u8> = Vec::new();
    raw_copy.extend_from_slice(raw);
    proof {
        assert(raw_copy@ =~= raw@);
    }
    Some(WeighEvent { value, unit, stable, timestamp_ms, raw: raw_copy })
}

/// The reading of the frame `raw`, time-stamped with the current clock.
pub fn parse_ascii_frame(raw: &[u8]) -> (r: Option<WeighEvent>)
    ensures
        match frame_reading(raw@) {
            Some(x) => r matches Some(e) && e.matches(x),
            None => r is None,
        },
{
    parse_ascii_frame_at(raw, now_millis())
}

// ── Laws of frame reading ───────────────────────────────────────────────────

proof fn lemma_printable_only_concat(a: Seq<u8>, c: Seq<u8>)
    ensures
        printable_only(a + c) == printable_only(a) + printable_only(c),
    decreases c.len(),
{
    if c.len() == 0 {
        assert(a + c =~= a);
        assert(printable_only(a) + printable_only(c) =~= printable_only(a));
    } else {
        lemma_printable_only_concat(a, c.drop_last());
        assert((a + c).drop_last() =~= a + c.drop_last());
        assert((a + c).last() == c.last());
        if is_printable(c.last()) {
            assert(printable_only(a) + printable_only(c) =~= (printable_only(a) + printable_only(
                c.drop_last(),
            )).push(c.last()));
        }
    }
}

/// A frame is read through its printable bytes alone: two frames with the
/// same printable bytes both yield a reading or both yield none, and their
/// readings have the same value, unit and stability.
pub proof fn lemma_frame_reads_printable(raw1: Seq<u8>, raw2: Seq<u8>)
    requires
        printable_only(raw1) == printable_only(raw2),
    ensures
        (frame_reading(raw1) is Some) == (frame_reading(raw2) is Some),
        frame_reading(raw1) is Some ==> {
            &&& frame_reading(raw1)->0.value == frame_reading(raw2)->0.value
            &&& frame_reading(raw1)->0.unit == frame_reading(raw2)->0.unit
            &&& frame_reading(raw1)->0.stable == frame_reading(raw2)->0.stable
        },
{
}

/// Line noise does not change a reading: inserting a byte that is neither
/// printable nor a space anywhere in a frame leaves whether it yields a
/// reading, and the reading's value, unit and stability, unchanged.
pub proof fn lemma_frame_ignores_noise(raw: Seq<u8>, i: int, b: u8)
    requires
        0 <= i <= raw.len(),
        !is_printable(b),
    ensures
        (frame_reading(raw.insert(i, b)) is Some) == (frame_reading(raw) is Some),
        frame_reading(raw) is Some ==> {
            &&& frame_reading(raw.insert(i, b))->0.value == frame_reading(raw)->0.value
            &&& frame_reading(raw.insert(i, b))->0.unit == frame_reading(raw)->0.unit
            &&& frame_reading(raw.insert(i, b))->0.stable == frame_reading(raw)->0.stable
        },
{
    let x = raw.take(i);
    let y = raw.skip(i);
    assert(raw.insert(i, b) =~= x + (seq![b] + y));
    assert(raw =~= x + y);
    lemma_printable_only_concat(x, seq![b] + y);
    lemma_printable_only_concat(seq![b], y);
    lemma_printable_only_concat(x, y);
    assert(printable_only(seq![b]) =~= Seq::<u8>::empty()) by {
        let e = seq![b].drop_last();
        assert(e =~= Seq::<u8>::empty());
        assert(printable_only(e) == e);
    }
    assert(Seq::<u8>::empty() + printable_only(y) =~= printable_only(y));
    lemma_frame_reads_printable(raw.insert(i, b), raw);
}

/// The bytes of a written number: digits, point and signs.
pub open spec fn numeric_text(w: Seq<u8>) -> bool {
    forall|k: int| 0 <= k < w.len() ==> #[trigger] is_digit(w[k]) || w[k] == 46 || w[k] == 45
        || w[k] == 43
}

/// A frame written as "S", three spaces, a number, a space and a unit's label.
pub open spec fn labelled_frame(w: Seq<u8>, label: Seq<u8>) -> Seq<u8> {
    seq![83u8, 32u8, 32u8, 32u8] + w + seq![32u8] + label
}

proof fn lemma_absent_byte(t: Seq<u8>, pat: Seq<u8>, j: int)
    requires
        0 <= j < pat.len(),
        forall|k: int| 0 <= k < t.len() ==> #[trigger] t[k] != pat[j],
    ensures
        !spec_contains(t, pat),
{
    if spec_contains(t, pat) {
        let i = choose|i: int|
            0 <= i && i + pat.len() <= t.len() && #[trigger] t.subrange(i, i + pat.len()) == pat;
        assert(t.subrange(i, i + pat.len())[j] == t[i + j]);
    }
}

/// The lower-cased labelled frame.
proof fn lemma_labelled_lower(w: Seq<u8>, label: Seq<u8>)
    requires
        numeric_text(w),
        forall|k: int| 0 <= k < label.len() ==> 97 <= #[trigger] label[k] <= 122,
    ensures
        lower(labelled_frame(w, label)) == seq![115u8, 32u8, 32u8, 32u8] + w + seq![32u8] + label,
{
    let t = labelled_frame(w, label);
    let e = seq![115u8, 32u8, 32u8, 32u8] + w + seq![32u8] + label;
    assert forall|k: int| 0 <= k < t.len() implies #[trigger] lower(t)[k] == e[k] by {
        if k < 4 {
        } else if k < 4 + w.len() {
            assert(t[k] == w[k - 4]);
            assert(is_digit(w[k - 4]) || w[k - 4] == 46 || w[k - 4] == 45 || w[k - 4] == 43);
        } else if k == 4 + w.len() {
        } else {
            assert(t[k] == label[k - 5 - w.len()]);
        }
    }
    assert(lower(t) =~= e);
}

/// A unit written by its label after a number is read back as that unit:
/// the frame "S   {w} {label}" names the unit whose label it ends with, for
/// every unit but the unknown one and every number `w`.
#[verifier::rlimit(60)]
pub proof fn lemma_unit_round_trip(u: WeightUnit, w: Seq<u8>, label: Seq<u8>)
    requires
        u != WeightUnit::Unknown,
        numeric_text(w),
        ascii_chars(label) == unit_label(u),
    ensures
        unit_of(labelled_frame(w, label)) == u,
{
    reveal_strlit("kg");
    reveal_strlit("lb");
    reveal_strlit("t");
    reveal_strlit("g");
    assert(label.len() == unit_label(u).len());
    assert forall|k: int| 0 <= k < label.len() implies #[trigger] label[k] as char == unit_label(u)[k] by {
        assert(ascii_chars(label)[k] == label[k] as char);
    }
    let lab: Seq<u8> = match u {
        WeightUnit::Kg => seq![107u8, 103u8],
        WeightUnit::Lb => seq![108u8, 98u8],
        WeightUnit::Ton => seq![116u8],
        _ => seq![103u8],
    };
    assert(label =~= lab) by {
        assert forall|k: int| 0 <= k < label.len() implies label[k] == lab[k] by {
            assert(label[k] as char == unit_label(u)[k]);
        }
    }
    lemma_labelled_lower(w, label);
    let t = lower(labelled_frame(w, label));
    let n = t.len() as int;
    let wn = w.len() as int;
    assert(n == 5 + wn + label.len());
    assert forall|k: int| 0 <= k < n - label.len() implies {
        let b = #[trigger] t[k];
        b == 115 || b == 32 || is_digit(b) || b == 46 || b == 45 || b == 43
    } by {
        if 4 <= k < 4 + wn {
            assert(t[k] == w[k - 4]);
        }
    }
    match u {
        WeightUnit::Kg => {
            assert(t.subrange(n - 2, n) =~= pat_kg());
            assert(spec_contains(t, pat_kg()));
        },
        WeightUnit::Lb => {
            lemma_absent_byte(t, pat_kg(), 0);
            assert(t.subrange(n - 3, n - 3 + pat_sp_lb().len()) =~= pat_sp_lb());
            assert(spec_contains(t, pat_sp_lb()));
        },
        WeightUnit::Ton => {
            lemma_absent_byte(t, pat_kg(), 0);
            lemma_absent_byte(t, pat_sp_lb(), 1);
            assert(!spec_ends_with(t, pat_lb())) by {
                assert(t[n - 1] == 116);
                if spec_ends_with(t, pat_lb()) {
                    assert(t.subrange(n - 2, n)[1] == t[n - 1]);
                }
            }
            assert(t.subrange(n - 2, n) =~= pat_sp_t());
        },
        _ => {
            lemma_absent_byte(t, pat_kg(), 0);
            lemma_absent_byte(t, pat_sp_lb(), 1);
            assert(!spec_ends_with(t, pat_lb())) by {
                assert(t[n - 1] == 103);
                if spec_ends_with(t, pat_lb()) {
                    assert(t.subrange(n - 2, n)[1] == t[n - 1]);
                }
            }
            lemma_absent_byte(t, pat_sp_t_sp(), 1);
            assert(!spec_ends_with(t, pat_sp_t())) by {
                if spec_ends_with(t, pat_sp_t()) {
                    assert(t.subrange(n - 2, n)[1] == t[n - 1]);
                }
            }
            lemma_absent_byte(t, pat_ton(), 0);
            assert(t.subrange(n - 2, n) =~= pat_sp_g());
        },
    }
}

/// The unit named in a frame, rule by rule, with the patterns written out
/// (matched on the ASCII lower-cased text): "kg" anywhere gives kilograms,
/// whatever precedes or follows it; otherwise " lb" anywhere or a final "lb"
/// gives pounds; otherwise " t " anywhere, a final " t" or "ton" anywhere
/// gives tonnes; otherwise " g " anywhere or a final " g" gives grams; and
/// a text with none of these names no unit.
pub proof fn lemma_unit_rules(text: Seq<u8>)
    ensures
        spec_contains(lower(text), seq![107u8, 103u8]) ==> unit_of(text) == WeightUnit::Kg,
        !spec_contains(lower(text), seq![107u8, 103u8]) && (spec_contains(
            lower(text),
            seq![32u8, 108u8, 98u8],
        ) || spec_ends_with(lower(text), seq![108u8, 98u8])) ==> unit_of(text) == WeightUnit::Lb,
        !spec_contains(lower(text), seq![107u8, 103u8]) && !spec_contains(
            lower(text),
            seq![32u8, 108u8, 98u8],
        ) && !spec_ends_with(lower(text), seq![108u8, 98u8]) && (spec_contains(
            lower(text),
            seq![32u8, 116u8, 32u8],
        ) || spec_ends_with(lower(text), seq![32u8, 116u8]) || spec_contains(
            lower(text),
            seq![116u8, 111u8, 110u8],
        )) ==> unit_of(text) == WeightUnit::Ton,
        !spec_contains(lower(text), seq![107u8, 103u8]) && !spec_contains(
            lower(text),
            seq![32u8, 108u8, 98u8],
        ) && !spec_ends_with(lower(text), seq![108u8, 98u8]) && !spec_contains(
            lower(text),
            seq![32u8, 116u8, 32u8],
        ) && !spec_ends_with(lower(text), seq![32u8, 116u8]) && !spec_contains(
            lower(text),
            seq![116u8, 111u8, 110u8],
        ) && (spec_contains(lower(text), seq![32u8, 103u8, 32u8]) || spec_ends_with(
            lower(text),
            seq![32u8, 103u8],
        )) ==> unit_of(text) == WeightUnit::G,
        !spec_contains(lower(text), seq![107u8, 103u8]) && !spec_contains(
            lower(text),
            seq![32u8, 108u8, 98u8],
        ) && !spec_ends_with(lower(text), seq![108u8, 98u8]) && !spec_contains(
            lower(text),
            seq![32u8, 116u8, 32u8],
        ) && !spec_ends_with(lower(text), seq![32u8, 116u8]) && !spec_contains(
            lower(text),
            seq![116u8, 111u8, 110u8],
        ) && !spec_contains(lower(text), seq![32u8, 103u8, 32u8]) && !spec_ends_with(
            lower(text),
            seq![32u8, 103u8],
        ) ==> unit_of(text) == WeightUnit::Unknown,
{
    assert(pat_kg() =~= seq![107u8, 103u8]);
    assert(pat_sp_lb() =~= seq![32u8, 108u8, 98u8]);
    assert(pat_lb() =~= seq![108u8, 98u8]);
    assert(pat_sp_t_sp() =~= seq![32u8, 116u8, 32u8]);
    assert(pat_sp_t() =~= seq![32u8, 116u8]);
    assert(pat_ton() =~= seq![116u8, 111u8, 110u8]);
    assert(pat_sp_g_sp() =~= seq![32u8, 103u8, 32u8]);
    assert(pat_sp_g() =~= seq![32u8, 103u8]);
}

/// "kg" in any letter case, at any position of a frame's text, makes the
/// unit kilograms: what precedes or follows it (a status letter, a
/// checksum) does not change that.
pub proof fn lemma_kg_anywhere(text: Seq<u8>, i: int)
    requires
        0 <= i && i + 1 < text.len(),
        text[i] == 107u8 || text[i] == 75u8,
        text[i + 1] == 103u8 || text[i + 1] == 71u8,
    ensures
        unit_of(text) == WeightUnit::Kg,
{
    let t = lower(text);
    assert(t.subrange(i, i + 2) =~= seq![107u8, 103u8]);
    assert(spec_contains(t, seq![107u8, 103u8]));
    lemma_unit_rules(text);
}

/// A reading is unstable exactly when its ASCII lower-cased text holds one
/// of the markers of motion or error, written out here: "us ", " d ", "mov",
/// "uns", "dynamic", "motion", "err".
pub proof fn lemma_stability_rules(text: Seq<u8>)
    ensures
        spec_contains(lower(text), seq![117u8, 115u8, 32u8]) ==> !stable_of(text),
        spec_contains(lower(text), seq![32u8, 100u8, 32u8]) ==> !stable_of(text),
        spec_contains(lower(text), seq![109u8, 111u8, 118u8]) ==> !stable_of(text),
        spec_contains(lower(text), seq![117u8, 110u8, 115u8]) ==> !stable_of(text),
        spec_contains(
            lower(text),
            seq![100u8, 121u8, 110u8, 97u8, 109u8, 105u8, 99u8],
        ) ==> !stable_of(text),
        spec_contains(lower(text), seq![109u8, 111u8, 116u8, 105u8, 111u8, 110u8])
            ==> !stable_of(text),
        spec_contains(lower(text), seq![101u8, 114u8, 114u8]) ==> !stable_of(text),
        !spec_contains(lower(text), seq![117u8, 115u8, 32u8]) && !spec_contains(
            lower(text),
            seq![32u8, 100u8, 32u8],
        ) && !spec_contains(lower(text), seq![109u8, 111u8, 118u8]) && !spec_contains(
            lower(text),
            seq![117u8, 110u8, 115u8],
        ) && !spec_contains(
            lower(text),
            seq![100u8, 121u8, 110u8, 97u8, 109u8, 105u8, 99u8],
        ) && !spec_contains(lower(text), seq![109u8, 111u8, 116u8, 105u8, 111u8, 110u8])
            && !spec_contains(lower(text), seq![101u8, 114u8, 114u8]) ==> stable_of(text),
{
    let ms = unstable_markers();
    assert(ms[0] =~= seq![117u8, 115u8, 32u8]);
    assert(ms[1] =~= seq![32u8, 100u8, 32u8]);
    assert(ms[2] =~= seq![109u8, 111u8, 118u8]);
    assert(ms[3] =~= seq![117u8, 110u8, 115u8]);
    assert(ms[4] =~= seq![100u8, 121u8, 110u8, 97u8, 109u8, 105u8, 99u8]);
    assert(ms[5] =~= seq![109u8, 111u8, 116u8, 105u8, 111u8, 110u8]);
    assert(ms[6] =~= seq![101u8, 114u8, 114u8]);
    let t = lower(text);
    if spec_contains(t, ms[0]) || spec_contains(t, ms[1]) || spec_contains(t, ms[2])
        || spec_contains(t, ms[3]) || spec_contains(t, ms[4]) || spec_contains(t, ms[5])
        || spec_contains(t, ms[6]) {
    } else {
        assert forall|k: int| 0 <= k < 7 implies !#[trigger] spec_contains(t, ms[k]) by {
            if k == 0 {} else if k == 1 {} else if k == 2 {} else if k == 3 {} else if k == 4 {} else if k == 5 {} else {}
        }
    }
}

} // verus!
