//! Frames of a virtual scale, used to exercise the gateway without hardware.
use vstd::prelude::*;
use crate::clock::now_millis;
use crate::text::{all_ascii, ascii_chars, ascii_string, lemma_padded_digits, padded_digits, push_padded};

verus! {

/// XOR of all bytes of `s` (the STX/ETX checksum).
pub open spec fn xor_fold(s: Seq<u8>) -> u8
    decreases s.len(),
{
    if s.len() == 0 {
        0
    } else {
        xor_fold(s.drop_last()) ^ s.last()
    }
}

/// The payload `"{status}   {weight} kg"` as bytes.
pub open spec fn payload_spec(status: Seq<char>, weight: Seq<char>) -> Seq<u8> {
    vstd::utf8::encode_utf8(status) + seq![32u8, 32u8, 32u8] + vstd::utf8::encode_utf8(weight)
        + seq![32u8, 107u8, 103u8]
}

/// The payload `"{status}   {weight} kg"` of a simulated reading.
pub fn build_payload(status: &str, weight: &str) -> (r: Vec<u8>)
    ensures
        r@ == payload_spec(status@, weight@),
{
    let mut out: Vec<u8> = Vec::new();
    out.extend_from_slice(status.as_bytes());
    out.push(32);
    out.push(32);
    out.push(32);
    out.extend_from_slice(weight.as_bytes());
    out.push(32);
    out.push(107);
    out.push(103);
    proof {
        assert(out@ =~= payload_spec(status@, weight@));
    }
    out
}

/// A CR/LF line: payload, CR, LF.
pub fn build_crlf(status: &str, weight: &str) -> (r: Vec<u8>)
    ensures
        r@ == payload_spec(status@, weight@) + seq![13u8, 10u8],
{
    let mut out = build_payload(status, weight);
    out.push(13);
    out.push(10);
    proof {
        assert(out@ =~= payload_spec(status@, weight@) + seq![13u8, 10u8]);
    }
    out
}

/// XOR checksum of `s`.
pub fn xor_checksum(s: &[u8]) -> (r: u8)
    ensures
        r == xor_fold(s@),
{
    let mut acc: u8 = 0;
    let mut i: usize = 0;
    while i < s.len()
        invariant
            i <= s.len(),
            acc == xor_fold(s@.subrange(0, i as int)),
        decreases s.len() - i,
    {
        proof {
            assert(s@.subrange(0, i + 1).drop_last() =~= s@.subrange(0, i as int));
        }
        acc = acc ^ s[i];
        i += 1;
    }
    proof {
        assert(s@.subrange(0, s@.len() as int) =~= s@);
    }
    acc
}

/// An STX/ETX frame: STX, payload, ETX, XOR checksum of the payload.
pub fn build_stx_etx(status: &str, weight: &str) -> (r: Vec<u8>)
    ensures
        r@ == seq![2u8] + payload_spec(status@, weight@) + seq![
            3u8,
            xor_fold(payload_spec(status@, weight@)),
        ],
{
    let payload = build_payload(status, weight);
    let checksum = xor_checksum(payload.as_slice());
    let mut frame: Vec<u8> = Vec::new();
    frame.push(2);
    frame.extend_from_slice(payload.as_slice());
    frame.push(3);
    frame.push(checksum);
    proof {
        assert(frame@ =~= seq![2u8] + payload_spec(status@, weight@) + seq![
            3u8,
            xor_fold(payload_spec(status@, weight@)),
        ]);
    }
    frame
}

/// "HH:MM:SS" (UTC) of a time given in seconds since the epoch.
pub open spec fn clock_text(secs: nat) -> Seq<u8> {
    padded_digits((secs % 86400) / 3600, 2) + seq![58u8] + padded_digits((secs % 3600) / 60, 2)
        + seq![58u8] + padded_digits(secs % 60, 2)
}

/// "HH:MM:SS" (UTC) of `secs` seconds since the epoch.
pub fn hms_text(secs: u64) -> (r: String)
    ensures
        r@ == ascii_chars(clock_text(secs as nat)),
{
    let mut out: Vec<u8> = Vec::new();
    push_padded(&mut out, (secs % 86400) / 3600, 2);
    out.push(58);
    push_padded(&mut out, (secs % 3600) / 60, 2);
    out.push(58);
    push_padded(&mut out, secs % 60, 2);
    proof {
        let t = clock_text(secs as nat);
        assert(out@ =~= t);
        let a = padded_digits(((secs % 86400) / 3600) as nat, 2);
        let b = padded_digits(((secs % 3600) / 60) as nat, 2);
        let c = padded_digits((secs % 60) as nat, 2);
        lemma_padded_digits(((secs % 86400) / 3600) as nat, 2);
        lemma_padded_digits(((secs % 3600) / 60) as nat, 2);
        lemma_padded_digits((secs % 60) as nat, 2);
        assert forall|i: int| 0 <= i < t.len() implies #[trigger] t[i] < 128 by {
            if i < a.len() {
                assert(crate::text::is_digit(a[i]));
            } else if i == a.len() {
            } else if i < a.len() + 1 + b.len() {
                assert(crate::text::is_digit(b[i - a.len() - 1]));
            } else if i == a.len() + 1 + b.len() {
            } else {
                assert(crate::text::is_digit(c[i - a.len() - b.len() - 2]));
            }
        }
        assert(all_ascii(t));
    }
    ascii_string(out)
}

/// Time of day (UTC) as "HH:MM:SS" of the clock reading `ms`, in
/// milliseconds since the epoch.
pub fn clock_text_at(ms: u64) -> (r: String)
    ensures
        r@ == ascii_chars(clock_text(ms as nat / 1000)),
{
    hms_text(ms / 1000)
}

/// The current time of day (UTC) as "HH:MM:SS": [`clock_text_at`] of the
/// clock reading.
pub fn tick_time() -> (r: String)
    ensures
        exists|ms: u64| r@ == ascii_chars(#[trigger] clock_text(ms as nat / 1000)),
{
    let ms = now_millis();
    clock_text_at(ms)
}

} // verus!
