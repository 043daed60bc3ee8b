//! Exact decimal weight values.
//!
//! A scale telegram carries its weight as decimal text such as `-0.020` or
//! `24.550`. The value is kept exactly as a sign, an integer part below one
//! million (the range a scale reading is accepted in) and the digits after
//! the decimal point.
use vstd::prelude::*;
use crate::text::{
    all_ascii, lemma_dec_digits_shape, lemma_padded_digits,
    byte_is_digit, dec_digits, digits_value, is_digit, padded_digits, pow10, push_dec, push_padded,
    zeros, lemma_pow10_pos,
};

verus! {

/// Upper bound (exclusive) of the integer part of an accepted weight.
pub const WEIGHT_LIMIT: u32 = 1_000_000;

/// Mathematical content of a [`Decimal`].
pub struct DecimalModel {
    pub negative: bool,
    pub units: nat,
    pub frac: Seq<u8>,
}

/// A signed decimal number `±units.frac` with `units < 1_000_000`.
#[derive(Debug)]
pub struct Decimal {
    negative: bool,
    units: u32,
    frac: Vec<u8>,
}

impl Decimal {
    #[verifier::type_invariant]
    spec fn inv(&self) -> bool {
        model_wf(self@)
    }
}

impl Clone for Decimal {
    fn clone(&self) -> (r: Self)
        ensures
            r@ == self@,
    {
        self.copy()
    }
}

impl View for Decimal {
    type V = DecimalModel;

    closed spec fn view(&self) -> DecimalModel {
        DecimalModel { negative: self.negative, units: self.units as nat, frac: self.frac@ }
    }
}

/// A model is a valid weight: integer part in range, fraction made of digits.
pub open spec fn model_wf(m: DecimalModel) -> bool {
    &&& m.units < 1_000_000
    &&& forall|i: int| 0 <= i < m.frac.len() ==> #[trigger] is_digit(m.frac[i])
}

// ── Numeric tokens in text ──────────────────────────────────────────────────

/// First index at or after `j` that does not hold a digit.
pub open spec fn digits_end(t: Seq<u8>, j: int) -> int
    decreases t.len() - j,
{
    if 0 <= j < t.len() && is_digit(t[j]) {
        digits_end(t, j + 1)
    } else {
        j
    }
}

/// Position `i` holds a sign immediately followed by a digit.
pub open spec fn sign_at(t: Seq<u8>, i: int) -> bool {
    &&& 0 <= i
    &&& i + 1 < t.len()
    &&& (t[i] == 45 || t[i] == 43)
    &&& is_digit(t[i + 1])
}

/// Start of the digits of a token that begins at `i`.
pub open spec fn digits_start(t: Seq<u8>, i: int) -> int {
    if is_digit(t[i]) {
        i
    } else {
        i + 1
    }
}

/// End of a token whose integer digits end at `ie`: a point and more digits may follow.
pub open spec fn token_end(t: Seq<u8>, ie: int) -> int {
    if 0 <= ie < t.len() && t[ie] == 46 {
        digits_end(t, ie + 1)
    } else {
        ie
    }
}

pub proof fn lemma_digits_end(t: Seq<u8>, j: int)
    requires
        0 <= j,
    ensures
        j <= digits_end(t, j),
        digits_end(t, j) <= if j <= t.len() { t.len() as int } else { j },
        forall|k: int| j <= k < digits_end(t, j) ==> #[trigger] is_digit(t[k]),
        digits_end(t, j) < t.len() ==> !is_digit(t[digits_end(t, j)]),
        j < t.len() && is_digit(t[j]) ==> digits_end(t, j) > j,
    decreases t.len() - j,
{
    if 0 <= j < t.len() && is_digit(t[j]) {
        lemma_digits_end(t, j + 1);
    }
}

/// The first in-range numeric token of `t` at or after position `i`, as
/// (start, end of integer digits, end). A token is an optional sign followed
/// by a digit, then digits, then optionally a point and more digits. A token
/// whose integer part is one million or more is skipped and the search goes
/// on after it.
pub open spec fn first_number(t: Seq<u8>, i: int) -> Option<(int, int, int)>
    decreases t.len() - i,
{
    if i < 0 || i >= t.len() {
        None
    } else if is_digit(t[i]) || sign_at(t, i) {
        let j0 = digits_start(t, i);
        let ie = digits_end(t, j0);
        let end = token_end(t, ie);
        if digits_value(t.subrange(j0, ie)) < 1_000_000 {
            Some((i, ie, end))
        } else {
            proof {
                lemma_digits_end(t, j0);
                if 0 <= ie < t.len() && t[ie] == 46 {
                    lemma_digits_end(t, ie + 1);
                }
            }
            first_number(t, end)
        }
    } else {
        first_number(t, i + 1)
    }
}

/// The value written by the token `t[start..end]` whose integer digits end at `ie`.
pub open spec fn token_value(t: Seq<u8>, start: int, ie: int, end: int) -> DecimalModel {
    DecimalModel {
        negative: t[start] == 45,
        units: digits_value(t.subrange(digits_start(t, start), ie)),
        frac: if end > ie {
            t.subrange(ie + 1, end)
        } else {
            Seq::empty()
        },
    }
}

/// The value of the first in-range number written in `t`, if any.
pub open spec fn first_value(t: Seq<u8>) -> Option<DecimalModel> {
    match first_number(t, 0) {
        Some((s, ie, e)) => Some(token_value(t, s, ie, e)),
        None => None,
    }
}

/// `t` is exactly one in-range numeric token; its value.
pub open spec fn whole_value(t: Seq<u8>) -> Option<DecimalModel> {
    match first_number(t, 0) {
        Some((s, ie, e)) => if s == 0 && e == t.len() {
            Some(token_value(t, s, ie, e))
        } else {
            None
        },
        None => None,
    }
}

spec fn capped(v: nat) -> nat {
    if v < 1_000_000 {
        v
    } else {
        1_000_000
    }
}

/// Scans `t` for its first in-range numeric token; returns its bounds and value.
pub fn scan_number(t: &[u8]) -> (r: Option<(usize, usize, Decimal)>)
    ensures
        match first_number(t@, 0) {
            None => r is None,
            Some((s, ie, e)) => r matches Some((rs, re, d)) && rs == s && re == e && d@
                == token_value(t@, s, ie, e),
        },
{
    let len = t.len();
    let mut i: usize = 0;
    while i < len
        invariant
            len == t@.len(),
            i <= len,
            first_number(t@, 0) == first_number(t@, i as int),
        decreases len - i,
    {
        let b = t[i];
        let is_sign = (b == 45 || b == 43) && i + 1 < len && byte_is_digit(t[i + 1]);
        if byte_is_digit(b) || is_sign {
            let start = i;
            let negative = b == 45;
            let mut j: usize = if is_sign {
                i + 1
            } else {
                i
            };
            let j0 = j;
            proof {
                lemma_digits_end(t@, j0 as int);
            }
            let mut units: u32 = 0;
            while j < len && byte_is_digit(t[j])
                invariant
                    len == t@.len(),
                    j0 <= j <= len,
                    digits_end(t@, j0 as int) == digits_end(t@, j as int),
                    units == capped(digits_value(t@.subrange(j0 as int, j as int))),
                decreases len - j,
            {
                let d = (t[j] - 48) as u32;
                proof {
                    let sub = t@.subrange(j0 as int, j + 1);
                    assert(sub.drop_last() =~= t@.subrange(j0 as int, j as int));
                }
                units = if units >= 100_000 {
                    1_000_000
                } else {
                    let v = units * 10 + d;
                    if v >= 1_000_000 {
                        1_000_000
                    } else {
                        v
                    }
                };
                j += 1;
            }
            let ie = j;
            let mut frac: Vec<u8> = Vec::new();
            if j < len && t[j] == 46 {
                j += 1;
                proof {
                    lemma_digits_end(t@, j as int);
                }
                let f0 = j;
                while j < len && byte_is_digit(t[j])
                    invariant
                        len == t@.len(),
                        f0 <= j <= len,
                        digits_end(t@, f0 as int) == digits_end(t@, j as int),
                        frac@ == t@.subrange(f0 as int, j as int),
                    decreases len - j,
                {
                    frac.push(t[j]);
                    j += 1;
                    assert(frac@ =~= t@.subrange(f0 as int, j as int));
                }
            }
            assert(j as int == token_end(t@, ie as int));
            if units < 1_000_000 {
                let d = Decimal { negative, units, frac };
                proof {
                    if j == ie {
                        assert(d@.frac =~= Seq::<u8>::empty());
                    }
                }
                return Some((start, j, d));
            }
            i = j;
        } else {
            i += 1;
        }
    }
    None
}

// ── Rendering ───────────────────────────────────────────────────────────────

/// The first `p` fraction digits, padded with zeros when there are fewer.
pub open spec fn frac_prefix(f: Seq<u8>, p: nat) -> Seq<u8> {
    if f.len() >= p {
        f.subrange(0, p as int)
    } else {
        f + zeros((p - f.len()) as nat)
    }
}

/// The magnitude times `10^p`, with the fraction digits after the `p`-th dropped.
pub open spec fn kept_value(m: DecimalModel, p: nat) -> nat {
    m.units * pow10(p) + digits_value(frac_prefix(m.frac, p))
}

/// Some fraction digit after the first `p + 1` is not zero.
pub open spec fn nonzero_after(f: Seq<u8>, p: nat) -> bool {
    exists|k: int| p < k < f.len() && #[trigger] f[k] != 48
}

/// The dropped digits are worth more than half a unit of the last kept
/// digit, or exactly half of it while the kept value is odd.
pub open spec fn rounds_up(m: DecimalModel, p: nat) -> bool {
    let f = m.frac;
    &&& f.len() > p
    &&& (f[p as int] > 53 || (f[p as int] == 53 && (nonzero_after(f, p) || kept_value(m, p) % 2
        == 1)))
}

/// The magnitude times `10^p`, rounded to the nearest integer, ties to even.
pub open spec fn scaled_value(m: DecimalModel, p: nat) -> nat {
    kept_value(m, p) + if rounds_up(m, p) {
        1nat
    } else {
        0nat
    }
}

/// The sign, when negative.
pub open spec fn sign_text(m: DecimalModel) -> Seq<u8> {
    if m.negative {
        seq![45u8]
    } else {
        Seq::empty()
    }
}

/// Fixed-point rendering with `p` digits after the point: sign, integer part,
/// point, then `p` fraction digits. The exact decimal is rounded to the
/// nearest value with `p` fraction digits, a tie going to the one whose last
/// digit is even: the digits after the `p`-th are dropped, and the last kept
/// digit goes up by one (with carries) when the dropped digits are worth more
/// than half of it, or exactly half while it is odd. A negative value keeps
/// its sign even when it rounds to zero.
pub open spec fn fixed_text(m: DecimalModel, p: nat) -> Seq<u8> {
    let v = scaled_value(m, p);
    sign_text(m) + dec_digits(v / pow10(p)) + seq![46u8] + padded_digits(v % pow10(p), p)
}

/// Exact rendering: sign, integer part, and the fraction digits after a point when there are any.
pub open spec fn plain_text(m: DecimalModel) -> Seq<u8> {
    sign_text(m) + dec_digits(m.units) + if m.frac.len() > 0 {
        seq![46u8] + m.frac
    } else {
        Seq::empty()
    }
}

/// Fixed-point text holds only digits, the sign and the point.
pub proof fn lemma_fixed_ascii_shape(m: DecimalModel, p: nat)
    ensures
        forall|i: int|
            0 <= i < fixed_text(m, p).len() ==> {
                let b = #[trigger] fixed_text(m, p)[i];
                is_digit(b) || b == 45 || b == 46
            },
{
    let v = scaled_value(m, p);
    lemma_pow10_pos(p);
    lemma_dec_digits_shape(v / pow10(p));
    lemma_padded_digits(v % pow10(p), p);
    let a = sign_text(m);
    let b = dec_digits(v / pow10(p));
    let c = padded_digits(v % pow10(p), p);
    let t = fixed_text(m, p);
    assert forall|i: int| 0 <= i < t.len() implies {
        let x = #[trigger] t[i];
        is_digit(x) || x == 45 || x == 46
    } by {
        if i < a.len() {
        } else if i < a.len() + b.len() {
            assert(is_digit(b[i - a.len()]));
        } else if i == a.len() + b.len() {
        } else {
            assert(is_digit(c[i - a.len() - b.len() - 1]));
        }
    }
}

/// Fixed-point text is ASCII.
pub proof fn lemma_fixed_ascii(m: DecimalModel, p: nat)
    ensures
        all_ascii(fixed_text(m, p)),
{
    lemma_fixed_ascii_shape(m, p);
    assert forall|i: int| 0 <= i < fixed_text(m, p).len() implies #[trigger] fixed_text(m, p)[i]
        < 128 by {
        let b = fixed_text(m, p)[i];
        assert(is_digit(b) || b == 45 || b == 46);
    }
}

proof fn lemma_digits_end_at(t: Seq<u8>, j: int, k: int)
    requires
        0 <= j <= k <= t.len(),
        forall|i: int| j <= i < k ==> #[trigger] is_digit(t[i]),
        k == t.len() || !is_digit(t[k]),
    ensures
        digits_end(t, j) == k,
    decreases k - j,
{
    if j < k {
        lemma_digits_end_at(t, j + 1, k);
    }
}

/// The exact text of a valid weight parses back to that weight.
pub proof fn lemma_plain_text_parses_back(m: DecimalModel)
    requires
        model_wf(m),
    ensures
        whole_value(plain_text(m)) == Some(m),
{
    let t = plain_text(m);
    let sg = sign_text(m);
    let dd = dec_digits(m.units);
    let tail = if m.frac.len() > 0 {
        seq![46u8] + m.frac
    } else {
        Seq::<u8>::empty()
    };
    lemma_dec_digits_shape(m.units);
    let j0 = sg.len() as int;
    let ie = j0 + dd.len();
    assert(t =~= sg + dd + tail);
    assert forall|i: int| j0 <= i < ie implies #[trigger] is_digit(t[i]) by {
        assert(t[i] == dd[i - j0]);
        assert(is_digit(dd[i - j0]));
    }
    if m.frac.len() > 0 {
        assert(t[ie] == 46u8);
    }
    lemma_digits_end_at(t, j0, ie);
    assert(digits_start(t, 0) == j0) by {
        if m.negative {
            assert(t[0] == 45u8);
            assert(t[1] == dd[0]);
            assert(is_digit(dd[0]));
        } else {
            assert(t[0] == dd[0]);
            assert(is_digit(dd[0]));
        }
    }
    if m.negative {
        assert(t[1] == dd[0]);
        assert(is_digit(dd[0]));
        assert(sign_at(t, 0));
    } else {
        assert(is_digit(t[0])) by {
            assert(t[0] == dd[0]);
            assert(is_digit(dd[0]));
        }
    }
    assert(t.subrange(j0, ie) =~= dd);
    if m.frac.len() > 0 {
        assert forall|i: int| ie + 1 <= i < t.len() implies #[trigger] is_digit(t[i]) by {
            assert(t[i] == m.frac[i - ie - 1]);
        }
        lemma_digits_end_at(t, ie + 1, t.len() as int);
        assert(t.subrange(ie + 1, t.len() as int) =~= m.frac);
    } else {
        assert(t.len() == ie);
    }
    assert(first_number(t, 0) == Some((0int, ie, t.len() as int)));
    let v = token_value(t, 0, ie, t.len() as int);
    assert(v.frac =~= m.frac);
    assert(v.negative == m.negative) by {
        if !m.negative {
            assert(t[0] == dd[0]);
            assert(is_digit(dd[0]));
        }
    }
}

impl Decimal {
    /// The value written as the whole of `text` (an optional sign, digits, and
    /// optionally a point and digits), if its integer part is below one million.
    pub fn parse(text: &[u8]) -> (r: Option<Decimal>)
        ensures
            match whole_value(text@) {
                Some(m) => r matches Some(d) && d@ == m,
                None => r is None,
            },
    {
        match scan_number(text) {
            Some((s, e, d)) => {
                if s == 0 && e == text.len() {
                    Some(d)
                } else {
                    None
                }
            },
            None => None,
        }
    }

    /// Whether a fraction digit after position `p` is not zero.
    fn any_nonzero_after(&self, p: usize) -> (r: bool)
        ensures
            r == nonzero_after(self@.frac, p as nat),
    {
        if p >= self.frac.len() {
            return false;
        }
        let mut j: usize = p + 1;
        while j < self.frac.len()
            invariant
                p < j,
                forall|k: int| p < k < j && k < self@.frac.len() ==> #[trigger] self@.frac[k] == 48,
            decreases self.frac.len() - j,
        {
            if self.frac[j] != 48 {
                assert(self@.frac[j as int] != 48);
                return true;
            }
            j += 1;
        }
        false
    }

    /// Fixed-point text with `places` digits after the point, the exact value
    /// rounded to the nearest, ties to even (see [`fixed_text`]).
    pub fn fixed(&self, places: u32) -> (r: Vec<u8>)
        requires
            1 <= places <= 6,
        ensures
            r@ == fixed_text(self@, places as nat),
    {
        proof {
            use_type_invariant(self);
        }
        let flen = self.frac.len();
        let mut fv: u64 = 0;
        let mut pw: u64 = 1;
        let mut k: u32 = 0;
        while k < places
            invariant
                k <= places <= 6,
                flen == self.frac@.len(),
                model_wf(self@),
                pw == pow10(k as nat),
                pw <= 1_000_000,
                k <= 5 ==> pw <= 100_000,
                k <= 4 ==> pw <= 10_000,
                k <= 3 ==> pw <= 1_000,
                k <= 2 ==> pw <= 100,
                k <= 1 ==> pw <= 10,
                k == 0 ==> pw == 1,
                fv < pw,
                fv == digits_value(frac_prefix(self.frac@, k as nat)),
            decreases places - k,
        {
            let d: u64 = if (k as usize) < flen {
                assert(is_digit(self@.frac[k as int]));
                (self.frac[k as usize] - 48) as u64
            } else {
                0
            };
            proof {
                let f = self.frac@;
                let next = frac_prefix(f, (k + 1) as nat);
                assert(next.drop_last() =~= frac_prefix(f, k as nat));
                if (k as int) < f.len() {
                    assert(is_digit(f[k as int]));
                    assert(next.last() == f[k as int]);
                } else {
                    assert(next.last() == 48u8);
                }
                assert(pow10((k + 1) as nat) == 10 * pow10(k as nat));
            }
            fv = fv * 10 + d;
            pw = pw * 10;
            k += 1;
        }
        let units = self.units as u64;
        assert(units * pw <= 1_000_000 * 1_000_000) by (nonlinear_arith)
            requires
                units < 1_000_000,
                pw <= 1_000_000,
        ;
        let kept = units * pw + fv;
        let round: u64 = if flen > places as usize {
            let first = self.frac[places as usize];
            if first > 53 {
                1
            } else if first == 53 {
                if self.any_nonzero_after(places as usize) || kept % 2 == 1 {
                    1
                } else {
                    0
                }
            } else {
                0
            }
        } else {
            0
        };
        let scaled = kept + round;
        let mut out: Vec<u8> = Vec::new();
        if self.negative {
            out.push(45);
        }
        push_dec(&mut out, scaled / pw);
        out.push(46);
        push_padded(&mut out, scaled % pw, places as usize);
        proof {
            assert(scaled == scaled_value(self@, places as nat));
            assert(out@ =~= fixed_text(self@, places as nat));
        }
        out
    }

    /// Exact text of the value (sign, integer part, point and fraction digits when present).
    pub fn to_text(&self) -> (r: Vec<u8>)
        ensures
            r@ == plain_text(self@),
    {
        let mut out: Vec<u8> = Vec::new();
        if self.negative {
            out.push(45);
        }
        push_dec(&mut out, self.units as u64);
        if self.frac.len() > 0 {
            out.push(46);
            out.extend_from_slice(self.frac.as_slice());
        }
        proof {
            assert(out@ =~= plain_text(self@));
        }
        out
    }

    /// The sign of the value.
    pub fn is_negative(&self) -> (r: bool)
        ensures
            r == self@.negative,
    {
        self.negative
    }

    /// The integer part of the magnitude.
    pub fn units(&self) -> (r: u32)
        ensures
            r == self@.units,
    {
        self.units
    }

    /// A copy of the value.
    pub fn copy(&self) -> (r: Decimal)
        ensures
            r@ == self@,
    {
        proof {
            use_type_invariant(self);
        }
        Decimal { negative: self.negative, units: self.units, frac: self.frac.clone() }
    }
}

} // verus!
