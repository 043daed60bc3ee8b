//! Byte-level text helpers shared by the frame parser, the sealer and the
//! CSV export: ASCII classification, substring search, trimming and the
//! decimal rendering of unsigned integers.
use vstd::prelude::*;

verus! {

/// `b` is an ASCII decimal digit.
pub open spec fn is_digit(b: u8) -> bool {
    48 <= b && b <= 57
}

/// `b` is a graphic ASCII character or a space (what survives frame cleaning).
pub open spec fn is_printable(b: u8) -> bool {
    32 <= b && b <= 126
}

/// ASCII lower-casing of one byte.
pub open spec fn lower_byte(b: u8) -> u8 {
    if 65 <= b && b <= 90 {
        (b + 32) as u8
    } else {
        b
    }
}

/// ASCII lower-casing of a byte string.
pub open spec fn lower(s: Seq<u8>) -> Seq<u8> {
    s.map_values(|b: u8| lower_byte(b))
}

/// The bytes of `s` that are printable, in their order.
pub open spec fn printable_only(s: Seq<u8>) -> Seq<u8>
    decreases s.len(),
{
    if s.len() == 0 {
        s
    } else {
        let r = printable_only(s.drop_last());
        if is_printable(s.last()) {
            r.push(s.last())
        } else {
            r
        }
    }
}

/// First index at or after `i` that is not a space.
pub open spec fn trim_lo(s: Seq<u8>, i: int) -> int
    decreases s.len() - i,
{
    if 0 <= i < s.len() && s[i] == 32 {
        trim_lo(s, i + 1)
    } else {
        i
    }
}

/// One past the last index below `j` (and at or above `lo`) that is not a space.
pub open spec fn trim_hi(s: Seq<u8>, lo: int, j: int) -> int
    decreases j - lo,
{
    if lo < j && j <= s.len() && s[j - 1] == 32 {
        trim_hi(s, lo, j - 1)
    } else {
        j
    }
}

/// `s` without its leading and trailing spaces.
pub open spec fn trim(s: Seq<u8>) -> Seq<u8> {
    let lo = trim_lo(s, 0);
    s.subrange(lo, trim_hi(s, lo, s.len() as int))
}

/// `pat` occurs in `hay`.
pub open spec fn spec_contains(hay: Seq<u8>, pat: Seq<u8>) -> bool {
    exists|i: int|
        0 <= i && i + pat.len() <= hay.len() && #[trigger] hay.subrange(i, i + pat.len()) == pat
}

/// `hay` ends with `pat`.
pub open spec fn spec_ends_with(hay: Seq<u8>, pat: Seq<u8>) -> bool {
    pat.len() <= hay.len() && hay.subrange(hay.len() - pat.len(), hay.len() as int) == pat
}

/// First index at or after `i` holding `b`, if any.
pub open spec fn find_from(s: Seq<u8>, i: int, b: u8) -> Option<int>
    decreases s.len() - i,
{
    if i < 0 || i >= s.len() {
        None
    } else if s[i] == b {
        Some(i)
    } else {
        find_from(s, i + 1, b)
    }
}

/// Value of a string of ASCII digits read in base 10.
pub open spec fn digits_value(s: Seq<u8>) -> nat
    decreases s.len(),
{
    if s.len() == 0 {
        0
    } else {
        digits_value(s.drop_last()) * 10 + (s.last() - 48) as nat
    }
}

/// Decimal rendering of `n` without leading zeros ("0" for zero).
pub open spec fn dec_digits(n: nat) -> Seq<u8>
    decreases n,
{
    if n < 10 {
        seq![(48 + n) as u8]
    } else {
        dec_digits(n / 10).push((48 + n % 10) as u8)
    }
}

/// `n` ASCII zeros.
pub open spec fn zeros(n: nat) -> Seq<u8> {
    Seq::new(n, |i: int| 48u8)
}

/// Decimal rendering of `n`, left-padded with zeros to at least `width` digits.
pub open spec fn padded_digits(n: nat, width: nat) -> Seq<u8> {
    let d = dec_digits(n);
    if d.len() < width {
        zeros((width - d.len()) as nat) + d
    } else {
        d
    }
}

/// ASCII bytes seen as characters.
pub open spec fn ascii_chars(s: Seq<u8>) -> Seq<char> {
    s.map_values(|b: u8| b as char)
}

/// Every byte of `s` is ASCII.
pub open spec fn all_ascii(s: Seq<u8>) -> bool {
    forall|i: int| 0 <= i < s.len() ==> #[trigger] s[i] < 128
}

pub proof fn lemma_dec_digits_shape(n: nat)
    ensures
        dec_digits(n).len() >= 1,
        forall|i: int| 0 <= i < dec_digits(n).len() ==> #[trigger] is_digit(dec_digits(n)[i]),
        digits_value(dec_digits(n)) == n,
        n < 10 ==> dec_digits(n).len() == 1,
        n >= 10 ==> dec_digits(n).len() == dec_digits(n / 10).len() + 1,
    decreases n,
{
    let d = dec_digits(n);
    if n >= 10 {
        lemma_dec_digits_shape(n / 10);
        assert(d.drop_last() =~= dec_digits(n / 10));
        assert(d.last() == (48 + n % 10) as u8);
        assert((d.last() - 48) as nat == n % 10);
        assert(n == (n / 10) * 10 + n % 10);
    } else {
        assert(d.drop_last() =~= Seq::<u8>::empty());
        assert(digits_value(d.drop_last()) == 0);
    }
}

pub proof fn lemma_padded_digits(n: nat, w: nat)
    ensures
        forall|i: int|
            0 <= i < padded_digits(n, w).len() ==> #[trigger] is_digit(padded_digits(n, w)[i]),
{
    lemma_dec_digits_shape(n);
    let d = dec_digits(n);
    if d.len() < w {
        let p = zeros((w - d.len()) as nat) + d;
        assert forall|i: int| 0 <= i < p.len() implies #[trigger] is_digit(p[i]) by {
            if i < w - d.len() {
            } else {
                assert(p[i] == d[i - (w - d.len())]);
            }
        }
    }
}

/// ASCII test of one byte.
pub fn byte_is_digit(b: u8) -> (r: bool)
    ensures
        r == is_digit(b),
{
    48 <= b && b <= 57
}

pub proof fn lemma_find_from(s: Seq<u8>, i: int, b: u8)
    requires
        0 <= i,
    ensures
        match find_from(s, i, b) {
            Some(k) => i <= k < s.len() && s[k] == b && forall|m: int|
                i <= m < k ==> #[trigger] s[m] != b,
            None => forall|m: int| i <= m < s.len() ==> #[trigger] s[m] != b,
        },
    decreases s.len() - i,
{
    if i < s.len() && s[i] != b {
        lemma_find_from(s, i + 1, b);
    }
}

/// Searching from `i` in `s` is searching from `i - p` in `s.skip(p)`, shifted by `p`.
pub proof fn lemma_find_from_skip(s: Seq<u8>, p: int, i: int, b: u8)
    requires
        0 <= p <= i,
        p <= s.len(),
    ensures
        find_from(s, i, b) == match find_from(s.skip(p), i - p, b) {
            Some(k) => Some(k + p),
            None => None,
        },
    decreases s.len() - i,
{
    if i < s.len() && s[i] != b {
        lemma_find_from_skip(s, p, i + 1, b);
    }
}

/// A byte found in `a` is found at the same place in `a + c`.
pub proof fn lemma_find_from_prefix(a: Seq<u8>, c: Seq<u8>, i: int, b: u8)
    requires
        0 <= i,
        find_from(a, i, b) is Some,
    ensures
        find_from(a + c, i, b) == find_from(a, i, b),
    decreases a.len() - i,
{
    if i < a.len() && a[i] != b {
        lemma_find_from_prefix(a, c, i + 1, b);
    }
}

/// When `a` holds no `b` from `i` on, searching `a + c` from `i` finds the first `b` of `c`.
pub proof fn lemma_find_from_suffix(a: Seq<u8>, c: Seq<u8>, i: int, b: u8)
    requires
        0 <= i <= a.len(),
        find_from(a, i, b) is None,
    ensures
        find_from(a + c, i, b) == match find_from(c, 0, b) {
            Some(k) => Some(k + a.len()),
            None => None,
        },
    decreases a.len() - i,
{
    if i < a.len() {
        lemma_find_from_suffix(a, c, i + 1, b);
    } else {
        lemma_find_from_skip(a + c, a.len() as int, i, b);
        assert((a + c).skip(a.len() as int) =~= c);
    }
}

/// First index at or after `from` holding `b`.
pub fn find_byte(s: &[u8], from: usize, b: u8) -> (r: Option<usize>)
    ensures
        match find_from(s@, from as int, b) {
            Some(k) => r == Some(k as usize),
            None => r is None,
        },
{
    let mut k = from;
    while k < s.len()
        invariant
            from <= k,
            find_from(s@, from as int, b) == find_from(s@, k as int, b),
        decreases s.len() - k,
    {
        if s[k] == b {
            return Some(k);
        }
        k += 1;
    }
    None
}

/// Whether `pat` occurs in `hay`.
pub fn contains(hay: &[u8], pat: &[u8]) -> (r: bool)
    ensures
        r == spec_contains(hay@, pat@),
{
    if pat.len() > hay.len() {
        return false;
    }
    let mut i: usize = 0;
    let last = hay.len() - pat.len();
    while i <= last
        invariant
            pat.len() <= hay.len(),
            last == hay.len() - pat.len(),
            i <= last + 1,
            forall|k: int| 0 <= k < i ==> #[trigger] hay@.subrange(k, k + pat@.len()) != pat@,
        decreases last + 1 - i,
    {
        let mut j: usize = 0;
        let mut ok = true;
        while j < pat.len()
            invariant
                i + pat.len() <= hay.len(),
                j <= pat.len(),
                ok <==> forall|m: int| 0 <= m < j ==> hay@[i + m] == pat@[m],
            decreases pat.len() - j,
        {
            if hay[i + j] != pat[j] {
                ok = false;
            }
            j += 1;
        }
        if ok {
            assert(hay@.subrange(i as int, i + pat@.len()) =~= pat@);
            return true;
        }
        i += 1;
    }
    proof {
        assert forall|k: int|
            0 <= k && k + pat@.len() <= hay@.len() implies #[trigger] hay@.subrange(
            k,
            k + pat@.len(),
        ) != pat@ by {
            assert(k < i);
        }
    }
    false
}

/// Whether `hay` ends with `pat`.
pub fn ends_with(hay: &[u8], pat: &[u8]) -> (r: bool)
    ensures
        r == spec_ends_with(hay@, pat@),
{
    if pat.len() > hay.len() {
        return false;
    }
    let off = hay.len() - pat.len();
    let mut j: usize = 0;
    while j < pat.len()
        invariant
            off + pat.len() == hay.len(),
            j <= pat.len(),
            forall|m: int| 0 <= m < j ==> hay@[off + m] == pat@[m],
        decreases pat.len() - j,
    {
        if hay[off + j] != pat[j] {
            proof {
                let sub = hay@.subrange(off as int, hay@.len() as int);
                assert(sub[j as int] != pat@[j as int]);
            }
            return false;
        }
        j += 1;
    }
    assert(hay@.subrange(off as int, hay@.len() as int) =~= pat@);
    true
}

/// ASCII lower-cased copy of `s`.
pub fn to_lower(s: &[u8]) -> (r: Vec<u8>)
    ensures
        r@ == lower(s@),
{
    let mut out: Vec<u8> = Vec::new();
    let mut i: usize = 0;
    while i < s.len()
        invariant
            i <= s.len(),
            out@ == lower(s@.subrange(0, i as int)),
        decreases s.len() - i,
    {
        let b = s[i];
        let l = if 65 <= b && b <= 90 {
            b + 32
        } else {
            b
        };
        out.push(l);
        i += 1;
        assert(out@ =~= lower(s@.subrange(0, i as int)));
    }
    assert(s@.subrange(0, s@.len() as int) =~= s@);
    out
}

/// The printable bytes of `s` (graphic ASCII and space), in order.
pub fn keep_printable(s: &[u8]) -> (r: Vec<u8>)
    ensures
        r@ == printable_only(s@),
{
    let mut out: Vec<u8> = Vec::new();
    let mut i: usize = 0;
    while i < s.len()
        invariant
            i <= s.len(),
            out@ == printable_only(s@.subrange(0, i as int)),
        decreases s.len() - i,
    {
        let b = s[i];
        proof {
            assert(s@.subrange(0, i + 1).drop_last() =~= s@.subrange(0, i as int));
        }
        if 32 <= b && b <= 126 {
            out.push(b);
        }
        i += 1;
    }
    assert(s@.subrange(0, s@.len() as int) =~= s@);
    out
}

/// `s` without leading and trailing spaces.
pub fn trim_spaces(s: &[u8]) -> (r: Vec<u8>)
    ensures
        r@ == trim(s@),
{
    let mut lo: usize = 0;
    while lo < s.len() && s[lo] == 32
        invariant
            lo <= s.len(),
            trim_lo(s@, 0) == trim_lo(s@, lo as int),
        decreases s.len() - lo,
    {
        lo += 1;
    }
    let mut hi: usize = s.len();
    while hi > lo && s[hi - 1] == 32
        invariant
            lo <= hi <= s.len(),
            trim_lo(s@, 0) == lo,
            trim_hi(s@, lo as int, s@.len() as int) == trim_hi(s@, lo as int, hi as int),
        decreases hi - lo,
    {
        hi -= 1;
    }
    let mut out: Vec<u8> = Vec::new();
    let mut k: usize = lo;
    while k < hi
        invariant
            lo <= k <= hi <= s.len(),
            out@ == s@.subrange(lo as int, k as int),
        decreases hi - k,
    {
        out.push(s[k]);
        k += 1;
        assert(out@ =~= s@.subrange(lo as int, k as int));
    }
    out
}

/// Number of decimal digits of `n`.
pub fn dec_len(n: u64) -> (r: usize)
    ensures
        r == dec_digits(n as nat).len(),
        1 <= r <= 20,
    decreases n,
{
    proof {
        lemma_dec_digits_shape(n as nat);
        assert(pow10(20) == 100_000_000_000_000_000_000) by {
            reveal_with_fuel(pow10, 21);
        }
        lemma_dec_len_limit(n as nat, 20);
    }
    if n < 10 {
        1
    } else {
        let r = dec_len(n / 10);
        r + 1
    }
}

/// A number below `10^k` has at most `k` digits.
pub proof fn lemma_dec_len_limit(n: nat, k: nat)
    requires
        k >= 1,
        n < pow10(k),
    ensures
        dec_digits(n).len() <= k,
    decreases k,
{
    lemma_dec_digits_shape(n);
    if n >= 10 {
        lemma_pow10_pos(k);
        if k == 1 {
            assert(pow10(1) == 10) by {
                reveal_with_fuel(pow10, 2);
            }
        } else {
            assert(pow10(k) == 10 * pow10((k - 1) as nat));
            assert(n / 10 < pow10((k - 1) as nat));
            lemma_dec_len_limit(n / 10, (k - 1) as nat);
        }
    }
}

/// `10^k`.
pub open spec fn pow10(k: nat) -> nat
    decreases k,
{
    if k == 0 {
        1
    } else {
        10 * pow10((k - 1) as nat)
    }
}

pub proof fn lemma_pow10_pos(k: nat)
    ensures
        pow10(k) >= 1,
    decreases k,
{
    if k > 0 {
        lemma_pow10_pos((k - 1) as nat);
    }
}

/// Appends the decimal rendering of `n` to `out`.
pub fn push_dec(out: &mut Vec<u8>, n: u64)
    ensures
        final(out)@ == old(out)@ + dec_digits(n as nat),
    decreases n,
{
    if n >= 10 {
        push_dec(out, n / 10);
    }
    out.push(48 + (n % 10) as u8);
    proof {
        if n >= 10 {
            assert(dec_digits(n as nat) == dec_digits((n / 10) as nat).push((48 + n % 10) as u8));
        }
        assert(final(out)@ =~= old(out)@ + dec_digits(n as nat));
    }
}

/// Appends the decimal rendering of `n`, left-padded with zeros to `width` digits.
pub fn push_padded(out: &mut Vec<u8>, n: u64, width: usize)
    ensures
        final(out)@ == old(out)@ + padded_digits(n as nat, width as nat),
{
    let len = dec_len(n);
    let ghost start = out@;
    let mut k: usize = len;
    while k < width
        invariant
            len <= k <= width || (k == len && width < len),
            len == dec_digits(n as nat).len(),
            out@ == start + zeros((k - len) as nat),
        decreases width - k,
    {
        out.push(48);
        k += 1;
        assert(out@ =~= start + zeros((k - len) as nat));
    }
    let ghost mid = out@;
    push_dec(out, n);
    proof {
        if len < width {
            assert(mid == start + zeros((width - len) as nat));
            assert(out@ =~= start + padded_digits(n as nat, width as nat));
        } else {
            assert(zeros(0) =~= Seq::<u8>::empty());
            assert(out@ =~= start + padded_digits(n as nat, width as nat));
        }
    }
}

/// Turns ASCII bytes into a `String` (`String::from_utf8`; ASCII is always valid UTF-8).
/// Claims the characters of the result are the bytes taken one by one.
#[verifier::external_body]
pub(crate) fn ascii_string(bytes: Vec<u8>) -> (r: String)
    requires
        all_ascii(bytes@),
    ensures
        r@ == ascii_chars(bytes@),
{
    String::from_utf8(bytes).unwrap()
}

} // verus!
