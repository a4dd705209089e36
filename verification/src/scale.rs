//! The tolerant scale-value parser.
//!
//! One free-text survey cell either is a decimal number (after trimming
//! surrounding whitespace), or contains one embedded somewhere in prose, or
//! holds no number at all. The embedded search accepts the first substring
//! shaped like an optional minus sign, digits, an optional decimal point and
//! an optional stray comma before a final digit group; the comma is dropped
//! from the digits it surrounds.

use vstd::prelude::*;
use crate::decimal::{Dec, pow10, lemma_pow10_values, lemma_pow10_monotonic, lemma_pow10_pos};

verus! {

use vstd::arithmetic::power::pow;

/// An ASCII decimal digit.
pub open spec fn digit(c: char) -> bool {
    '0' <= c <= '9'
}

/// The numeric value of a digit character.
pub open spec fn digit_val(c: char) -> int {
    c as int - '0' as int
}

/// ASCII whitespace, trimmed from the ends of a cell before strict parsing.
pub open spec fn white(c: char) -> bool {
    c == ' ' || c == '\t' || c == '\n' || c == '\r'
}

/// The cell with leading whitespace removed.
pub open spec fn trim_front(s: Seq<char>) -> Seq<char>
    decreases s.len(),
{
    if s.len() > 0 && white(s[0]) {
        trim_front(s.drop_first())
    } else {
        s
    }
}

/// The cell with trailing whitespace removed.
pub open spec fn trim_back(s: Seq<char>) -> Seq<char>
    decreases s.len(),
{
    if s.len() > 0 && white(s.last()) {
        trim_back(s.drop_last())
    } else {
        s
    }
}

/// The cell with whitespace removed from both ends.
pub open spec fn trim_spec(s: Seq<char>) -> Seq<char> {
    trim_back(trim_front(s))
}

proof fn lemma_trim_front_skip(s: Seq<char>, lo: int)
    requires
        0 <= lo <= s.len(),
        forall|j: int| 0 <= j < lo ==> white(s[j]),
        lo < s.len() ==> !white(s[lo]),
    ensures
        trim_front(s) == s.skip(lo),
    decreases lo,
{
    if lo == 0 {
        assert(s.skip(0) =~= s);
    } else {
        lemma_trim_front_skip(s.drop_first(), lo - 1);
        assert(s.drop_first().skip(lo - 1) =~= s.skip(lo));
    }
}

proof fn lemma_trim_back_take(s: Seq<char>, hi: int)
    requires
        0 <= hi <= s.len(),
        forall|j: int| hi <= j < s.len() ==> white(s[j]),
        hi > 0 ==> !white(s[hi - 1]),
    ensures
        trim_back(s) == s.take(hi),
    decreases s.len(),
{
    if hi == s.len() {
        assert(s.take(hi) =~= s);
    } else {
        lemma_trim_back_take(s.drop_last(), hi);
        assert(s.drop_last().take(hi) =~= s.take(hi));
    }
}

/// The digits read so far extended by the digits of `s`, most significant
/// first: the usual left-to-right accumulation of a decimal numeral.
pub open spec fn digits_acc(start: int, s: Seq<char>) -> int
    decreases s.len(),
{
    if s.len() == 0 {
        start
    } else {
        digits_acc(10 * start + digit_val(s[0]), s.drop_first())
    }
}

/// The numeric value of a digit string.
pub open spec fn digits_value(s: Seq<char>) -> int {
    digits_acc(0, s)
}

proof fn lemma_digits_acc_push(a: int, s: Seq<char>, c: char)
    ensures
        digits_acc(a, s.push(c)) == 10 * digits_acc(a, s) + digit_val(c),
    decreases s.len(),
{
    reveal_with_fuel(digits_acc, 3);
    if s.len() == 0 {
        assert(s.push(c).drop_first() =~= Seq::<char>::empty());
        assert(s.push(c)[0] == c);
    } else {
        assert(s.push(c).drop_first() =~= s.drop_first().push(c));
        assert(s.push(c)[0] == s[0]);
        lemma_digits_acc_push(10 * a + digit_val(s[0]), s.drop_first(), c);
    }
}

proof fn lemma_digits_acc_concat(a: int, s1: Seq<char>, s2: Seq<char>)
    ensures
        digits_acc(a, s1 + s2) == digits_acc(digits_acc(a, s1), s2),
    decreases s1.len(),
{
    if s1.len() == 0 {
        assert(s1 + s2 =~= s2);
    } else {
        assert((s1 + s2).drop_first() =~= s1.drop_first() + s2);
        lemma_digits_acc_concat(10 * a + digit_val(s1[0]), s1.drop_first(), s2);
    }
}

proof fn lemma_digits_acc_lower(a: int, s: Seq<char>)
    requires
        a >= 0,
        forall|j: int| 0 <= j < s.len() ==> digit(s[j]),
    ensures
        digits_acc(a, s) >= a,
        digits_acc(a, s) >= 0,
    decreases s.len(),
{
    if s.len() > 0 {
        lemma_digits_acc_lower(10 * a + digit_val(s[0]), s.drop_first());
    }
}

/// Minimal denominator form of the rational `n / 10^e`: trailing zeros of
/// the fraction are cancelled until the numerator ends in a nonzero digit
/// or the denominator is one.
pub open spec fn canon(n: int, e: nat) -> (int, nat)
    decreases e,
{
    if e == 0 || n % 10 != 0 {
        (n, e)
    } else {
        canon(n / 10, (e - 1) as nat)
    }
}

/// Canonicalization keeps the denoted rational: the canonical pair spells
/// the same value `n / 10^e`, with a numerator no larger than `n`.
pub proof fn lemma_canon_value(n: int, e: nat)
    requires
        n >= 0,
    ensures
        ({
            let ne = canon(n, e);
            &&& 0 <= ne.0 <= n
            &&& ne.1 <= e
            &&& ne.0 * pow10(e) == n * pow10(ne.1)
        }),
    decreases e,
{
    if e == 0 || n % 10 != 0 {
    } else {
        let ne = canon(n / 10, (e - 1) as nat);
        lemma_canon_value(n / 10, (e - 1) as nat);
        assert(pow10(e) == 10 * pow10((e - 1) as nat)) by {
            reveal_with_fuel(pow, 2);
        }
        assert(n == 10 * (n / 10));
        assert(ne.0 * pow10(e) == n * pow10(ne.1)) by (nonlinear_arith)
            requires
                ne.0 * pow10((e - 1) as nat) == (n / 10) * pow10(ne.1),
                pow10(e) == 10 * pow10((e - 1) as nat),
                n == 10 * (n / 10),
        ;
    }
}

/// The canonical pair is in minimal form: a remaining fraction digit means
/// the numerator ends in a nonzero digit, and a zero numerator carries no
/// denominator at all.
pub proof fn lemma_canon_form(n: int, e: nat)
    requires
        n >= 0,
    ensures
        ({
            let ne = canon(n, e);
            &&& (ne.1 > 0 ==> ne.0 % 10 != 0)
            &&& (ne.0 == 0 ==> ne.1 == 0)
        }),
    decreases e,
{
    if e == 0 || n % 10 != 0 {
    } else {
        lemma_canon_form(n / 10, (e - 1) as nat);
    }
}

/// The decimal value read from a sign, the digits of the numeral with the
/// decimal point dropped, and the length of its fraction part. Values whose
/// minimal numerator exceeds the mantissa range saturate to the largest
/// representable magnitude, which clamping later treats like any other
/// out-of-scale value.
pub open spec fn dec_of_digits(neg: bool, digits: Seq<char>, flen: nat) -> Dec {
    let ne = canon(digits_value(digits), flen);
    if ne.0 > u64::MAX {
        Dec { neg, mant: u64::MAX, exp: 0 }
    } else {
        Dec { neg: neg && ne.0 != 0, mant: ne.0 as u64, exp: ne.1 as u64 }
    }
}

proof fn lemma_digits_last(s: Seq<char>)
    requires
        s.len() > 0,
        forall|j: int| 0 <= j < s.len() ==> digit(s[j]),
    ensures
        digits_value(s) % 10 == digit_val(s.last()),
        digits_value(s) / 10 == digits_value(s.drop_last()),
{
    assert(s =~= s.drop_last().push(s.last()));
    lemma_digits_acc_push(0, s.drop_last(), s.last());
    lemma_digits_acc_lower(0, s.drop_last());
    vstd::arithmetic::div_mod::lemma_fundamental_div_mod_converse(
        digits_value(s),
        10,
        digits_value(s.drop_last()),
        digit_val(s.last()),
    );
}

/// Cancelling the trailing zeros of the fraction digits is exactly the
/// canonicalization of the rational they denote.
proof fn lemma_canon_trim(idigits: Seq<char>, fdigits: Seq<char>, fe: int)
    requires
        forall|j: int| 0 <= j < idigits.len() ==> digit(idigits[j]),
        forall|j: int| 0 <= j < fdigits.len() ==> digit(fdigits[j]),
        0 <= fe <= fdigits.len(),
        forall|j: int| fe <= j < fdigits.len() ==> fdigits[j] == '0',
        fe > 0 ==> fdigits[fe - 1] != '0',
    ensures
        canon(digits_value(idigits + fdigits), fdigits.len() as nat)
            == (digits_value(idigits + fdigits.take(fe)), fe as nat),
    decreases fdigits.len() - fe,
{
    let s = idigits + fdigits;
    assert(forall|j: int| 0 <= j < s.len() ==> digit(s[j]));
    if fdigits.len() == fe {
        assert(fdigits.take(fe) =~= fdigits);
        if fe > 0 {
            assert(s.last() == fdigits[fe - 1]);
            lemma_digits_last(s);
            assert(digit_val(s.last()) != 0);
        }
    } else {
        assert(s.len() > 0);
        assert(s.last() == fdigits[fdigits.len() - 1]);
        assert(s.last() == '0');
        lemma_digits_last(s);
        assert(digits_value(s) % 10 == 0);
        assert(s.drop_last() =~= idigits + fdigits.drop_last());
        lemma_canon_trim(idigits, fdigits.drop_last(), fe);
        assert(fdigits.drop_last().take(fe) =~= fdigits.take(fe));
    }
}

/// Decides whether a character is an ASCII decimal digit.
fn digit_exec(c: char) -> (r: bool)
    ensures
        r == digit(c),
{
    c >= '0' && c <= '9'
}

/// Accumulates the digits `v[0..hi]` onto `start`, reporting overflow of
/// the mantissa range instead of wrapping.
fn acc_digits(start: u64, v: &Vec<char>, hi: usize) -> (r: Option<u64>)
    requires
        hi <= v@.len(),
        forall|j: int| 0 <= j < hi ==> digit(v@[j]),
    ensures
        match r {
            Some(m) => m == digits_acc(start as int, v@.take(hi as int)),
            None => digits_acc(start as int, v@.take(hi as int)) > u64::MAX,
        },
{
    let mut m: u64 = start;
    let mut i: usize = 0;
    assert(v@.take(0) =~= Seq::<char>::empty());
    while i < hi
        invariant
            i <= hi <= v@.len(),
            forall|j: int| 0 <= j < hi ==> digit(v@[j]),
            m == digits_acc(start as int, v@.take(i as int)),
        decreases hi - i,
    {
        let c = v[i];
        let d: u64 = (c as u32 - 48) as u64;
        assert(d == digit_val(c) && d <= 9);
        let q: u64 = (u64::MAX - d) / 10;
        proof {
            vstd::arithmetic::div_mod::lemma_fundamental_div_mod((u64::MAX - d) as int, 10);
            assert(v@.take(hi as int) =~= v@.take(i as int) + v@.subrange(i as int, hi as int));
            lemma_digits_acc_concat(start as int, v@.take(i as int), v@.subrange(i as int, hi as int));
            assert(v@.subrange(i as int, hi as int).drop_first() =~= v@.subrange(
                i as int + 1,
                hi as int,
            ));
            assert(v@.take(i as int + 1) =~= v@.take(i as int).push(c));
            lemma_digits_acc_push(start as int, v@.take(i as int), c);
        }
        if m > q {
            proof {
                lemma_digits_acc_lower(
                    10 * (m as int) + d,
                    v@.subrange(i as int + 1, hi as int),
                );
            }
            return None;
        }
        m = m * 10 + d;
        i = i + 1;
    }
    assert(v@.take(hi as int) =~= v@.take(i as int));
    Some(m)
}

/// Builds the decimal value of a sign, integer digits and fraction digits,
/// cancelling trailing fraction zeros and saturating past the mantissa range.
fn dec_from_parts(neg: bool, ipart: &Vec<char>, fpart: &Vec<char>) -> (r: Dec)
    requires
        forall|j: int| 0 <= j < ipart@.len() ==> digit(ipart@[j]),
        forall|j: int| 0 <= j < fpart@.len() ==> digit(fpart@[j]),
    ensures
        r == dec_of_digits(neg, ipart@ + fpart@, fpart@.len() as nat),
{
    let mut fe: usize = fpart.len();
    while fe > 0 && fpart[fe - 1] == '0'
        invariant
            fe <= fpart@.len(),
            forall|j: int| fe <= j < fpart@.len() ==> fpart@[j] == '0',
        decreases fe,
    {
        fe = fe - 1;
    }
    proof {
        lemma_canon_trim(ipart@, fpart@, fe as int);
    }
    let whole = match acc_digits(0, ipart, ipart.len()) {
        Some(mi) => {
            proof {
                assert(ipart@.take(ipart@.len() as int) =~= ipart@);
                assert(ipart@ + fpart@.take(fe as int) =~= ipart@ + fpart@.take(fe as int));
                lemma_digits_acc_concat(0, ipart@, fpart@.take(fe as int));
                assert((fpart@.take(fe as int)).take(fe as int) =~= fpart@.take(fe as int));
            }
            acc_digits(mi, fpart, fe)
        },
        None => {
            proof {
                assert(ipart@.take(ipart@.len() as int) =~= ipart@);
                lemma_digits_acc_concat(0, ipart@, fpart@.take(fe as int));
                lemma_digits_acc_lower(0, ipart@);
                lemma_digits_acc_lower(digits_value(ipart@), fpart@.take(fe as int));
            }
            None
        },
    };
    match whole {
        Some(m) => Dec { neg: neg && m != 0, mant: m, exp: fe as u64 },
        None => Dec { neg, mant: u64::MAX, exp: 0 },
    }
}

/// The cell starts with an explicit sign.
pub open spec fn has_sign(t: Seq<char>) -> bool {
    t.len() > 0 && (t[0] == '-' || t[0] == '+')
}

/// The cell denotes a negative number.
pub open spec fn strict_neg(t: Seq<char>) -> bool {
    t.len() > 0 && t[0] == '-'
}

/// The cell text after its sign, if any.
pub open spec fn strict_body(t: Seq<char>) -> Seq<char> {
    if has_sign(t) {
        t.drop_first()
    } else {
        t
    }
}

pub open spec fn all_digits(s: Seq<char>) -> bool {
    forall|j: int| 0 <= j < s.len() ==> digit(s[j])
}

pub open spec fn has_dot(b: Seq<char>) -> bool {
    exists|k: int| 0 <= k < b.len() && b[k] == '.'
}

pub open spec fn dot_idx(b: Seq<char>) -> int {
    choose|k: int| 0 <= k < b.len() && b[k] == '.'
}

/// An unsigned decimal numeral: digits with at most one decimal point and
/// at least one digit somewhere.
pub open spec fn is_strict_body(b: Seq<char>) -> bool {
    if has_dot(b) {
        b.len() >= 2 && all_digits(b.take(dot_idx(b))) && all_digits(b.skip(dot_idx(b) + 1))
    } else {
        b.len() >= 1 && all_digits(b)
    }
}

/// The digits of the numeral with the decimal point dropped.
pub open spec fn body_digits(b: Seq<char>) -> Seq<char> {
    if has_dot(b) {
        b.take(dot_idx(b)) + b.skip(dot_idx(b) + 1)
    } else {
        b
    }
}

/// How many of the numeral's digits stand after the decimal point.
pub open spec fn body_frac_len(b: Seq<char>) -> nat {
    if has_dot(b) {
        (b.len() - dot_idx(b) - 1) as nat
    } else {
        0
    }
}

/// The whole (trimmed) cell is one decimal number.
pub open spec fn is_strict(t: Seq<char>) -> bool {
    is_strict_body(strict_body(t))
}

/// The value a strict cell denotes.
pub open spec fn strict_dec(t: Seq<char>) -> Dec {
    dec_of_digits(strict_neg(t), body_digits(strict_body(t)), body_frac_len(strict_body(t)))
}

/// Copies the characters `w[lo..hi]`.
fn copy_range(w: &Vec<char>, lo: usize, hi: usize) -> (r: Vec<char>)
    requires
        lo <= hi <= w@.len(),
    ensures
        r@ == w@.subrange(lo as int, hi as int),
{
    let mut r: Vec<char> = Vec::new();
    let mut i: usize = lo;
    while i < hi
        invariant
            lo <= i <= hi <= w@.len(),
            r@ == w@.subrange(lo as int, i as int),
        decreases hi - i,
    {
        r.push(w[i]);
        proof {
            assert(w@.subrange(lo as int, i + 1) =~= w@.subrange(lo as int, i as int).push(
                w@[i as int],
            ));
        }
        i = i + 1;
    }
    r
}

/// Parses the characters `w[lo..hi]` as one whole decimal number.
fn parse_strict_range(w: &Vec<char>, lo: usize, hi: usize) -> (r: Option<Dec>)
    requires
        lo <= hi <= w@.len(),
    ensures
        ({
            let t = w@.subrange(lo as int, hi as int);
            match r {
                Some(d) => is_strict(t) && d == strict_dec(t),
                None => !is_strict(t),
            }
        }),
{
    let ghost t = w@.subrange(lo as int, hi as int);
    if lo == hi {
        return None;
    }
    let c0 = w[lo];
    let neg = c0 == '-';
    let bodylo = if c0 == '-' || c0 == '+' {
        lo + 1
    } else {
        lo
    };
    let ghost b = w@.subrange(bodylo as int, hi as int);
    proof {
        if has_sign(t) {
            assert(t.drop_first() =~= b);
        } else {
            assert(t =~= b);
        }
        assert(strict_body(t) == b);
        assert(strict_neg(t) == neg);
    }
    let mut have_dot = false;
    let mut dotpos: usize = 0;
    let mut j = bodylo;
    while j < hi
        invariant
            bodylo <= j <= hi <= w@.len(),
            lo <= bodylo,
            b == w@.subrange(bodylo as int, hi as int),
            strict_body(w@.subrange(lo as int, hi as int)) == b,
            have_dot ==> bodylo <= dotpos < j && w@[dotpos as int] == '.',
            forall|k: int|
                bodylo <= k < j && !(have_dot && k == dotpos) ==> digit(w@[k]),
        decreases hi - j,
    {
        let c = w[j];
        if digit_exec(c) {
        } else if c == '.' && !have_dot {
            have_dot = true;
            dotpos = j;
        } else {
            proof {
                let jr = j - bodylo;
                assert(b[jr] == w@[j as int]);
                assert(!is_strict_body(b)) by {
                    if has_dot(b) {
                        let k = dot_idx(b);
                        assert(b[k] == '.');
                        if jr < k {
                            assert(b.take(k)[jr] == b[jr]);
                            assert(!digit(b[jr]));
                        } else if jr > k {
                            assert(b.skip(k + 1)[jr - k - 1] == b[jr]);
                            assert(!digit(b[jr]));
                        } else {
                            // the scanned character is a second dot; the
                            // first sits inside the integer digit part
                            let dr = dotpos - bodylo;
                            assert(b[dr] == '.');
                            assert(dr < jr);
                            assert(b.take(k)[dr] == b[dr]);
                            assert(!digit(b[dr]));
                        }
                    } else {
                        assert(!digit(b[jr]));
                    }
                }
            }
            return None;
        }
        j = j + 1;
    }
    if bodylo == hi {
        // empty body: a bare sign is not a number
        assert(b.len() == 0);
        return None;
    }
    if have_dot && hi - bodylo == 1 {
        // the body is a lone dot
        proof {
            assert(b[0] == '.');
            assert(has_dot(b));
        }
        return None;
    }
    proof {
        if have_dot {
            let dr = dotpos - bodylo;
            assert(b[dr] == '.');
            assert(has_dot(b));
            let k = dot_idx(b);
            assert(b[k] == '.');
            if k != dr {
                assert(digit(b[k]));
                assert(false);
            }
            assert(forall|m: int| 0 <= m < k ==> #[trigger] b.take(k)[m] == b[m]);
            assert(forall|m: int|
                0 <= m < b.len() - k - 1 ==> #[trigger] b.skip(k + 1)[m] == b[m + k + 1]);
            assert(all_digits(b.take(k)));
            assert(all_digits(b.skip(k + 1)));
            assert(is_strict_body(b));
        } else {
            assert(forall|k: int| 0 <= k < b.len() ==> digit(b[k]));
            assert(!has_dot(b)) by {
                if has_dot(b) {
                    let k = dot_idx(b);
                    assert(digit(b[k]));
                }
            }
            assert(is_strict_body(b));
        }
    }
    let dend = if have_dot {
        dotpos
    } else {
        hi
    };
    let ipart = copy_range(w, bodylo, dend);
    let fpart = if have_dot {
        copy_range(w, dotpos + 1, hi)
    } else {
        Vec::new()
    };
    proof {
        if have_dot {
            let k = dot_idx(b);
            assert(b.take(k) =~= w@.subrange(bodylo as int, dotpos as int));
            assert(b.skip(k + 1) =~= w@.subrange(dotpos + 1, hi as int));
            assert(body_digits(b) == ipart@ + fpart@);
            assert(body_frac_len(b) == fpart@.len());
        } else {
            assert(fpart@ =~= Seq::<char>::empty());
            assert(b =~= ipart@ + fpart@);
            assert(body_digits(b) == b);
        }
    }
    let d = dec_from_parts(neg, &ipart, &fpart);
    Some(d)
}

/// The length of the run of digits starting at `i`.
pub open spec fn digit_run(s: Seq<char>, i: int) -> nat
    decreases s.len() - i,
{
    if 0 <= i < s.len() && digit(s[i]) {
        (1 + digit_run(s, i + 1)) as nat
    } else {
        0
    }
}

pub proof fn lemma_digit_run(s: Seq<char>, i: int)
    requires
        0 <= i <= s.len(),
    ensures
        i + digit_run(s, i) <= s.len(),
        forall|k: int| i <= k < i + digit_run(s, i) ==> digit(s[k]),
        i + digit_run(s, i) < s.len() ==> !digit(s[i + digit_run(s, i)]),
    decreases s.len() - i,
{
    if i < s.len() && digit(s[i]) {
        lemma_digit_run(s, i + 1);
    }
}

/// The length the embedded-number shape matches at body position `j`: a
/// greedy digit run, optionally extended over a decimal point and a stray
/// comma when a further digit group follows. Zero means no match.
pub open spec fn body_match_len(s: Seq<char>, j: int) -> nat {
    let a = digit_run(s, j);
    let p = j + a;
    if p + 2 < s.len() && s[p] == '.' && s[p + 1] == ',' && digit(s[p + 2]) {
        (a + 2 + digit_run(s, p + 2)) as nat
    } else if p + 1 < s.len() && s[p] == '.' && digit(s[p + 1]) {
        (a + 1 + digit_run(s, p + 1)) as nat
    } else if p + 1 < s.len() && s[p] == ',' && digit(s[p + 1]) {
        (a + 1 + digit_run(s, p + 1)) as nat
    } else {
        a
    }
}

/// The length the embedded-number shape matches at position `i`, counting
/// a leading minus sign only when digits follow it.
pub open spec fn match_len(s: Seq<char>, i: int) -> nat {
    if 0 <= i < s.len() && s[i] == '-' {
        if body_match_len(s, i + 1) > 0 {
            (1 + body_match_len(s, i + 1)) as nat
        } else {
            0
        }
    } else {
        body_match_len(s, i)
    }
}

/// The first position at or after `i` where the shape matches; the length
/// of the text when it matches nowhere.
pub open spec fn first_match_from(s: Seq<char>, i: int) -> int
    decreases s.len() - i,
{
    if i >= s.len() {
        s.len() as int
    } else if match_len(s, i) > 0 {
        i
    } else {
        first_match_from(s, i + 1)
    }
}

/// The leftmost position where the embedded-number shape matches.
pub open spec fn first_match_start(s: Seq<char>) -> int {
    first_match_from(s, 0)
}

/// Some substring of the cell matches the embedded-number shape.
pub open spec fn has_embedded(s: Seq<char>) -> bool {
    first_match_start(s) < s.len()
}

/// The digits (decimal point and comma dropped) and the fraction length of
/// the match whose body starts at `j`.
pub open spec fn emb_parts(s: Seq<char>, j: int) -> (Seq<char>, nat) {
    let a = digit_run(s, j);
    let p = j + a;
    if p + 2 < s.len() && s[p] == '.' && s[p + 1] == ',' && digit(s[p + 2]) {
        (s.subrange(j, p) + s.subrange(p + 2, p + 2 + digit_run(s, p + 2)), digit_run(s, p + 2))
    } else if p + 1 < s.len() && s[p] == '.' && digit(s[p + 1]) {
        (s.subrange(j, p) + s.subrange(p + 1, p + 1 + digit_run(s, p + 1)), digit_run(s, p + 1))
    } else if p + 1 < s.len() && s[p] == ',' && digit(s[p + 1]) {
        (s.subrange(j, p) + s.subrange(p + 1, p + 1 + digit_run(s, p + 1)), 0)
    } else {
        (s.subrange(j, p), 0)
    }
}

/// The value recovered from the embedded match starting at `i`.
pub open spec fn embedded_dec(s: Seq<char>, i: int) -> Dec {
    let j = if s[i] == '-' {
        i + 1
    } else {
        i
    };
    let parts = emb_parts(s, j);
    dec_of_digits(s[i] == '-', parts.0, parts.1)
}

/// Counts the digits from `w[i]` on.
fn digit_run_exec(w: &Vec<char>, i: usize) -> (r: usize)
    requires
        i <= w@.len(),
    ensures
        r == digit_run(w@, i as int),
        i + r <= w@.len(),
    decreases w@.len() - i,
{
    if i < w.len() && digit_exec(w[i]) {
        let r = digit_run_exec(w, i + 1);
        1 + r
    } else {
        0
    }
}

/// Measures the embedded-number shape at body position `j`.
fn body_match_len_exec(w: &Vec<char>, j: usize) -> (r: usize)
    requires
        j <= w@.len(),
    ensures
        r == body_match_len(w@, j as int),
        j + r <= w@.len(),
{
    let n = w.len();
    let a = digit_run_exec(w, j);
    let p = j + a;
    if n - p > 2 && w[p] == '.' && w[p + 1] == ',' && digit_exec(w[p + 2]) {
        let r2 = digit_run_exec(w, p + 2);
        a + 2 + r2
    } else if n - p > 1 && w[p] == '.' && digit_exec(w[p + 1]) {
        let r2 = digit_run_exec(w, p + 1);
        a + 1 + r2
    } else if n - p > 1 && w[p] == ',' && digit_exec(w[p + 1]) {
        let r2 = digit_run_exec(w, p + 1);
        a + 1 + r2
    } else {
        a
    }
}

/// Measures the embedded-number shape at position `i`.
fn match_len_exec(w: &Vec<char>, i: usize) -> (r: usize)
    requires
        i < w@.len(),
    ensures
        r == match_len(w@, i as int),
{
    let n = w.len();
    if w[i] == '-' {
        let b = body_match_len_exec(w, i + 1);
        if b > 0 {
            1 + b
        } else {
            0
        }
    } else {
        body_match_len_exec(w, i)
    }
}

/// Finds the leftmost position where the embedded-number shape matches;
/// returns the length of the text when it matches nowhere.
fn find_first_match(w: &Vec<char>) -> (r: usize)
    ensures
        r == first_match_start(w@),
{
    let mut i: usize = 0;
    while i < w.len()
        invariant
            i <= w@.len(),
            first_match_start(w@) == first_match_from(w@, i as int),
        decreases w@.len() - i,
    {
        let m = match_len_exec(w, i);
        if m > 0 {
            return i;
        }
        i = i + 1;
    }
    i
}

/// Reads the value of the embedded match starting at `st`.
fn parse_embedded_at(w: &Vec<char>, st: usize) -> (r: Dec)
    requires
        st < w@.len(),
        match_len(w@, st as int) > 0,
    ensures
        r == embedded_dec(w@, st as int),
{
    let n = w.len();
    let neg = w[st] == '-';
    let j = if neg {
        st + 1
    } else {
        st
    };
    let a = digit_run_exec(w, j);
    let p = j + a;
    proof {
        lemma_digit_run(w@, j as int);
    }
    let ipart_first = copy_range(w, j, p);
    if n - p > 2 && w[p] == '.' && w[p + 1] == ',' && digit_exec(w[p + 2]) {
        let r2 = digit_run_exec(w, p + 2);
        proof {
            lemma_digit_run(w@, p + 2);
        }
        let fpart = copy_range(w, p + 2, p + 2 + r2);
        dec_from_parts(neg, &ipart_first, &fpart)
    } else if n - p > 1 && w[p] == '.' && digit_exec(w[p + 1]) {
        let r2 = digit_run_exec(w, p + 1);
        proof {
            lemma_digit_run(w@, p + 1);
        }
        let fpart = copy_range(w, p + 1, p + 1 + r2);
        dec_from_parts(neg, &ipart_first, &fpart)
    } else if n - p > 1 && w[p] == ',' && digit_exec(w[p + 1]) {
        let r2 = digit_run_exec(w, p + 1);
        proof {
            lemma_digit_run(w@, p + 1);
        }
        let mut ipart = ipart_first;
        let mut second = copy_range(w, p + 1, p + 1 + r2);
        ipart.append(&mut second);
        let fpart: Vec<char> = Vec::new();
        proof {
            assert(fpart@ =~= Seq::<char>::empty());
            assert(ipart@ + fpart@ =~= ipart@);
        }
        dec_from_parts(neg, &ipart, &fpart)
    } else {
        let fpart: Vec<char> = Vec::new();
        proof {
            assert(fpart@ =~= Seq::<char>::empty());
            assert(ipart_first@ + fpart@ =~= ipart_first@);
        }
        dec_from_parts(neg, &ipart_first, &fpart)
    }
}

/// Law: short of mantissa saturation, the built decimal denotes exactly
/// the rational the digits spell, numerator over `10^flen`: the parser
/// neither rounds nor alters a representable value.
pub proof fn lemma_dec_of_digits_exact(neg: bool, digits: Seq<char>, flen: nat)
    requires
        all_digits(digits),
        flen <= u64::MAX,
        canon(digits_value(digits), flen).0 <= u64::MAX,
    ensures
        ({
            let d = dec_of_digits(neg, digits, flen);
            let signed = if neg {
                -digits_value(digits)
            } else {
                digits_value(digits)
            };
            d.num() * pow10(flen) == signed * pow10(d.exp as nat)
        }),
{
    lemma_digits_acc_lower(0, digits);
    let dv = digits_value(digits);
    let ne = canon(dv, flen);
    lemma_canon_value(dv, flen);
    let d = dec_of_digits(neg, digits, flen);
    assert(d.mant == ne.0 && d.exp == ne.1);
    if neg && ne.0 != 0 {
        assert((-ne.0) * pow10(flen) == (-dv) * pow10(ne.1)) by (nonlinear_arith)
            requires
                ne.0 * pow10(flen) == dv * pow10(ne.1),
        ;
    } else if neg {
        lemma_pow10_pos(ne.1);
        assert(dv == 0) by (nonlinear_arith)
            requires
                0 * pow10(flen) == dv * pow10(ne.1),
                pow10(ne.1) >= 1,
                dv >= 0,
        ;
    }
}

/// Law: every parsed decimal is canonical, so with `lemma_canon_unique`
/// equal parsed values are structurally equal.
pub proof fn lemma_dec_of_digits_canon(neg: bool, digits: Seq<char>, flen: nat)
    requires
        all_digits(digits),
        flen <= u64::MAX,
    ensures
        dec_of_digits(neg, digits, flen).is_canon(),
{
    lemma_digits_acc_lower(0, digits);
    lemma_canon_value(digits_value(digits), flen);
    lemma_canon_form(digits_value(digits), flen);
}

proof fn lemma_first_match_found(s: Seq<char>, i: int)
    requires
        0 <= i <= s.len(),
    ensures
        i <= first_match_from(s, i) <= s.len(),
        first_match_from(s, i) < s.len() ==> match_len(s, first_match_from(s, i)) > 0,
        forall|j: int| i <= j < first_match_from(s, i) ==> match_len(s, j) == 0,
    decreases s.len() - i,
{
    if i < s.len() && match_len(s, i) == 0 {
        lemma_first_match_found(s, i + 1);
    }
}

/// Collects the characters of a cell.
fn chars_of(s: &str) -> (v: Vec<char>)
    ensures
        v@ == s@,
{
    let n = s.unicode_len();
    let mut v: Vec<char> = Vec::new();
    let mut i: usize = 0;
    while i < n
        invariant
            i <= n == s@.len(),
            v@ == s@.take(i as int),
        decreases n - i,
    {
        let c = s.get_char(i);
        v.push(c);
        proof {
            assert(s@.take(i + 1) =~= s@.take(i as int).push(s@[i as int]));
        }
        i = i + 1;
    }
    assert(s@.take(n as int) =~= s@);
    v
}

/// Decides whether a character is trimmed whitespace.
fn white_exec(c: char) -> (r: bool)
    ensures
        r == white(c),
{
    c == ' ' || c == '\t' || c == '\n' || c == '\r'
}

/// Finds the bounds of the cell with surrounding whitespace trimmed.
fn trim_bounds(w: &Vec<char>) -> (r: (usize, usize))
    ensures
        r.0 <= r.1 <= w@.len(),
        trim_spec(w@) == w@.subrange(r.0 as int, r.1 as int),
{
    let n = w.len();
    let mut lo: usize = 0;
    while lo < n && white_exec(w[lo])
        invariant
            lo <= n == w@.len(),
            forall|j: int| 0 <= j < lo ==> white(w@[j]),
        decreases n - lo,
    {
        lo = lo + 1;
    }
    let mut hi: usize = n;
    while hi > lo && white_exec(w[hi - 1])
        invariant
            lo <= hi <= n == w@.len(),
            forall|j: int| 0 <= j < lo ==> white(w@[j]),
            forall|j: int| hi <= j < n ==> white(w@[j]),
        decreases hi,
    {
        hi = hi - 1;
    }
    proof {
        lemma_trim_front_skip(w@, lo as int);
        let f = w@.skip(lo as int);
        if hi == lo {
            // everything after the leading whitespace is whitespace too
            assert(forall|j: int| 0 <= j < f.len() ==> white(f[j]));
            lemma_trim_back_take(f, 0);
        } else {
            assert(f[hi - lo - 1] == w@[hi - 1]);
            assert(forall|j: int| hi - lo <= j < f.len() ==> white(f[j]));
            lemma_trim_back_take(f, hi - lo);
        }
        assert(f.take(hi - lo) =~= w@.subrange(lo as int, hi as int));
    }
    (lo, hi)
}

/// The text contains the word "fresh" in any capitalization, starting at
/// position `i`.
pub open spec fn fresh_at(s: Seq<char>, i: int) -> bool {
    &&& 0 <= i
    &&& i + 5 <= s.len()
    &&& (s[i] == 'f' || s[i] == 'F')
    &&& (s[i + 1] == 'r' || s[i + 1] == 'R')
    &&& (s[i + 2] == 'e' || s[i + 2] == 'E')
    &&& (s[i + 3] == 's' || s[i + 3] == 'S')
    &&& (s[i + 4] == 'h' || s[i + 4] == 'H')
}

/// The text contains the word "fresh", disregarding letter case.
pub open spec fn contains_fresh(s: Seq<char>) -> bool {
    exists|i: int| fresh_at(s, i)
}

/// Searches the cell for the word "fresh" in any capitalization.
pub fn mentions_fresh(s: &str) -> (r: bool)
    ensures
        r == contains_fresh(s@),
{
    let w = chars_of(s);
    let n = w.len();
    if n < 5 {
        return false;
    }
    let mut i: usize = 0;
    while i <= n - 5
        invariant
            5 <= n == w@.len() == s@.len(),
            w@ == s@,
            i <= n - 4,
            forall|j: int| 0 <= j < i ==> !fresh_at(s@, j),
        decreases n - i,
    {
        let f0 = w[i];
        let f1 = w[i + 1];
        let f2 = w[i + 2];
        let f3 = w[i + 3];
        let f4 = w[i + 4];
        if (f0 == 'f' || f0 == 'F') && (f1 == 'r' || f1 == 'R') && (f2 == 'e' || f2 == 'E') && (f3
            == 's' || f3 == 'S') && (f4 == 'h' || f4 == 'H') {
            assert(fresh_at(s@, i as int));
            return true;
        }
        i = i + 1;
    }
    proof {
        assert forall|j: int| !fresh_at(s@, j) by {
            if 0 <= j && j + 5 <= s@.len() {
                assert(j < i);
            }
        }
    }
    false
}

/// What the tolerant parser made of one cell: a clean number, a number
/// recovered from inside the text together with the original text as a
/// provenance note, or no number at all with the same note.
pub enum ScaleOutcome {
    Clean(Dec),
    Recovered(Dec, String),
    Missing(String),
}

/// What `best_effort_parse_value` returns on the cell text `s`.
pub open spec fn scale_outcome_matches(r: ScaleOutcome, s: Seq<char>) -> bool {
    match r {
        ScaleOutcome::Clean(d) => is_strict(trim_spec(s)) && d == strict_dec(trim_spec(s)),
        ScaleOutcome::Recovered(d, note) => {
            &&& !is_strict(trim_spec(s))
            &&& has_embedded(s)
            &&& d == embedded_dec(s, first_match_start(s))
            &&& note@ == s
        },
        ScaleOutcome::Missing(note) => {
            &&& !is_strict(trim_spec(s))
            &&& !has_embedded(s)
            &&& note@ == s
        },
    }
}

/// Law: every value the parser returns is canonical, so by
/// `lemma_canon_unique` equal parsed ratings are structurally equal.
pub proof fn lemma_outcome_canon(r: ScaleOutcome, s: Seq<char>)
    requires
        scale_outcome_matches(r, s),
        s.len() <= u64::MAX,
    ensures
        ({
            match r {
                ScaleOutcome::Clean(d) => d.is_canon(),
                ScaleOutcome::Recovered(d, _) => d.is_canon(),
                ScaleOutcome::Missing(_) => true,
            }
        }),
{
    match r {
        ScaleOutcome::Clean(_) => {
            let t = trim_spec(s);
            let b = strict_body(t);
            lemma_trim_len(s);
            assert(all_digits(body_digits(b))) by {
                if has_dot(b) {
                    let k = dot_idx(b);
                    assert(forall|j: int|
                        0 <= j < k ==> #[trigger] body_digits(b)[j] == b.take(k)[j]);
                    assert(forall|j: int|
                        k <= j < body_digits(b).len() ==> #[trigger] body_digits(b)[j]
                            == b.skip(k + 1)[j - k]);
                }
            }
            lemma_dec_of_digits_canon(strict_neg(t), body_digits(b), body_frac_len(b));
        },
        ScaleOutcome::Recovered(_, _) => {
            let i = first_match_start(s);
            lemma_first_match_found(s, 0);
            let j = if s[i] == '-' {
                i + 1
            } else {
                i
            };
            let parts = emb_parts(s, j);
            lemma_emb_parts_digits(s, j);
            lemma_dec_of_digits_canon(s[i] == '-', parts.0, parts.1);
        },
        ScaleOutcome::Missing(_) => {},
    }
}

proof fn lemma_trim_len(s: Seq<char>)
    ensures
        trim_spec(s).len() <= s.len(),
{
    lemma_trim_front_len(s);
    lemma_trim_back_len(trim_front(s));
}

proof fn lemma_trim_front_len(s: Seq<char>)
    ensures
        trim_front(s).len() <= s.len(),
    decreases s.len(),
{
    if s.len() > 0 && white(s[0]) {
        lemma_trim_front_len(s.drop_first());
    }
}

proof fn lemma_trim_back_len(s: Seq<char>)
    ensures
        trim_back(s).len() <= s.len(),
    decreases s.len(),
{
    if s.len() > 0 && white(s.last()) {
        lemma_trim_back_len(s.drop_last());
    }
}

/// The pieces of an embedded match are digits, and its fraction is no
/// longer than the text.
proof fn lemma_emb_parts_digits(s: Seq<char>, j: int)
    requires
        0 <= j <= s.len(),
    ensures
        all_digits(emb_parts(s, j).0),
        emb_parts(s, j).1 <= s.len(),
{
    let a = digit_run(s, j);
    let p = j + a;
    lemma_digit_run(s, j);
    if p + 2 < s.len() && s[p] == '.' && s[p + 1] == ',' && digit(s[p + 2]) {
        lemma_digit_run(s, p + 2);
    } else if p + 1 < s.len() && s[p] == '.' && digit(s[p + 1]) {
        lemma_digit_run(s, p + 1);
    } else if p + 1 < s.len() && s[p] == ',' && digit(s[p + 1]) {
        lemma_digit_run(s, p + 1);
    }
}

/// Parses one free-text cell: first the whole trimmed text as a decimal
/// number, then the first embedded number anywhere in the text, keeping the
/// original text as a note; a cell with no number keeps only the note.
/// Parsing never fails: a missing number is an outcome, not a fault.
pub fn best_effort_parse_value(s: &str) -> (r: ScaleOutcome)
    ensures
        scale_outcome_matches(r, s@),
{
    let w = chars_of(s);
    let bounds = trim_bounds(&w);
    match parse_strict_range(&w, bounds.0, bounds.1) {
        Some(d) => ScaleOutcome::Clean(d),
        None => {
            let st = find_first_match(&w);
            proof {
                lemma_first_match_found(w@, 0);
            }
            if st < w.len() {
                let d = parse_embedded_at(&w, st);
                ScaleOutcome::Recovered(d, s.to_owned())
            } else {
                ScaleOutcome::Missing(s.to_owned())
            }
        },
    }
}

} // verus!
