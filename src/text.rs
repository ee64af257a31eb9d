use vstd::arithmetic::div_mod::{
    lemma_div_denominator, lemma_fundamental_div_mod_converse, lemma_mod_breakdown,
};
use vstd::slice::slice_subrange;
use vstd::prelude::*;
use vstd::string::{StringExecFns, StringSliceAdditionalSpecFns};

use crate::sec::Sec;

verus! {

/// Why a text is not a duration.
#[derive(Debug, Clone, Copy, PartialEq, Eq, Structural)]
pub enum ParseError {
    /// The text is empty.
    Empty,
    /// The text is not a decimal number: an optional sign, digits with at
    /// least one digit and at most one decimal point, then optionally `e` or
    /// `E`, an optional sign and digits.
    InvalidDigit,
    /// The number lies beyond the range of [Sec].
    Overflow,
    /// The text names an infinity or a NaN, which no duration is.
    NotFinite,
}

pub open spec fn is_digit(b: u8) -> bool {
    48 <= b <= 57
}

pub open spec fn all_digits(s: Seq<u8>, lo: int, hi: int) -> bool {
    forall|j: int| lo <= j < hi ==> is_digit(#[trigger] s[j])
}

/// The number that the decimal digits `s[lo..hi]` write.
pub open spec fn digits_value(s: Seq<u8>, lo: int, hi: int) -> int
    decreases hi - lo,
{
    if hi <= lo {
        0
    } else {
        10 * digits_value(s, lo, hi - 1) + (s[hi - 1] - 48)
    }
}

pub open spec fn pow10(n: nat) -> int
    decreases n,
{
    if n == 0 { 1 } else { 10 * pow10((n - 1) as nat) }
}

/// Length of the sign that starts `s`, if any.
pub open spec fn sign_len(s: Seq<u8>) -> int {
    if s.len() > 0 && (s[0] == 45 || s[0] == 43) { 1 } else { 0 }
}

/// Position of the first decimal point in `s` from `k` on; the length of `s`
/// when there is none.
pub open spec fn first_dot(s: Seq<u8>, k: int) -> int
    decreases s.len() - k,
{
    if k >= s.len() {
        s.len() as int
    } else if s[k] == 46 {
        k
    } else {
        first_dot(s, k + 1)
    }
}

/// Whether `b` marks an exponent.
pub open spec fn is_exp_mark(b: u8) -> bool {
    b == 101 || b == 69
}

/// Position of the first exponent mark in `s` from `k` on; the length of `s`
/// when there is none.
pub open spec fn exp_pos(s: Seq<u8>, k: int) -> int
    decreases s.len() - k,
{
    if k >= s.len() {
        s.len() as int
    } else if is_exp_mark(s[k]) {
        k
    } else {
        exp_pos(s, k + 1)
    }
}

/// `b` in lower case, for an ASCII letter.
pub open spec fn lower(b: u8) -> u8 {
    if 65 <= b <= 90 { (b + 32) as u8 } else { b }
}

/// Whether `s` from `k` on spells `w`, in either case.
pub open spec fn spells(s: Seq<u8>, k: int, w: Seq<u8>) -> bool {
    &&& s.len() - k == w.len()
    &&& forall|j: int| 0 <= j < w.len() ==> lower(#[trigger] s[k + j]) == w[j]
}

/// Whether `s` names an infinity or a NaN: `inf`, `infinity` or `nan` in
/// either case, after an optional sign.
pub open spec fn non_finite(s: Seq<u8>) -> bool {
    let k = sign_len(s);
    spells(s, k, seq![105u8, 110u8, 102u8])
        || spells(s, k, seq![105u8, 110u8, 102u8, 105u8, 110u8, 105u8, 116u8, 121u8])
        || spells(s, k, seq![110u8, 97u8, 110u8])
}

/// The part of `s` before its exponent.
pub open spec fn mantissa(s: Seq<u8>) -> Seq<u8> {
    s.subrange(0, exp_pos(s, sign_len(s)))
}

/// The digits of the mantissa, the decimal point left out.
pub open spec fn significand(s: Seq<u8>) -> Seq<u8> {
    let m = mantissa(s);
    let k = sign_len(s);
    let d = first_dot(m, k);
    if d < m.len() {
        m.subrange(k, d) + m.subrange(d + 1, m.len() as int)
    } else {
        m.subrange(k, m.len() as int)
    }
}

/// How many digits of the mantissa follow the decimal point.
pub open spec fn frac_len(s: Seq<u8>) -> int {
    let m = mantissa(s);
    let d = first_dot(m, sign_len(s));
    if d < m.len() { m.len() - d - 1 } else { 0 }
}

/// Length of the sign of the exponent, if any.
pub open spec fn exp_sign_len(s: Seq<u8>) -> int {
    let x = exp_pos(s, sign_len(s));
    if x + 1 < s.len() && (s[x + 1] == 45 || s[x + 1] == 43) { 1 } else { 0 }
}

/// The power of ten that the exponent writes; zero without one.
pub open spec fn exponent(s: Seq<u8>) -> int {
    let x = exp_pos(s, sign_len(s));
    if x >= s.len() {
        0
    } else {
        let v = digits_value(s, x + 1 + exp_sign_len(s), s.len() as int);
        if exp_sign_len(s) == 1 && s[x + 1] == 45 { -v } else { v }
    }
}

pub open spec fn well_formed_text(s: Seq<u8>) -> bool {
    let m = mantissa(s);
    let k = sign_len(s);
    let d = first_dot(m, k);
    let x = m.len() as int;
    &&& all_digits(m, k, d)
    &&& all_digits(m, d + 1, x)
    &&& significand(s).len() >= 1
    &&& (x < s.len() ==> x + 1 + exp_sign_len(s) < s.len() && all_digits(
        s,
        x + 1 + exp_sign_len(s),
        s.len() as int,
    ))
}

/// Where the nanoseconds stand among the digits of the significand: the
/// power of ten by which it is scaled.
pub open spec fn shift(s: Seq<u8>) -> int {
    9 + exponent(s) - frac_len(s)
}

/// Magnitude of the number that `s` writes, in whole nanoseconds: what lies
/// below a nanosecond is dropped.
pub open spec fn magnitude(s: Seq<u8>) -> int {
    let g = significand(s);
    let v = digits_value(g, 0, g.len() as int);
    let p = shift(s);
    if p >= 0 { v * pow10(p as nat) } else { v / pow10((-p) as nat) }
}

/// What parsing `s` gives: a number of seconds written in decimal, with an
/// optional sign, decimal point and exponent.
pub open spec fn parsed(s: Seq<u8>) -> Result<int, ParseError> {
    if s.len() == 0 {
        Err(ParseError::Empty)
    } else if non_finite(s) {
        Err(ParseError::NotFinite)
    } else if !well_formed_text(s) {
        Err(ParseError::InvalidDigit)
    } else {
        let v = if s[0] == 45 { -magnitude(s) } else { magnitude(s) };
        if i64::MIN <= v <= i64::MAX { Ok(v) } else { Err(ParseError::Overflow) }
    }
}

proof fn lemma_first_dot(s: Seq<u8>, k: int, i: int)
    requires
        0 <= k <= i <= s.len(),
        forall|j: int| k <= j < i ==> s[j] != 46,
    ensures
        first_dot(s, k) == first_dot(s, i),
    decreases i - k,
{
    if k < i {
        lemma_first_dot(s, k + 1, i);
    }
}

proof fn lemma_first_dot_after(s: Seq<u8>, m: int)
    requires
        0 <= m <= s.len(),
    ensures
        m <= first_dot(s, m) <= s.len(),
        first_dot(s, m) < s.len() ==> s[first_dot(s, m)] == 46,
    decreases s.len() - m,
{
    if m < s.len() && s[m] != 46 {
        lemma_first_dot_after(s, m + 1);
    }
}

proof fn lemma_digits_bound(s: Seq<u8>, lo: int, hi: int)
    requires
        lo <= hi,
        all_digits(s, lo, hi),
    ensures
        digits_value(s, lo, hi) < pow10((hi - lo) as nat),
    decreases hi - lo,
{
    if hi > lo {
        lemma_digits_bound(s, lo, hi - 1);
    }
}

proof fn lemma_digits_nonneg(s: Seq<u8>, lo: int, hi: int)
    requires
        all_digits(s, lo, hi),
    ensures
        digits_value(s, lo, hi) >= 0,
    decreases hi - lo,
{
    if hi > lo {
        lemma_digits_nonneg(s, lo, hi - 1);
    }
}

/// Checks the digits from `k` up to the first decimal point, and returns
/// where they end.
fn scan_whole(s: &[u8], k: usize) -> (r: Option<usize>)
    requires
        k == sign_len(s@),
    ensures
        match r {
            Some(dot) => dot == first_dot(s@, k as int) && all_digits(s@, k as int, dot as int),
            None => !all_digits(s@, k as int, first_dot(s@, k as int)),
        },
{
    let len = s.len();
    let ghost t = s@;
    let mut i: usize = k;
    while i < len && s[i] != 46
        invariant
            t == s@,
            k == sign_len(t),
            len == t.len(),
            k <= i <= len,
            forall|j: int| k <= j < i ==> t[j] != 46,
            all_digits(t, k as int, i as int),
        decreases len - i,
    {
        if s[i] < 48 || s[i] > 57 {
            proof {
                lemma_first_dot(t, k as int, i as int);
                lemma_first_dot_after(t, i as int + 1);
                assert(!all_digits(t, k as int, first_dot(t, k as int)));
            }
            return None;
        }
        i = i + 1;
    }
    proof {
        lemma_first_dot(t, k as int, i as int);
        lemma_first_dot_after(t, i as int);
    }
    Some(i)
}

/// Checks that all that follows the decimal point at `dot` is digits.
fn scan_frac(s: &[u8], dot: usize) -> (r: bool)
    requires
        dot < s@.len(),
    ensures
        r == all_digits(s@, dot + 1, s@.len() as int),
{
    let len = s.len();
    let mut i: usize = dot + 1;
    while i < len
        invariant
            len == s@.len(),
            dot + 1 <= i <= len,
            all_digits(s@, dot + 1, i as int),
        decreases len - i,
    {
        if s[i] < 48 || s[i] > 57 {
            return false;
        }
        i = i + 1;
    }
    true
}

/// Beyond this many nanoseconds no duration fits; counting stops there.
const NANO_CAP: u128 = 10_000_000_000_000_000_000;

/// Beyond this power of ten no exponent changes whether a number fits.
const EXP_CAP: u128 = 1_180_591_620_717_411_303_424;

proof fn lemma_exp_pos(s: Seq<u8>, k: int, i: int)
    requires
        0 <= k <= i <= s.len(),
        forall|j: int| k <= j < i ==> !is_exp_mark(s[j]),
    ensures
        exp_pos(s, k) == exp_pos(s, i),
    decreases i - k,
{
    if k < i {
        lemma_exp_pos(s, k + 1, i);
    }
}

proof fn lemma_pow10_monotonic(a: nat, b: nat)
    requires
        a <= b,
    ensures
        pow10(a) <= pow10(b),
    decreases b,
{
    lemma_pow10_positive(b);
    if a < b {
        lemma_pow10_monotonic(a, (b - 1) as nat);
    }
}

/// Dropping the last `q` digits is dividing by ten to the `q`.
proof fn lemma_prefix_div(g: Seq<u8>, n: int, q: nat)
    requires
        0 <= q <= n,
        all_digits(g, 0, n),
    ensures
        digits_value(g, 0, n) / pow10(q) == digits_value(g, 0, n - q),
    decreases q,
{
    if q > 0 {
        let q1 = (q - 1) as nat;
        lemma_digits_nonneg(g, 0, n);
        lemma_digits_nonneg(g, 0, n - 1);
        lemma_fundamental_div_mod_converse(digits_value(g, 0, n), 10, digits_value(g, 0, n - 1), g[n - 1] - 48);
        lemma_prefix_div(g, n - 1, q1);
        lemma_pow10_positive(q1);
        lemma_div_denominator(digits_value(g, 0, n), 10, pow10(q1));
    }
}

fn lower_byte(b: u8) -> (r: u8)
    ensures
        r == lower(b),
{
    if 65 <= b && b <= 90 { b + 32 } else { b }
}

/// Whether `s` from `k` on spells `w`, in either case.
fn spells_word(s: &[u8], k: usize, w: &Vec<u8>) -> (r: bool)
    requires
        k <= s@.len(),
    ensures
        r == spells(s@, k as int, w@),
{
    if s.len() - k != w.len() {
        return false;
    }
    let mut i: usize = k;
    while i < s.len()
        invariant
            k <= i <= s@.len(),
            s@.len() - k == w@.len(),
            forall|j: int| 0 <= j < i - k ==> lower(#[trigger] s@[k + j]) == w@[j],
        decreases s@.len() - i,
    {
        if lower_byte(s[i]) != w[i - k] {
            assert(lower(s@[k + (i - k)]) != w@[i - k]);
            return false;
        }
        i = i + 1;
    }
    true
}

fn names_non_finite(s: &[u8], k: usize) -> (r: bool)
    requires
        k == sign_len(s@),
    ensures
        r == non_finite(s@),
{
    let inf = vec![105u8, 110u8, 102u8];
    let infinity = vec![105u8, 110u8, 102u8, 105u8, 110u8, 105u8, 116u8, 121u8];
    let nan = vec![110u8, 97u8, 110u8];
    proof {
        assert(inf@ =~= seq![105u8, 110u8, 102u8]);
        assert(infinity@ =~= seq![105u8, 110u8, 102u8, 105u8, 110u8, 105u8, 116u8, 121u8]);
        assert(nan@ =~= seq![110u8, 97u8, 110u8]);
    }
    spells_word(s, k, &inf) || spells_word(s, k, &infinity) || spells_word(s, k, &nan)
}

/// Finds the exponent mark, if any, from `k` on.
fn find_exp(s: &[u8], k: usize) -> (x: usize)
    requires
        k <= s@.len(),
    ensures
        x == exp_pos(s@, k as int),
        k <= x <= s@.len(),
        x < s@.len() ==> is_exp_mark(s@[x as int]),
{
    let mut i: usize = k;
    while i < s.len() && s[i] != 101 && s[i] != 69
        invariant
            k <= i <= s@.len(),
            forall|j: int| k <= j < i ==> !is_exp_mark(s@[j]),
        decreases s@.len() - i,
    {
        i = i + 1;
    }
    proof {
        lemma_exp_pos(s@, k as int, i as int);
    }
    i
}

/// Reads the exponent after the mark at `x`, its size held at [EXP_CAP].
fn scan_exp(s: &[u8], x: usize) -> (r: Option<i128>)
    requires
        x < s@.len(),
        x == exp_pos(s@, sign_len(s@)),
    ensures
        match r {
            Some(e) => {
                &&& x + 1 + exp_sign_len(s@) < s@.len()
                &&& all_digits(s@, x + 1 + exp_sign_len(s@), s@.len() as int)
                &&& e == if exponent(s@) >= EXP_CAP {
                    EXP_CAP as int
                } else if exponent(s@) <= -EXP_CAP {
                    -EXP_CAP
                } else {
                    exponent(s@)
                }
            },
            None => !(x + 1 + exp_sign_len(s@) < s@.len() && all_digits(
                s@,
                x + 1 + exp_sign_len(s@),
                s@.len() as int,
            )),
        },
{
    let len = s.len();
    let mut i: usize = x + 1;
    let mut neg = false;
    if i < len && (s[i] == 45 || s[i] == 43) {
        neg = s[i] == 45;
        i = i + 1;
    }
    let lo = i;
    if lo >= len {
        return None;
    }
    let ghost t = s@;
    let mut v: u128 = 0;
    while i < len
        invariant
            t == s@,
            len == t.len(),
            lo == x + 1 + exp_sign_len(t),
            lo <= i <= len,
            all_digits(t, lo as int, i as int),
            v == if digits_value(t, lo as int, i as int) < EXP_CAP {
                digits_value(t, lo as int, i as int)
            } else {
                EXP_CAP as int
            },
        decreases len - i,
    {
        if s[i] < 48 || s[i] > 57 {
            return None;
        }
        proof {
            lemma_digits_nonneg(t, lo as int, i as int);
        }
        let d: u128 = (s[i] - 48) as u128;
        v = if v >= EXP_CAP {
            EXP_CAP
        } else {
            let w = v * 10 + d;
            if w >= EXP_CAP { EXP_CAP } else { w }
        };
        i = i + 1;
    }
    proof {
        lemma_digits_nonneg(t, lo as int, len as int);
    }
    if neg { Some(-(v as i128)) } else { Some(v as i128) }
}

/// The digits of the mantissa `m`, whose decimal point, if any, is at `dot`.
fn significand_of(m: &[u8], k: usize, dot: usize) -> (g: Vec<u8>)
    requires
        k <= dot <= m@.len(),
    ensures
        g@ == if dot < m@.len() {
            m@.subrange(k as int, dot as int) + m@.subrange(dot + 1, m@.len() as int)
        } else {
            m@.subrange(k as int, m@.len() as int)
        },
{
    let mut g: Vec<u8> = Vec::new();
    let mut i: usize = k;
    while i < dot
        invariant
            k <= i <= dot <= m@.len(),
            g@ =~= m@.subrange(k as int, i as int),
        decreases dot - i,
    {
        g.push(m[i]);
        i = i + 1;
    }
    if dot < m.len() {
        let mut j: usize = dot + 1;
        while j < m.len()
            invariant
                k <= dot < m@.len(),
                dot + 1 <= j <= m@.len(),
                g@ =~= m@.subrange(k as int, dot as int) + m@.subrange(dot + 1, j as int),
            decreases m@.len() - j,
        {
            g.push(m[j]);
            j = j + 1;
        }
    }
    g
}

/// The number that the first `count` digits of `g` write, held at [NANO_CAP].
fn prefix_value(g: &Vec<u8>, count: usize) -> (r: u128)
    requires
        count <= g@.len(),
        all_digits(g@, 0, g@.len() as int),
    ensures
        r == if digits_value(g@, 0, count as int) < NANO_CAP {
            digits_value(g@, 0, count as int)
        } else {
            NANO_CAP as int
        },
{
    let mut v: u128 = 0;
    let mut i: usize = 0;
    while i < count
        invariant
            count <= g@.len(),
            all_digits(g@, 0, g@.len() as int),
            i <= count,
            v == if digits_value(g@, 0, i as int) < NANO_CAP {
                digits_value(g@, 0, i as int)
            } else {
                NANO_CAP as int
            },
        decreases count - i,
    {
        proof {
            lemma_digits_nonneg(g@, 0, i as int);
            assert(is_digit(g@[i as int]));
        }
        let d: u128 = (g[i] - 48) as u128;
        v = if v >= NANO_CAP {
            NANO_CAP
        } else {
            let w = v * 10 + d;
            if w >= NANO_CAP { NANO_CAP } else { w }
        };
        i = i + 1;
    }
    v
}

fn pow10_of(p: u32) -> (r: u128)
    requires
        p <= 19,
    ensures
        r == pow10(p as nat),
        1 <= r <= 10_000_000_000_000_000_000,
{
    proof {
        lemma_pow10_small10(p as nat);
        lemma_pow10_positive(p as nat);
    }
    let mut r: u128 = 1;
    let mut i: u32 = 0;
    while i < p
        invariant
            i <= p <= 19,
            r == pow10(i as nat),
        decreases p - i,
    {
        proof {
            lemma_pow10_small10((i + 1) as nat);
        }
        r = r * 10;
        i = i + 1;
    }
    r
}

proof fn lemma_pow10_small10(n: nat)
    requires
        n <= 19,
    ensures
        pow10(n) <= 10_000_000_000_000_000_000,
{
    reveal_with_fuel(pow10, 20);
}

/// The number that the digits `g` write, scaled by ten to the `p`, in whole
/// units; any value past [NANO_CAP] stands for one beyond every duration.
fn scaled(g: &Vec<u8>, p: i128) -> (r: u128)
    requires
        -0x1_0000_0000_0000_0000_0000_0000 <= p,
        all_digits(g@, 0, g@.len() as int),
    ensures
        ({
            let v = digits_value(g@, 0, g@.len() as int);
            let m = if p >= 0 { v * pow10(p as nat) } else { v / pow10((-p) as nat) };
            &&& m >= 0
            &&& m > 0x8000_0000_0000_0000 ==> r > 0x8000_0000_0000_0000
            &&& m <= 0x8000_0000_0000_0000 ==> r == m
        }),
{
    let n: usize = g.len();
    let ghost big = digits_value(g@, 0, n as int);
    proof {
        lemma_digits_nonneg(g@, 0, n as int);
        lemma_digits_bound(g@, 0, n as int);
    }
    if p >= 0 {
        let v = prefix_value(g, n);
        proof {
            lemma_pow10_positive(p as nat);
            assert(big * pow10(p as nat) >= 0) by (nonlinear_arith)
                requires big >= 0, pow10(p as nat) >= 1;
        }
        if v == 0 {
            proof {
                assert(big * pow10(p as nat) == 0) by (nonlinear_arith) requires big == 0;
            }
            0
        } else if p >= 20 {
            proof {
                lemma_pow10_monotonic(20, p as nat);
                reveal_with_fuel(pow10, 21);
                assert(big * pow10(p as nat) >= pow10(p as nat)) by (nonlinear_arith)
                    requires big >= 1, pow10(p as nat) >= 1;
            }
            NANO_CAP
        } else {
            let scale = pow10_of(p as u32);
            proof {
                assert(v * scale <= NANO_CAP * 10_000_000_000_000_000_000) by (nonlinear_arith)
                    requires v <= NANO_CAP, scale <= 10_000_000_000_000_000_000;
                if big >= NANO_CAP {
                    assert(big * scale >= NANO_CAP * scale) by (nonlinear_arith)
                        requires big >= NANO_CAP, scale >= 1;
                    assert(NANO_CAP * scale >= NANO_CAP) by (nonlinear_arith)
                        requires scale >= 1;
                }
            }
            v * scale
        }
    } else {
        let q: i128 = -p;
        proof {
            lemma_pow10_positive(q as nat);
            assert(big / pow10(q as nat) >= 0) by (nonlinear_arith)
                requires big >= 0, pow10(q as nat) >= 1;
        }
        if q >= n as i128 {
            proof {
                lemma_pow10_monotonic(n as nat, q as nat);
                assert(big / pow10(q as nat) == 0) by (nonlinear_arith)
                    requires 0 <= big < pow10(n as nat), pow10(n as nat) <= pow10(q as nat);
            }
            0
        } else {
            proof {
                lemma_prefix_div(g@, n as int, q as nat);
            }
            prefix_value(g, n - q as usize)
        }
    }
}

/// Parses a number of seconds written in decimal (`"-12.5"`, `"0.000001"`,
/// `"1.5e-3"`), to the nanosecond: what lies below it is dropped.
#[verifier::rlimit(60)]
pub fn parse_bytes(s: &[u8]) -> (r: Result<Sec, ParseError>)
    ensures
        match r {
            Ok(v) => parsed(s@) == Ok::<int, ParseError>(v@),
            Err(e) => parsed(s@) == Err::<int, ParseError>(e),
        },
{
    let len = s.len();
    if len == 0 {
        return Err(ParseError::Empty);
    }
    let neg = s[0] == 45;
    let k: usize = if s[0] == 45 || s[0] == 43 { 1 } else { 0 };
    if names_non_finite(s, k) {
        return Err(ParseError::NotFinite);
    }
    let ghost t = s@;
    let x = find_exp(s, k);
    let m = slice_subrange(s, 0, x);
    proof {
        assert(m@ == mantissa(t));
        if k == 1 {
            assert(m@[0] == t[0]);
        }
        assert(sign_len(m@) == k);
    }
    let dot = match scan_whole(m, k) {
        Some(d) => d,
        None => return Err(ParseError::InvalidDigit),
    };
    proof {
        lemma_first_dot_after(m@, k as int);
    }
    if dot < x {
        if !scan_frac(m, dot) {
            return Err(ParseError::InvalidDigit);
        }
    }
    let g = significand_of(m, k, dot);
    proof {
        assert(g@ == significand(t));
    }
    if g.len() == 0 {
        return Err(ParseError::InvalidDigit);
    }
    let e: i128 = if x < len {
        match scan_exp(s, x) {
            Some(e) => e,
            None => return Err(ParseError::InvalidDigit),
        }
    } else {
        0
    };
    proof {
        assert(well_formed_text(t));
        assert forall|j: int| 0 <= j < g@.len() implies is_digit(#[trigger] g@[j]) by {
            if dot < x && j >= dot - k {
                assert(g@[j] == m@[j + k + 1]);
            } else {
                assert(g@[j] == m@[j + k]);
            }
        }
    }
    let f: i128 = if dot < x { (x - dot - 1) as i128 } else { 0 };
    let n: usize = g.len();
    proof {
        assert(f == frac_len(t));
        assert(n <= len);
        lemma_digits_nonneg(g@, 0, n as int);
        lemma_digits_bound(g@, 0, n as int);
    }
    let mag: u128 = if e >= EXP_CAP as i128 {
        let v = prefix_value(&g, n);
        proof {
            let p = shift(t);
            let big = digits_value(g@, 0, n as int);
            lemma_pow10_positive(p as nat);
            if v != 0 {
                lemma_pow10_monotonic(20, p as nat);
                reveal_with_fuel(pow10, 21);
                assert(big * pow10(p as nat) >= pow10(p as nat)) by (nonlinear_arith)
                    requires big >= 1, pow10(p as nat) >= 1;
            } else {
                assert(big * pow10(p as nat) == 0) by (nonlinear_arith) requires big == 0;
            }
        }
        if v == 0 { 0 } else { NANO_CAP }
    } else if e <= -(EXP_CAP as i128) {
        proof {
            let q = -shift(t);
            let big = digits_value(g@, 0, n as int);
            lemma_pow10_monotonic(n as nat, q as nat);
            assert(big / pow10(q as nat) == 0) by (nonlinear_arith)
                requires 0 <= big < pow10(n as nat), pow10(n as nat) <= pow10(q as nat);
        }
        0
    } else {
        scaled(&g, 9 + e - f)
    };
    if neg {
        if mag > 0x8000_0000_0000_0000 {
            return Err(ParseError::Overflow);
        }
        Ok(Sec::new((-(mag as i128)) as i64))
    } else {
        if mag > i64::MAX as u128 {
            return Err(ParseError::Overflow);
        }
        Ok(Sec::new(mag as i64))
    }
}

impl Sec {
    /// Parses a number of seconds written in decimal, to the nanosecond; see
    /// [parse_bytes].
    pub fn parse(text: &str) -> (r: Result<Sec, ParseError>)
        ensures
            match r {
                Ok(v) => parsed(text.spec_bytes()) == Ok::<int, ParseError>(v@),
                Err(e) => parsed(text.spec_bytes()) == Err::<int, ParseError>(e),
            },
    {
        parse_bytes(text.as_bytes())
    }
}

/// The decimal digit of `d`, as a character.
pub open spec fn digit_char(d: int) -> char {
    (48 + d) as char
}

/// `n` in decimal, without leading zeros.
pub open spec fn decimal(n: nat) -> Seq<char>
    decreases n,
{
    if n < 10 {
        seq![digit_char(n as int)]
    } else {
        decimal(n / 10) + seq![digit_char((n % 10) as int)]
    }
}

/// The last `width` decimal digits of `n`, leading zeros kept.
pub open spec fn padded(n: nat, width: nat) -> Seq<char>
    decreases width,
{
    if width == 0 {
        Seq::empty()
    } else {
        padded(n / 10, (width - 1) as nat) + seq![digit_char((n % 10) as int)]
    }
}

/// The fraction `n` of `width` digits with its trailing zeros dropped: the
/// digits left, and how many.
pub open spec fn stripped(n: nat, width: nat) -> (nat, nat)
    decreases width,
{
    if width > 0 && n != 0 && n % 10 == 0 {
        stripped(n / 10, (width - 1) as nat)
    } else {
        (n, width)
    }
}

/// A duration of `v` nanoseconds as text: seconds in decimal, with no
/// trailing zeros in the fraction, then `" s"`.
pub open spec fn text_of(v: int) -> Seq<char> {
    let m = if v < 0 { -v } else { v };
    let whole = (m / 1_000_000_000) as nat;
    let frac = (m % 1_000_000_000) as nat;
    let sign = if v < 0 { seq!['-'] } else { Seq::<char>::empty() };
    let point = if frac == 0 {
        Seq::<char>::empty()
    } else {
        seq!['.'] + padded(stripped(frac, 9).0, stripped(frac, 9).1)
    };
    sign + decimal(whole) + point + seq![' ', 's']
}

fn push_digit(out: &mut String, d: u64)
    requires
        d < 10,
    ensures
        final(out)@ == old(out)@ + seq![digit_char(d as int)],
{
    let text: &str = match d {
        0 => "0",
        1 => "1",
        2 => "2",
        3 => "3",
        4 => "4",
        5 => "5",
        6 => "6",
        7 => "7",
        8 => "8",
        _ => "9",
    };
    proof {
        reveal_strlit("0");
        reveal_strlit("1");
        reveal_strlit("2");
        reveal_strlit("3");
        reveal_strlit("4");
        reveal_strlit("5");
        reveal_strlit("6");
        reveal_strlit("7");
        reveal_strlit("8");
        reveal_strlit("9");
    }
    out.append(text);
}

fn push_decimal(out: &mut String, n: u64)
    ensures
        final(out)@ == old(out)@ + decimal(n as nat),
    decreases n,
{
    if n >= 10 {
        push_decimal(out, n / 10);
    }
    push_digit(out, n % 10);
    proof {
        assert(old(out)@ + decimal((n / 10) as nat) + seq![digit_char((n % 10) as int)]
            == old(out)@ + (decimal((n / 10) as nat) + seq![digit_char((n % 10) as int)]));
    }
}

fn push_padded(out: &mut String, n: u64, width: u64)
    ensures
        final(out)@ == old(out)@ + padded(n as nat, width as nat),
    decreases width,
{
    if width > 0 {
        push_padded(out, n / 10, width - 1);
        push_digit(out, n % 10);
        proof {
            assert(old(out)@ + padded((n / 10) as nat, (width - 1) as nat) + seq![digit_char((n % 10) as int)]
                == old(out)@ + (padded((n / 10) as nat, (width - 1) as nat) + seq![digit_char((n % 10) as int)]));
        }
    } else {
        assert(old(out)@ + Seq::<char>::empty() == old(out)@);
    }
}

fn strip(n: u64, width: u64) -> (r: (u64, u64))
    ensures
        (r.0 as nat, r.1 as nat) == stripped(n as nat, width as nat),
    decreases width,
{
    if width > 0 && n != 0 && n % 10 == 0 {
        strip(n / 10, width - 1)
    } else {
        (n, width)
    }
}

impl Sec {
    /// The duration as text: seconds in decimal, with no trailing zeros in
    /// the fraction, then `" s"` (`"1.5 s"`, `"-0.000000001 s"`).
    pub fn to_text(&self) -> (r: String)
        ensures
            r@ == text_of(self@),
    {
        let v: i64 = self.as_nanos();
        let m: u64 = if v < 0 { (-(v as i128)) as u64 } else { v as u64 };
        let whole: u64 = m / 1_000_000_000;
        let frac: u64 = m % 1_000_000_000;
        let mut out = String::new();
        if v < 0 {
            proof {
                reveal_strlit("-");
            }
            out.append("-");
        }
        push_decimal(&mut out, whole);
        if frac != 0 {
            proof {
                reveal_strlit(".");
            }
            out.append(".");
            let (digits, width) = strip(frac, 9);
            push_padded(&mut out, digits, width);
        }
        proof {
            reveal_strlit(" s");
        }
        out.append(" s");
        proof {
            let sign = if v < 0 { seq!['-'] } else { Seq::<char>::empty() };
            let point = if frac == 0 {
                Seq::<char>::empty()
            } else {
                seq!['.'] + padded(stripped(frac as nat, 9).0, stripped(frac as nat, 9).1)
            };
            assert(out@ =~= sign + decimal(whole as nat) + point + seq![' ', 's']);
        }
        out
    }
}

/// The bytes of a text of ASCII characters.
pub open spec fn ascii(cs: Seq<char>) -> Seq<u8> {
    cs.map_values(|c: char| c as u8)
}

/// The number part of [text_of]: what comes before `" s"`.
pub open spec fn number_text(v: int) -> Seq<char> {
    let m = if v < 0 { -v } else { v };
    let whole = (m / 1_000_000_000) as nat;
    let frac = (m % 1_000_000_000) as nat;
    let sign = if v < 0 { seq!['-'] } else { Seq::<char>::empty() };
    let point = if frac == 0 {
        Seq::<char>::empty()
    } else {
        seq!['.'] + padded(stripped(frac, 9).0, stripped(frac, 9).1)
    };
    sign + decimal(whole) + point
}

proof fn lemma_decimal_value(s: Seq<u8>, lo: int, n: nat)
    requires
        0 <= lo,
        lo + decimal(n).len() <= s.len(),
        s.subrange(lo, lo + decimal(n).len()) == ascii(decimal(n)),
    ensures
        decimal(n).len() >= 1,
        digits_value(s, lo, lo + decimal(n).len()) == n,
        all_digits(s, lo, lo + decimal(n).len()),
    decreases n,
{
    let hi = lo + decimal(n).len();
    if n < 10 {
        assert(s[lo] == s.subrange(lo, hi)[0]);
        assert(digits_value(s, lo, lo) == 0);
    } else {
        let p = decimal(n / 10);
        assert(s.subrange(lo, lo + p.len()) == s.subrange(lo, hi).subrange(0, p.len() as int));
        assert(ascii(decimal(n)).subrange(0, p.len() as int) == ascii(p));
        lemma_decimal_value(s, lo, n / 10);
        assert(s[hi - 1] == s.subrange(lo, hi)[hi - 1 - lo]);
    }
}

proof fn lemma_padded_value(s: Seq<u8>, lo: int, n: nat, width: nat)
    requires
        0 <= lo,
        lo + width <= s.len(),
        s.subrange(lo, lo + width) == ascii(padded(n, width)),
    ensures
        padded(n, width).len() == width,
        digits_value(s, lo, lo + width) == (n as int) % pow10(width),
        all_digits(s, lo, lo + width),
    decreases width,
{
    if width > 0 {
        let w1 = (width - 1) as nat;
        let hi = lo + width;
        let p = padded(n / 10, w1);
        assert(padded(n, width) == p + seq![digit_char((n % 10) as int)]);
        assert(p.len() == w1) by {
            lemma_padded_len(n / 10, w1);
        }
        assert(s.subrange(lo, lo + w1) =~= s.subrange(lo, hi).subrange(0, w1 as int));
        assert(ascii(padded(n, width)).subrange(0, w1 as int) =~= ascii(p));
        lemma_padded_value(s, lo, n / 10, w1);
        assert(s[hi - 1] == s.subrange(lo, hi)[hi - 1 - lo]);
        lemma_pow10_positive(w1);
        let x = n as int;
        let p = pow10(w1);
        lemma_mod_breakdown(x, 10, p);
    }
}

proof fn lemma_padded_len(n: nat, width: nat)
    ensures
        padded(n, width).len() == width,
    decreases width,
{
    if width > 0 {
        lemma_padded_len(n / 10, (width - 1) as nat);
    }
}

proof fn lemma_pow10_positive(n: nat)
    ensures
        pow10(n) >= 1,
    decreases n,
{
    if n > 0 {
        lemma_pow10_positive((n - 1) as nat);
    }
}

proof fn lemma_stripped(n: nat, width: nat)
    requires
        n < pow10(width),
    ensures
        stripped(n, width).1 <= width,
        stripped(n, width).0 * pow10((width - stripped(n, width).1) as nat) == n,
        stripped(n, width).0 < pow10(stripped(n, width).1),
        n != 0 ==> stripped(n, width).1 >= 1,
    decreases width,
{
    lemma_pow10_positive(width);
    if width > 0 && n != 0 && n % 10 == 0 {
        let w1 = (width - 1) as nat;
        assert(n / 10 < pow10(w1)) by (nonlinear_arith)
            requires n < 10 * pow10(w1), n >= 0;
        lemma_stripped(n / 10, w1);
        let r = stripped(n / 10, w1);
        assert(pow10((width - r.1) as nat) == 10 * pow10((w1 - r.1) as nat));
        assert(r.0 * (10 * pow10((w1 - r.1) as nat)) == 10 * (r.0 * pow10((w1 - r.1) as nat)))
            by (nonlinear_arith);
    } else {
        assert(n * pow10(0) == n);
    }
}

proof fn lemma_digits_split(g: Seq<u8>, mid: int, hi: int)
    requires
        0 <= mid <= hi <= g.len(),
    ensures
        digits_value(g, 0, hi) == digits_value(g, 0, mid) * pow10((hi - mid) as nat)
            + digits_value(g.subrange(mid, hi), 0, hi - mid),
    decreases hi - mid,
{
    if hi > mid {
        lemma_digits_split(g, mid, hi - 1);
        let b = g.subrange(mid, hi);
        assert(b.subrange(0, hi - 1 - mid) =~= g.subrange(mid, hi - 1));
        lemma_digits_prefix_same(b, g.subrange(mid, hi - 1), hi - 1 - mid);
        let a = digits_value(g, 0, mid);
        let p = pow10((hi - 1 - mid) as nat);
        let c = digits_value(g.subrange(mid, hi - 1), 0, hi - 1 - mid);
        assert(10 * (a * p + c) == a * (10 * p) + 10 * c) by (nonlinear_arith);
    } else {
        assert(pow10(0) == 1);
        assert(digits_value(g, 0, mid) * 1 == digits_value(g, 0, mid));
    }
}

/// Digits read from two sequences that agree on a prefix agree there.
proof fn lemma_digits_prefix_same(a: Seq<u8>, b: Seq<u8>, n: int)
    requires
        0 <= n <= a.len(),
        n <= b.len(),
        forall|j: int| 0 <= j < n ==> a[j] == b[j],
    ensures
        digits_value(a, 0, n) == digits_value(b, 0, n),
    decreases n,
{
    if n > 0 {
        lemma_digits_prefix_same(a, b, n - 1);
    }
}

proof fn lemma_pow10_add(a: nat, b: nat)
    ensures
        pow10(a + b) == pow10(a) * pow10(b),
    decreases b,
{
    if b > 0 {
        lemma_pow10_add(a, (b - 1) as nat);
        assert(pow10(a) * (10 * pow10((b - 1) as nat)) == 10 * (pow10(a) * pow10((b - 1) as nat)))
            by (nonlinear_arith);
    } else {
        assert(pow10(a) * 1 == pow10(a));
    }
}

/// The number part of a duration's text parses back to the same duration.
#[verifier::rlimit(80)]
pub proof fn lemma_text_parses_back(v: Sec)
    ensures
        text_of(v@) == number_text(v@) + seq![' ', 's'],
        parsed(ascii(number_text(v@))) == Ok::<int, ParseError>(v@),
{
    Sec::lemma_range(v);
    let x = v@;
    let m = if x < 0 { -x } else { x };
    let whole = (m / 1_000_000_000) as nat;
    let frac = (m % 1_000_000_000) as nat;
    let sign = if x < 0 { seq!['-'] } else { Seq::<char>::empty() };
    let dec = decimal(whole);
    let point = if frac == 0 {
        Seq::<char>::empty()
    } else {
        seq!['.'] + padded(stripped(frac, 9).0, stripped(frac, 9).1)
    };
    let cs = sign + dec + point;
    let t = ascii(cs);
    assert(cs == number_text(x));
    let k = sign.len() as int;
    let len_d = dec.len() as int;
    let d = k + len_d;
    assert(t.subrange(k, d) =~= ascii(dec));
    lemma_decimal_value(t, k, whole);
    assert(t[k] == dec[0] as u8);
    assert(sign_len(t) == k);
    assert(is_digit(t[k]));
    assert(!non_finite(t)) by {
        assert(lower(t[k + 0]) == t[k]);
    }
    assert forall|j: int| k <= j < d implies t[j] != 46 by {
        assert(is_digit(t[j]));
    }
    lemma_first_dot(t, k, d);
    assert(m == whole * 1_000_000_000 + frac);
    reveal_with_fuel(pow10, 10);
    if frac == 0 {
        assert(t.len() == d);
        assert forall|j: int| k <= j < t.len() implies !is_exp_mark(t[j]) by {
            assert(is_digit(t[j]));
        }
        lemma_exp_pos(t, k, t.len() as int);
        assert(mantissa(t) =~= t);
        assert(first_dot(t, k) == d);
        let g = significand(t);
        assert(g =~= t.subrange(k, d));
        lemma_digits_prefix_same(g, t.subrange(k, d), len_d);
        assert(t.subrange(k, d).subrange(0, len_d) =~= ascii(dec));
        lemma_decimal_value(t.subrange(k, d), 0, whole);
        assert(exponent(t) == 0);
        assert(frac_len(t) == 0);
        assert(magnitude(t) == m);
    } else {
        lemma_stripped(frac, 9);
        let fp = stripped(frac, 9).0;
        let wd = stripped(frac, 9).1;
        lemma_padded_len(fp, wd);
        assert(t.len() == d + 1 + wd);
        assert(t[d] == 46u8);
        let lo = d + 1;
        assert(t.subrange(lo, lo + wd) =~= ascii(padded(fp, wd)));
        lemma_padded_value(t, lo, fp, wd);
        assert forall|j: int| k <= j < t.len() implies !is_exp_mark(t[j]) by {
            if j != d {
                assert(is_digit(t[j]));
            }
        }
        lemma_exp_pos(t, k, t.len() as int);
        assert(mantissa(t) =~= t);
        assert(first_dot(t, k) == d);
        let g = significand(t);
        assert(g =~= t.subrange(k, d) + t.subrange(lo, t.len() as int));
        lemma_digits_split(g, len_d, len_d + wd);
        assert(g.subrange(0, len_d) =~= ascii(dec));
        lemma_decimal_value(g, 0, whole);
        assert(g.subrange(len_d, len_d + wd).subrange(0, wd as int) =~= ascii(padded(fp, wd)));
        lemma_padded_value(g.subrange(len_d, len_d + wd), 0, fp, wd);
        vstd::arithmetic::div_mod::lemma_small_mod(fp, pow10(wd) as nat);
        assert(exponent(t) == 0);
        assert(frac_len(t) == wd);
        lemma_pow10_add(wd, (9 - wd) as nat);
        let pw = pow10(wd);
        let pr = pow10((9 - wd) as nat);
        assert((whole * pw + fp) * pr == whole * (pw * pr) + fp * pr) by (nonlinear_arith);
        assert(magnitude(t) == whole * 1_000_000_000 + fp * pr);
        assert(magnitude(t) == m);
    }
    assert(well_formed_text(t));
    if x < 0 {
        assert(t[0] == 45u8);
    } else {
        assert(t[0] != 45u8);
    }
}

} // verus!
