use vstd::arithmetic::div_mod::lemma_div_by_multiple;
use vstd::prelude::*;

verus! {

/// One nanosecond, in nanoseconds.
pub const NANO: i64 = 1;
/// One microsecond, in nanoseconds.
pub const MICRO: i64 = 1_000;
/// One millisecond, in nanoseconds.
pub const MILLI: i64 = 1_000_000;
/// One second, in nanoseconds.
pub const SECOND: i64 = 1_000_000_000;
/// One kilosecond, in nanoseconds.
pub const KILO: i64 = 1_000_000_000_000;
/// One megasecond, in nanoseconds.
pub const MEGA: i64 = 1_000_000_000_000_000;
/// One gigasecond, in nanoseconds.
pub const GIGA: i64 = 1_000_000_000_000_000_000;
/// One minute, in nanoseconds.
pub const MINUTE: i64 = 60_000_000_000;
/// One hour, in nanoseconds.
pub const HOUR: i64 = 3_600_000_000_000;
/// One day, in nanoseconds.
pub const DAY: i64 = 86_400_000_000_000;

/// `x` held to the range of `i64`.
pub open spec fn clamp(x: int) -> int {
    if x > i64::MAX {
        i64::MAX as int
    } else if x < i64::MIN {
        i64::MIN as int
    } else {
        x
    }
}

pub open spec fn abs(x: int) -> int {
    if x < 0 { -x } else { x }
}

/// Division that rounds toward zero.
pub open spec fn div_trunc(a: int, b: int) -> int
    recommends b != 0,
{
    if (a < 0) == (b < 0) {
        abs(a) / abs(b)
    } else {
        -(abs(a) / abs(b))
    }
}

fn saturate(x: i128) -> (r: i64)
    ensures
        r == clamp(x as int),
{
    if x > i64::MAX as i128 {
        i64::MAX
    } else if x < i64::MIN as i128 {
        i64::MIN
    } else {
        x as i64
    }
}

fn wide_mul(a: i64, b: i64) -> (r: i128)
    ensures
        r == a * b,
{
    proof {
        assert(-0x4000_0000_0000_0000_0000_0000_0000_0000 <= a * b <= 0x4000_0000_0000_0000_0000_0000_0000_0000)
            by (nonlinear_arith)
            requires
                i64::MIN <= a <= i64::MAX,
                i64::MIN <= b <= i64::MAX,
        ;
    }
    a as i128 * b as i128
}

/// A time or a duration, counted in whole nanoseconds.
///
/// Durations add to and subtract from each other, and scale by plain integers;
/// two durations never multiply or divide each other. Arithmetic saturates at
/// the bounds of `i64`.
#[derive(Debug, Clone, Copy, PartialEq, Eq, Structural, PartialOrd, Ord, Hash, Default)]
pub struct Sec {
    nanos: i64,
}

impl View for Sec {
    type V = int;

    closed spec fn view(&self) -> int {
        self.nanos as int
    }
}

impl Sec {
    /// Creates from an amount of nanoseconds.
    pub fn new(nanos: i64) -> (r: Sec)
        ensures
            r@ == nanos,
    {
        Sec { nanos }
    }

    /// Every duration lies in the range of `i64`.
    pub proof fn lemma_range(s: Sec)
        ensures
            i64::MIN <= s@ <= i64::MAX,
    {
    }

    /// Creates from an amount of whole seconds.
    pub fn from_secs(secs: i64) -> (r: Sec)
        ensures
            r@ == clamp(secs * SECOND),
    {
        Sec { nanos: saturate(wide_mul(secs, SECOND)) }
    }

    /// The zero duration.
    pub fn zero() -> (r: Sec)
        ensures
            r@ == 0,
    {
        Sec { nanos: 0 }
    }

    /// Returns the amount in nanoseconds.
    pub fn as_nanos(&self) -> (r: i64)
        ensures
            r == self@,
    {
        self.nanos
    }

    /// Sum of two durations.
    pub fn add(self, rhs: Sec) -> (r: Sec)
        ensures
            r@ == clamp(self@ + rhs@),
    {
        Sec { nanos: saturate(self.nanos as i128 + rhs.nanos as i128) }
    }

    /// Difference of two durations.
    pub fn sub(self, rhs: Sec) -> (r: Sec)
        ensures
            r@ == clamp(self@ - rhs@),
    {
        Sec { nanos: saturate(self.nanos as i128 - rhs.nanos as i128) }
    }

    /// The duration with its sign flipped.
    pub fn neg(self) -> (r: Sec)
        ensures
            r@ == clamp(-self@),
    {
        Sec { nanos: saturate(-(self.nanos as i128)) }
    }

    /// The duration scaled by an integer factor.
    pub fn mul(self, factor: i64) -> (r: Sec)
        ensures
            r@ == clamp(self@ * factor),
    {
        Sec { nanos: saturate(wide_mul(self.nanos, factor)) }
    }

    /// The duration divided by a non-zero integer, rounded toward zero.
    pub fn div(self, divisor: i64) -> (r: Sec)
        requires
            divisor != 0,
        ensures
            r@ == clamp(div_trunc(self@, divisor as int)),
    {
        let a: i128 = self.nanos as i128;
        let b: i128 = divisor as i128;
        let ma: u128 = if a < 0 { (-a) as u128 } else { a as u128 };
        let mb: u128 = if b < 0 { (-b) as u128 } else { b as u128 };
        let q: u128 = ma / mb;
        proof {
            assert(q <= ma) by (nonlinear_arith)
                requires q == ma / mb, mb >= 1;
        }
        let s: i128 = if (a < 0) == (b < 0) { q as i128 } else { -(q as i128) };
        Sec { nanos: saturate(s) }
    }

    /// Whether this duration is at least `other`.
    pub fn at_least(&self, other: Sec) -> (r: bool)
        ensures
            r == (self@ >= other@),
    {
        self.nanos >= other.nanos
    }
}

/// Addition of durations commutes.
pub proof fn lemma_add_commutes(a: Sec, b: Sec)
    ensures
        clamp(a@ + b@) == clamp(b@ + a@),
{
}

/// Subtracting `b` undoes adding it, when the sum fits in the range.
pub proof fn lemma_add_sub_cancel(a: Sec, b: Sec)
    requires
        i64::MIN <= a@ + b@ <= i64::MAX,
    ensures
        clamp(clamp(a@ + b@) - b@) == a@,
{
    Sec::lemma_range(a);
}

/// Dividing by a non-zero factor `c` undoes scaling by it, when the product
/// fits in the range.
pub proof fn lemma_mul_div_cancel(a: Sec, c: i64)
    requires
        c != 0,
        i64::MIN <= a@ * c <= i64::MAX,
    ensures
        clamp(div_trunc(clamp(a@ * c), c as int)) == a@,
{
    Sec::lemma_range(a);
    let x = a@;
    let y = c as int;
    assert(abs(x * y) == abs(x) * abs(y)) by (nonlinear_arith);
    lemma_div_by_multiple(abs(x), abs(y));
    assert((x * y < 0) == ((x < 0) != (y < 0)) || x == 0) by (nonlinear_arith)
        requires y != 0;
}

} // verus!
