//! Amounts of the asset.
//!
//! An amount is a fixed-point decimal: an integer mantissa and a decimal
//! scale, standing for `mantissa / 10^scale`. The scale is part of the value:
//! it survives arithmetic and printing, so `500.0` keeps its one fractional
//! digit. Contracts speak of an amount through `amount_units`, its exact
//! integer value at the finest supported scale.

use vstd::prelude::*;
use vstd::string::StringExecFns;

verus! {

/// `10^n`.
pub open spec fn pow10(n: nat) -> int
    decreases n,
{
    if n == 0 {
        1
    } else {
        10 * pow10((n - 1) as nat)
    }
}

pub proof fn lemma_pow10_pos(n: nat)
    ensures
        pow10(n) >= 1,
    decreases n,
{
    if n > 0 {
        lemma_pow10_pos((n - 1) as nat);
    }
}

pub proof fn lemma_pow10_increases(i: nat, j: nat)
    requires
        i <= j,
    ensures
        pow10(i) <= pow10(j),
    decreases j,
{
    if i < j {
        lemma_pow10_increases(i, (j - 1) as nat);
        lemma_pow10_pos((j - 1) as nat);
    }
}

pub proof fn lemma_pow10_adds(a: nat, b: nat)
    ensures
        pow10(a) * pow10(b) == pow10(a + b),
    decreases a,
{
    if a == 0 {
    } else {
        lemma_pow10_adds((a - 1) as nat, b);
        assert((10 * pow10((a - 1) as nat)) * pow10(b) == 10 * (pow10((a - 1) as nat) * pow10(b)))
            by (nonlinear_arith);
    }
}

/// The numeric value of `10^36`, the bound on amount values.
pub proof fn lemma_pow10_limit()
    ensures
        pow10(36) == 1000000000000000000000000000000000000,
{
    reveal_with_fuel(pow10, 37);
}

/// The character of a single decimal digit.
pub open spec fn digit_char(d: nat) -> char {
    if d == 0 {
        '0'
    } else if d == 1 {
        '1'
    } else if d == 2 {
        '2'
    } else if d == 3 {
        '3'
    } else if d == 4 {
        '4'
    } else if d == 5 {
        '5'
    } else if d == 6 {
        '6'
    } else if d == 7 {
        '7'
    } else if d == 8 {
        '8'
    } else {
        '9'
    }
}

/// The decimal digits of `n`, most significant first, without leading zeros
/// (`0` itself is the single digit `0`).
pub open spec fn dec_digits(n: nat) -> Seq<char>
    decreases n,
{
    if n < 10 {
        seq![digit_char(n)]
    } else {
        dec_digits(n / 10).push(digit_char(n % 10))
    }
}

/// The last `width` decimal digits of `n`, zero-padded on the left.
pub open spec fn dec_digits_fixed(n: nat, width: nat) -> Seq<char>
    decreases width,
{
    if width == 0 {
        Seq::empty()
    } else {
        dec_digits_fixed(n / 10, (width - 1) as nat).push(digit_char(n % 10))
    }
}

/// The canonical decimal string of the amount `m / 10^s`.
pub open spec fn amount_chars(m: int, s: nat) -> Seq<char> {
    let sign: Seq<char> = if m < 0 {
        seq!['-']
    } else {
        Seq::empty()
    };
    let a = vstd::math::abs(m) as nat;
    if s == 0 {
        sign + dec_digits(a)
    } else {
        sign + dec_digits(a / (pow10(s) as nat)) + seq!['.'] + dec_digits_fixed(
            a % (pow10(s) as nat),
            s,
        )
    }
}

/// The string of one decimal digit.
fn digit_str(d: u128) -> (r: &'static str)
    requires
        d < 10,
    ensures
        r@ == seq![digit_char(d as nat)],
{
    let r = match d {
        0 => "0",
        1 => "1",
        2 => "2",
        3 => "3",
        4 => "4",
        5 => "5",
        6 => "6",
        7 => "7",
        8 => "8",
        _ => "9",
    };
    proof {
        reveal_strlit("0");
        reveal_strlit("1");
        reveal_strlit("2");
        reveal_strlit("3");
        reveal_strlit("4");
        reveal_strlit("5");
        reveal_strlit("6");
        reveal_strlit("7");
        reveal_strlit("8");
        reveal_strlit("9");
        assert(r@ =~= seq![digit_char(d as nat)]);
    }
    r
}

/// Append the decimal digits of `n` to `out`.
pub(crate) fn push_digits(n: u128, out: &mut String)
    ensures
        final(out)@ == old(out)@ + dec_digits(n as nat),
    decreases n,
{
    if n < 10 {
        out.append(digit_str(n));
        assert(out@ =~= old(out)@ + dec_digits(n as nat));
    } else {
        push_digits(n / 10, out);
        out.append(digit_str(n % 10));
        assert(out@ =~= old(out)@ + dec_digits(n as nat));
    }
}

/// Append the last `width` decimal digits of `n` to `out`, zero-padded.
pub(crate) fn push_digits_fixed(n: u128, width: u32, out: &mut String)
    ensures
        final(out)@ == old(out)@ + dec_digits_fixed(n as nat, width as nat),
    decreases width,
{
    if width > 0 {
        push_digits_fixed(n / 10, width - 1, out);
        out.append(digit_str(n % 10));
    }
    assert(out@ =~= old(out)@ + dec_digits_fixed(n as nat, width as nat));
}

/// A fixed-point decimal amount: `mantissa / 10^scale`.
#[derive(Debug, PartialEq, Eq, Structural, Clone, Copy)]
pub struct Amount {
    pub mantissa: i128,
    pub scale: u32,
}

/// The exact integer value of an amount at the finest scale: its mantissa
/// brought up to 18 fractional digits.
pub open spec fn amount_units(a: Amount) -> int {
    if a.scale <= 18 {
        a.mantissa * pow10((18 - a.scale) as nat)
    } else {
        0
    }
}

/// A well-formed amount: the scale is supported and the value stays within
/// `10^36` units either way, so that sums of two amounts fit the machine.
pub open spec fn amount_wf(a: Amount) -> bool {
    a.scale <= 18 && -pow10(36) <= amount_units(a) <= pow10(36)
}

/// `10^n`, executable.
fn pow10_exec(n: u32) -> (r: i128)
    requires
        n <= 36,
    ensures
        r == pow10(n as nat),
{
    let mut r: i128 = 1;
    let mut i: u32 = 0;
    while i < n
        invariant
            i <= n <= 36,
            r == pow10(i as nat),
        decreases n - i,
    {
        proof {
            lemma_pow10_increases(i as nat + 1, 36);
            lemma_pow10_limit();
            lemma_pow10_pos(i as nat);
        }
        r = r * 10;
        i = i + 1;
    }
    r
}

/// `10^n`, executable and unsigned.
pub(crate) fn pow10_u128(n: u32) -> (r: u128)
    requires
        n <= 36,
    ensures
        r == pow10(n as nat),
{
    proof {
        lemma_pow10_pos(n as nat);
    }
    pow10_exec(n) as u128
}

/// Bringing a mantissa from scale `s1` up to scale `s` and then to the finest
/// scale reaches the same value as bringing it up directly.
proof fn lemma_rescale(m: int, s1: nat, s: nat)
    requires
        s1 <= s <= 18,
    ensures
        (m * pow10((s - s1) as nat)) * pow10((18 - s) as nat) == m * pow10((18 - s1) as nat),
{
    lemma_pow10_adds((s - s1) as nat, (18 - s) as nat);
    assert((m * pow10((s - s1) as nat)) * pow10((18 - s) as nat) == m * (pow10((s - s1) as nat)
        * pow10((18 - s) as nat))) by (nonlinear_arith);
}

/// A product with a factor of at least one is at least as large either way.
pub proof fn lemma_mul_widens(x: int, p: int)
    requires
        p >= 1,
    ensures
        x >= 0 ==> x <= x * p,
        x < 0 ==> x * p <= x,
        x * p >= 0 <==> x >= 0,
    decreases 0nat,
{
    assert(x >= 0 ==> x <= x * p) by (nonlinear_arith)
        requires
            p >= 1,
    ;
    assert(x < 0 ==> x * p <= x) by (nonlinear_arith)
        requires
            p >= 1,
    ;
    assert(x * p >= 0 <==> x >= 0) by (nonlinear_arith)
        requires
            p >= 1,
    ;
}

impl Amount {
    /// The amount `mantissa / 10^scale`.
    pub fn new(mantissa: i128, scale: u32) -> (r: Self)
        requires
            scale <= 18,
            amount_wf(Amount { mantissa, scale }),
        ensures
            r == (Amount { mantissa, scale }),
    {
        Amount { mantissa, scale }
    }

    /// The amount zero, at scale zero.
    pub fn zero() -> (r: Self)
        ensures
            r == (Amount { mantissa: 0int as i128, scale: 0u32 }),
            amount_units(r) == 0,
            amount_wf(r),
    {
        proof {
            lemma_pow10_limit();
        }
        Amount { mantissa: 0, scale: 0 }
    }

    /// This amount with its sign flipped.
    pub fn neg(&self) -> (r: Self)
        requires
            amount_wf(*self),
        ensures
            amount_wf(r),
            amount_units(r) == -amount_units(*self),
            r.scale == self.scale,
    {
        proof {
            assert((-self.mantissa) * pow10((18 - self.scale) as nat) == -(self.mantissa * pow10(
                (18 - self.scale) as nat))) by (nonlinear_arith);
            lemma_pow10_limit();
            lemma_pow10_pos((18 - self.scale) as nat);
            lemma_mul_widens(self.mantissa as int, pow10((18 - self.scale) as nat));
        }
        Amount { mantissa: -self.mantissa, scale: self.scale }
    }

    /// The mantissa of this amount brought up to scale `s`, which fits the
    /// machine because the value is within bounds.
    fn rescaled(&self, s: u32) -> (r: i128)
        requires
            amount_wf(*self),
            self.scale <= s <= 18,
        ensures
            r == self.mantissa * pow10((s - self.scale) as nat),
            r * pow10((18 - s) as nat) == amount_units(*self),
            -pow10(36) <= r <= pow10(36),
    {
        let p = pow10_exec(s - self.scale);
        proof {
            lemma_rescale(self.mantissa as int, self.scale as nat, s as nat);
            lemma_pow10_pos((18 - s) as nat);
            lemma_mul_widens(self.mantissa * pow10((s - self.scale) as nat), pow10(
                (18 - s) as nat));
            lemma_pow10_limit();
        }
        self.mantissa * p
    }

    /// The sum of two amounts, at the coarser of the two scales, or `None`
    /// when the sum leaves the supported range.
    pub fn checked_add(&self, other: &Amount) -> (r: Option<Amount>)
        requires
            amount_wf(*self),
            amount_wf(*other),
        ensures
            match r {
                Some(c) => {
                    &&& amount_wf(c)
                    &&& amount_units(c) == amount_units(*self) + amount_units(*other)
                    &&& c.scale == if self.scale >= other.scale {
                        self.scale
                    } else {
                        other.scale
                    }
                },
                None => amount_units(*self) + amount_units(*other) > pow10(36) || amount_units(
                    *self,
                ) + amount_units(*other) < -pow10(36),
            },
    {
        let s = if self.scale >= other.scale {
            self.scale
        } else {
            other.scale
        };
        let m1 = self.rescaled(s);
        let m2 = other.rescaled(s);
        proof {
            lemma_pow10_limit();
        }
        let sum = m1 + m2;
        let ghost p = pow10((18 - s) as nat);
        proof {
            assert((m1 + m2) * p == m1 * p + m2 * p) by (nonlinear_arith);
        }
        let bound = pow10_exec(18 + s);
        proof {
            lemma_pow10_adds((18 + s) as nat, (18 - s) as nat);
            lemma_pow10_pos((18 - s) as nat);
            // |sum| <= 10^(18+s)  <==>  |sum * p| <= 10^36
            assert(sum <= pow10((18 + s) as nat) <==> sum * p <= pow10((18 + s) as nat) * p)
                by (nonlinear_arith)
                requires
                    p >= 1,
            ;
            assert(sum >= -pow10((18 + s) as nat) <==> sum * p >= (-pow10((18 + s) as nat)) * p)
                by (nonlinear_arith)
                requires
                    p >= 1,
            ;
            assert((-pow10((18 + s) as nat)) * p == -(pow10((18 + s) as nat) * p))
                by (nonlinear_arith);
        }
        if sum > bound || sum < -bound {
            None
        } else {
            Some(Amount { mantissa: sum, scale: s })
        }
    }

    /// The difference of two amounts, at the coarser of the two scales, or
    /// `None` when it leaves the supported range.
    pub fn checked_sub(&self, other: &Amount) -> (r: Option<Amount>)
        requires
            amount_wf(*self),
            amount_wf(*other),
        ensures
            match r {
                Some(c) => {
                    &&& amount_wf(c)
                    &&& amount_units(c) == amount_units(*self) - amount_units(*other)
                    &&& c.scale == if self.scale >= other.scale {
                        self.scale
                    } else {
                        other.scale
                    }
                },
                None => amount_units(*self) - amount_units(*other) > pow10(36) || amount_units(
                    *self,
                ) - amount_units(*other) < -pow10(36),
            },
    {
        let n = other.neg();
        self.checked_add(&n)
    }

    /// Whether this amount is strictly below the other in value.
    pub fn lt(&self, other: &Amount) -> (r: bool)
        requires
            amount_wf(*self),
            amount_wf(*other),
        ensures
            r == (amount_units(*self) < amount_units(*other)),
    {
        let s = if self.scale >= other.scale {
            self.scale
        } else {
            other.scale
        };
        let m1 = self.rescaled(s);
        let m2 = other.rescaled(s);
        proof {
            let p = pow10((18 - s) as nat);
            lemma_pow10_pos((18 - s) as nat);
            assert((m1 < m2) <==> (m1 * p < m2 * p)) by (nonlinear_arith)
                requires
                    p >= 1,
            ;
        }
        m1 < m2
    }

    /// Whether the two amounts have the same value, whatever their scales.
    pub fn same_value(&self, other: &Amount) -> (r: bool)
        requires
            amount_wf(*self),
            amount_wf(*other),
        ensures
            r == (amount_units(*self) == amount_units(*other)),
    {
        let s = if self.scale >= other.scale {
            self.scale
        } else {
            other.scale
        };
        let m1 = self.rescaled(s);
        let m2 = other.rescaled(s);
        proof {
            let p = pow10((18 - s) as nat);
            lemma_pow10_pos((18 - s) as nat);
            assert((m1 == m2) <==> (m1 * p == m2 * p)) by (nonlinear_arith)
                requires
                    p >= 1,
            ;
        }
        m1 == m2
    }

    /// Whether this amount is exactly zero.
    pub fn is_zero(&self) -> (r: bool)
        requires
            amount_wf(*self),
        ensures
            r == (amount_units(*self) == 0),
    {
        proof {
            lemma_pow10_pos((18 - self.scale) as nat);
            assert((self.mantissa == 0) <==> (self.mantissa * pow10((18 - self.scale) as nat)
                == 0)) by (nonlinear_arith)
                requires
                    pow10((18 - self.scale) as nat) >= 1,
            ;
        }
        self.mantissa == 0
    }

    /// The canonical decimal string of this amount: a sign for negative
    /// values, the whole part without leading zeros, and, when the scale is
    /// positive, a point followed by exactly `scale` fractional digits.
    pub fn to_string(&self) -> (r: String)
        requires
            amount_wf(*self),
        ensures
            r@ == amount_chars(self.mantissa as int, self.scale as nat),
    {
        proof {
            lemma_pow10_limit();
            lemma_pow10_pos((18 - self.scale) as nat);
            lemma_mul_widens(self.mantissa as int, pow10((18 - self.scale) as nat));
        }
        let mut out = String::new();
        if self.mantissa < 0 {
            out.append("-");
            proof {
                reveal_strlit("-");
                assert(out@ =~= seq!['-']);
            }
        }
        let a: u128 = if self.mantissa < 0 {
            (-self.mantissa) as u128
        } else {
            self.mantissa as u128
        };
        assert(a as nat == vstd::math::abs(self.mantissa as int));
        if self.scale == 0 {
            push_digits(a, &mut out);
        } else {
            proof {
                lemma_pow10_pos(self.scale as nat);
                lemma_pow10_increases(self.scale as nat, 36);
            }
            let p = pow10_exec(self.scale) as u128;
            assert(p >= 1);
            push_digits(a / p, &mut out);
            out.append(".");
            proof {
                reveal_strlit(".");
            }
            push_digits_fixed(a % p, self.scale, &mut out);
        }
        proof {
            assert(out@ =~= amount_chars(self.mantissa as int, self.scale as nat));
        }
        out
    }

    /// Whether this amount is strictly negative.
    pub fn is_negative(&self) -> (r: bool)
        requires
            amount_wf(*self),
        ensures
            r == (amount_units(*self) < 0),
    {
        proof {
            lemma_pow10_pos((18 - self.scale) as nat);
            lemma_mul_widens(self.mantissa as int, pow10((18 - self.scale) as nat));
        }
        self.mantissa < 0
    }
}


impl Amount {
    /// Whether this amount is well formed: scale supported and value within
    /// the range the arithmetic covers.
    pub fn is_well_formed(&self) -> (r: bool)
        ensures
            r == amount_wf(*self),
    {
        if self.scale > 18 {
            return false;
        }
        proof {
            lemma_pow10_limit();
            lemma_pow10_pos((18 - self.scale) as nat);
            lemma_pow10_pos((18 + self.scale) as nat);
            lemma_pow10_adds((18 + self.scale) as nat, (18 - self.scale) as nat);
        }
        let bound = pow10_exec(18 + self.scale);
        let ok = -bound <= self.mantissa && self.mantissa <= bound;
        proof {
            let p = pow10((18 - self.scale) as nat);
            let b = pow10((18 + self.scale) as nat);
            assert((self.mantissa as int <= b) <==> (self.mantissa * p <= b * p))
                by (nonlinear_arith)
                requires
                    p >= 1,
            ;
            assert((-b <= self.mantissa as int) <==> ((-b) * p <= self.mantissa * p))
                by (nonlinear_arith)
                requires
                    p >= 1,
            ;
            assert((-b) * p == -(b * p)) by (nonlinear_arith);
        }
        ok
    }
}

} // verus!
