//! Exact decimal numbers.
//!
//! A [`Decimal`] is a signed 96-bit mantissa together with a scale between 0
//! and 28: it stands for `mantissa / 10^scale`. The arithmetic itself is done
//! by the `rust_decimal` crate; this module keeps the two parts as plain
//! integers so that the verifier can see them, decides in verified code
//! whether an operation is exact, and only then hands the operands over.
//! What comes back is then known digit for digit: [`Decimal::sum_of`],
//! [`Decimal::difference_of`] and [`Decimal::product_of`] say how an exact
//! result is written.
//!
//! The view of a decimal is its value counted in units of `10^-28`, the finest
//! step any decimal can hold, so that every decimal has an integer view and
//! two decimals have the same view exactly when they are numerically equal.

use vstd::prelude::*;

verus! {

/// The largest scale a decimal can have.
pub const MAX_SCALE: u32 = 28;

/// Mantissas lie strictly between `-MANTISSA_LIMIT` and `MANTISSA_LIMIT` (2^96).
pub const MANTISSA_LIMIT: i128 = 79_228_162_514_264_337_593_543_950_336;

/// `10^n`.
pub open spec fn pow10(n: nat) -> int
    decreases n,
{
    if n == 0 {
        1
    } else {
        10 * pow10((n - 1) as nat)
    }
}

/// The view of the decimal `1`: `10^28`.
pub open spec fn unit() -> int {
    10_000_000_000_000_000_000_000_000_000
}

/// A power of ten is at least one.
pub proof fn lemma_pow10_positive(n: nat)
    ensures
        pow10(n) >= 1,
    decreases n,
{
    if n > 0 {
        lemma_pow10_positive((n - 1) as nat);
    }
}

/// `10^(a + b) = 10^a * 10^b`.
pub proof fn lemma_pow10_add(a: nat, b: nat)
    ensures
        pow10(a + b) == pow10(a) * pow10(b),
    decreases a,
{
    if a == 0 {
        assert(pow10(0 + b) == 1 * pow10(b));
    } else {
        lemma_pow10_add((a - 1) as nat, b);
        assert(pow10(a + b) == 10 * pow10((a - 1 + b) as nat));
        assert(10 * (pow10((a - 1) as nat) * pow10(b)) == (10 * pow10((a - 1) as nat)) * pow10(b))
            by (nonlinear_arith);
    }
}

/// The powers of ten that the bounds of the book are written with.
pub proof fn lemma_pow10_values()
    ensures
        pow10(0) == 1,
        pow10(1) == 10,
        pow10(8) == 100_000_000,
        pow10(12) == 1_000_000_000_000,
        pow10(16) == 10_000_000_000_000_000,
        pow10(20) == 100_000_000_000_000_000_000,
        pow10(27) == 1_000_000_000_000_000_000_000_000_000,
        pow10(28) == unit(),
{
    reveal_with_fuel(pow10, 30);
}

/// Scaling by a positive factor cannot bring a value back inside a bound that
/// it has already left.
proof fn lemma_scaling_grows(x: int, p: int, lo: int, hi: int)
    requires
        p >= 1,
        lo <= 0 <= hi,
        x < lo || x > hi,
    ensures
        x * p < lo || x * p > hi,
{
    if x > hi {
        assert(x * p >= x) by (nonlinear_arith)
            requires
                x >= 0,
                p >= 1,
        ;
    } else {
        assert(x * p <= x) by (nonlinear_arith)
            requires
                x <= 0,
                p >= 1,
        ;
    }
}

/// An exact decimal number `mantissa / 10^scale`.
#[derive(Clone, Copy, Debug)]
pub struct Decimal {
    mantissa: i128,
    scale: u32,
}

impl View for Decimal {
    type V = int;

    /// The value in units of `10^-28`.
    closed spec fn view(&self) -> int {
        self.mantissa * pow10((MAX_SCALE - self.scale) as nat)
    }
}

impl Decimal {
    /// Every decimal keeps its mantissa within 96 bits and its scale within 28.
    #[verifier::type_invariant]
    pub closed spec fn inv(self) -> bool {
        &&& self.scale <= MAX_SCALE
        &&& -MANTISSA_LIMIT < self.mantissa < MANTISSA_LIMIT
    }

    /// The number of fractional digits that the decimal is written with.
    pub closed spec fn spec_scale(self) -> nat {
        self.scale as nat
    }

    /// The mantissa the decimal is written with.
    pub closed spec fn spec_mantissa(self) -> int {
        self.mantissa as int
    }

    /// The mantissa that the decimal has when written with `s` fractional digits,
    /// for `s` at least its scale.
    pub closed spec fn aligned(self, s: nat) -> int {
        self.mantissa * pow10((s - self.scale) as nat)
    }

    /// Whether one of the two is zero or their sum, written with the larger of
    /// the two scales, has a mantissa of at most 96 bits. Then the sum is
    /// computed exactly.
    pub closed spec fn can_add(self, other: Decimal) -> bool {
        let s = larger(self.scale as nat, other.scale as nat);
        self.mantissa == 0 || other.mantissa == 0 || -MANTISSA_LIMIT < self.aligned(s)
            + other.aligned(s) < MANTISSA_LIMIT
    }

    /// Whether one of the two is zero or their difference, written with the
    /// larger of the two scales, has a mantissa of at most 96 bits.
    pub closed spec fn can_sub(self, other: Decimal) -> bool {
        let s = larger(self.scale as nat, other.scale as nat);
        self.mantissa == 0 || other.mantissa == 0 || -MANTISSA_LIMIT < self.aligned(s)
            - other.aligned(s) < MANTISSA_LIMIT
    }

    /// Whether one of the two is zero, or the product of the two mantissas has
    /// at most 96 bits and the sum of the two scales is at most 28. Then the
    /// product is computed exactly.
    pub closed spec fn can_mul(self, other: Decimal) -> bool {
        self.mantissa == 0 || other.mantissa == 0 || (self.scale + other.scale <= MAX_SCALE
            && -MANTISSA_LIMIT < self.mantissa * other.mantissa < MANTISSA_LIMIT)
    }

    /// The sum as it is written where it can be added exactly: the other
    /// operand where one is zero, else the sum of the mantissas at the larger
    /// of the two scales.
    pub closed spec fn sum_of(self, other: Decimal) -> Decimal {
        if self.mantissa == 0 {
            other
        } else if other.mantissa == 0 {
            self
        } else {
            let s = larger(self.scale as nat, other.scale as nat);
            Decimal { mantissa: (self.aligned(s) + other.aligned(s)) as i128, scale: s as u32 }
        }
    }

    /// The difference as it is written where it can be subtracted exactly:
    /// the operand itself, or the other one negated, where one is zero, else
    /// the difference of the mantissas at the larger of the two scales.
    pub closed spec fn difference_of(self, other: Decimal) -> Decimal {
        if self.mantissa == 0 {
            Decimal { mantissa: (-other.mantissa) as i128, scale: other.scale }
        } else if other.mantissa == 0 {
            self
        } else {
            let s = larger(self.scale as nat, other.scale as nat);
            Decimal { mantissa: (self.aligned(s) - other.aligned(s)) as i128, scale: s as u32 }
        }
    }

    /// The product as it is written where it can be multiplied exactly:
    /// plain zero where one operand is zero, else the product of the
    /// mantissas with the sum of the scales.
    pub closed spec fn product_of(self, other: Decimal) -> Decimal {
        if self.mantissa == 0 || other.mantissa == 0 {
            Decimal { mantissa: 0, scale: 0 }
        } else {
            Decimal {
                mantissa: (self.mantissa * other.mantissa) as i128,
                scale: (self.scale + other.scale) as u32,
            }
        }
    }

    /// The decimal `num / 10^scale`.
    pub fn new(num: i64, scale: u32) -> (r: Decimal)
        requires
            scale <= MAX_SCALE,
        ensures
            r@ == num * pow10((MAX_SCALE - scale) as nat),
            r.spec_scale() == scale,
            r.spec_mantissa() == num,
            r.inv(),
    {
        Decimal { mantissa: num as i128, scale }
    }

    /// The decimal `mantissa / 10^scale`, where the mantissa has at most 96
    /// bits and the scale is at most 28.
    pub fn from_parts(mantissa: i128, scale: u32) -> (r: Option<Decimal>)
        ensures
            r is Some <==> scale <= MAX_SCALE && -MANTISSA_LIMIT < mantissa < MANTISSA_LIMIT,
            r matches Some(d) ==> d@ == mantissa * pow10((MAX_SCALE - scale) as nat)
                && d.spec_scale() == scale && d.spec_mantissa() == mantissa && d.inv(),
    {
        if scale <= MAX_SCALE && -MANTISSA_LIMIT < mantissa && mantissa < MANTISSA_LIMIT {
            Some(Decimal { mantissa, scale })
        } else {
            None
        }
    }

    /// Plain zero: mantissa and scale are both zero.
    pub closed spec fn zero_value() -> Decimal {
        Decimal { mantissa: 0, scale: 0 }
    }

    /// One half, written `0.5`.
    pub closed spec fn half_value() -> Decimal {
        Decimal { mantissa: 5, scale: 1 }
    }

    /// The decimal `0.5`.
    pub fn half() -> (r: Decimal)
        ensures
            r == Decimal::half_value(),
            2 * r@ == unit(),
            r.inv(),
    {
        proof {
            lemma_pow10_values();
        }
        Decimal { mantissa: 5, scale: 1 }
    }

    /// The decimal `0`.
    pub fn zero() -> (r: Decimal)
        ensures
            r == Decimal::zero_value(),
            r@ == 0,
            r.spec_scale() == 0,
            r.inv(),
    {
        Decimal { mantissa: 0, scale: 0 }
    }

    /// The mantissa: the value is `mantissa / 10^scale`.
    pub fn mantissa(&self) -> (r: i128)
        ensures
            r == self.spec_mantissa(),
            -MANTISSA_LIMIT < r < MANTISSA_LIMIT,
    {
        proof {
            use_type_invariant(self);
        }
        self.mantissa
    }

    /// The scale: the value is `mantissa / 10^scale`.
    pub fn scale(&self) -> (r: u32)
        ensures
            r == self.spec_scale(),
            r <= MAX_SCALE,
    {
        proof {
            use_type_invariant(self);
        }
        self.scale
    }

    /// Whether the decimal is zero.
    pub fn is_zero(&self) -> (r: bool)
        ensures
            r == (self@ == 0),
    {
        proof {
            use_type_invariant(self);
            self.lemma_sign();
        }
        self.mantissa == 0
    }

    /// Whether the decimal is greater than zero.
    pub fn is_positive(&self) -> (r: bool)
        ensures
            r == (self@ > 0),
    {
        proof {
            use_type_invariant(self);
            self.lemma_sign();
        }
        self.mantissa > 0
    }

    /// Numerical `<`, whatever scales the two are written with.
    pub fn lt(&self, other: &Decimal) -> (r: bool)
        ensures
            r == (self@ < other@),
    {
        proof {
            use_type_invariant(self);
            use_type_invariant(other);
        }
        decimal_lt(self, other)
    }

    /// Numerical `<=`.
    pub fn le(&self, other: &Decimal) -> (r: bool)
        ensures
            r == (self@ <= other@),
    {
        !other.lt(self)
    }

    /// The exact sum, or `None` where it cannot be held exactly with the larger
    /// of the two scales.
    pub fn checked_add(&self, other: &Decimal) -> (r: Option<Decimal>)
        ensures
            r is Some <==> self.can_add(*other),
            r matches Some(v) ==> v == self.sum_of(*other) && v@ == self@ + other@ && v.inv(),
    {
        proof {
            use_type_invariant(self);
            use_type_invariant(other);
            if self.can_add(*other) {
                self.lemma_sum_of(*other);
            }
        }
        let s: u32 = if self.scale >= other.scale {
            self.scale
        } else {
            other.scale
        };
        let x: Option<i128> = scale_up(self.mantissa, s - self.scale);
        let y: Option<i128> = scale_up(other.mantissa, s - other.scale);
        let fits: bool = self.mantissa == 0 || other.mantissa == 0 || match (x, y) {
            (Some(a), Some(b)) => match a.checked_add(b) {
                Some(m) => -MANTISSA_LIMIT < m && m < MANTISSA_LIMIT,
                None => false,
            },
            _ => false,
        };
        proof {
            lemma_aligned_smaller(self.mantissa as int, other.mantissa as int, self.scale as nat, other.scale as nat);
        }
        if fits {
            decimal_add(self, other)
        } else {
            None
        }
    }

    /// The exact difference, or `None` where it cannot be held exactly with the
    /// larger of the two scales.
    pub fn checked_sub(&self, other: &Decimal) -> (r: Option<Decimal>)
        ensures
            r is Some <==> self.can_sub(*other),
            r matches Some(v) ==> v == self.difference_of(*other) && v@ == self@ - other@
                && v.inv(),
    {
        proof {
            use_type_invariant(self);
            use_type_invariant(other);
            if self.can_sub(*other) {
                self.lemma_difference_of(*other);
            }
        }
        let s: u32 = if self.scale >= other.scale {
            self.scale
        } else {
            other.scale
        };
        let x: Option<i128> = scale_up(self.mantissa, s - self.scale);
        let y: Option<i128> = scale_up(other.mantissa, s - other.scale);
        let fits: bool = self.mantissa == 0 || other.mantissa == 0 || match (x, y) {
            (Some(a), Some(b)) => match a.checked_sub(b) {
                Some(m) => -MANTISSA_LIMIT < m && m < MANTISSA_LIMIT,
                None => false,
            },
            _ => false,
        };
        proof {
            lemma_aligned_smaller(self.mantissa as int, other.mantissa as int, self.scale as nat, other.scale as nat);
        }
        if fits {
            decimal_sub(self, other)
        } else {
            None
        }
    }

    /// The exact product, or `None` where its mantissa would pass 96 bits or
    /// its scale 28. The views are in units of `10^-28`, so the product of two
    /// views is the view of the product times [`unit`].
    pub fn checked_mul(&self, other: &Decimal) -> (r: Option<Decimal>)
        ensures
            r is Some <==> self.can_mul(*other),
            r matches Some(v) ==> v == self.product_of(*other) && v@ * unit() == self@ * other@
                && v.inv(),
    {
        proof {
            use_type_invariant(self);
            use_type_invariant(other);
            if self.can_mul(*other) {
                self.lemma_product_of(*other);
            }
        }
        let fits: bool = self.mantissa == 0 || other.mantissa == 0 || (self.scale + other.scale
            <= MAX_SCALE && match self.mantissa.checked_mul(other.mantissa) {
            Some(m) => -MANTISSA_LIMIT < m && m < MANTISSA_LIMIT,
            None => false,
        });
        if fits {
            decimal_mul(self, other)
        } else {
            None
        }
    }

    /// What the view and the three exactness conditions are, over the mantissa
    /// and the scale.
    pub proof fn lemma_meaning(self, other: Decimal)
        ensures
            self@ == self.spec_mantissa() * pow10((MAX_SCALE - self.spec_scale()) as nat),
            self.can_add(other) <==> self.spec_mantissa() == 0 || other.spec_mantissa() == 0 || ({
                let s = larger(self.spec_scale(), other.spec_scale());
                -MANTISSA_LIMIT < self.spec_mantissa() * pow10((s - self.spec_scale()) as nat)
                    + other.spec_mantissa() * pow10((s - other.spec_scale()) as nat)
                    < MANTISSA_LIMIT
            }),
            self.can_sub(other) <==> self.spec_mantissa() == 0 || other.spec_mantissa() == 0 || ({
                let s = larger(self.spec_scale(), other.spec_scale());
                -MANTISSA_LIMIT < self.spec_mantissa() * pow10((s - self.spec_scale()) as nat)
                    - other.spec_mantissa() * pow10((s - other.spec_scale()) as nat)
                    < MANTISSA_LIMIT
            }),
            self.can_mul(other) <==> self.spec_mantissa() == 0 || other.spec_mantissa() == 0 || (
            self.spec_scale() + other.spec_scale() <= MAX_SCALE && -MANTISSA_LIMIT
                < self.spec_mantissa() * other.spec_mantissa() < MANTISSA_LIMIT),
    {
    }

    /// A decimal is zero, positive or negative as its mantissa is.
    pub proof fn lemma_sign(self)
        ensures
            (self@ == 0) == (self.spec_mantissa() == 0),
            (self@ > 0) == (self.spec_mantissa() > 0),
    {
        let p = pow10((MAX_SCALE - self.scale) as nat);
        lemma_pow10_positive((MAX_SCALE - self.scale) as nat);
        let m = self.mantissa as int;
        assert((m * p == 0) == (m == 0) && (m * p > 0) == (m > 0)) by (nonlinear_arith)
            requires
                p >= 1,
        ;
    }

    /// A decimal is less than `2^96` at its own scale, and its scale is at
    /// most 28.
    pub proof fn lemma_bounded(self)
        requires
            self.inv(),
        ensures
            self.spec_scale() <= MAX_SCALE,
            -(MANTISSA_LIMIT * pow10((MAX_SCALE - self.spec_scale()) as nat)) < self@
                < MANTISSA_LIMIT * pow10((MAX_SCALE - self.spec_scale()) as nat),
    {
        let p = pow10((MAX_SCALE - self.scale) as nat);
        lemma_pow10_positive((MAX_SCALE - self.scale) as nat);
        let m = self.mantissa as int;
        let lim = MANTISSA_LIMIT as int;
        assert(-(lim * p) < m * p < lim * p) by (nonlinear_arith)
            requires
                -lim < m < lim,
                p >= 1,
        ;
    }

    /// Plain zero is zero.
    pub proof fn lemma_zero_value()
        ensures
            Decimal::zero_value()@ == 0,
            Decimal::zero_value().spec_scale() == 0,
            Decimal::zero_value().spec_mantissa() == 0,
            Decimal::zero_value().inv(),
    {
        let z = Decimal::zero_value();
        assert(z@ == 0 * pow10(28));
    }

    /// With zero every sum, difference and product is exact.
    pub proof fn lemma_with_zero(self, other: Decimal)
        requires
            self@ == 0 || other@ == 0,
        ensures
            self.can_add(other),
            self.can_sub(other),
            self.can_mul(other),
    {
        self.lemma_sign();
        other.lemma_sign();
    }

    /// The exact sum: what it is worth and how it is written.
    pub proof fn lemma_sum_of(self, other: Decimal)
        requires
            self.inv(),
            other.inv(),
            self.can_add(other),
        ensures
            self.sum_of(other).inv(),
            self.sum_of(other)@ == self@ + other@,
            self.sum_of(other).spec_scale() <= larger(self.spec_scale(), other.spec_scale()),
            self@ != 0 && other@ != 0 ==> self.sum_of(other).spec_scale() == larger(
                self.spec_scale(),
                other.spec_scale(),
            ),
            self@ != 0 && other@ != 0 ==> self.sum_of(other).spec_mantissa() == self.spec_mantissa()
                * pow10((larger(self.spec_scale(), other.spec_scale()) - self.spec_scale()) as nat)
                + other.spec_mantissa() * pow10(
                (larger(self.spec_scale(), other.spec_scale()) - other.spec_scale()) as nat,
            ),
            self@ == 0 ==> self.sum_of(other) == other,
            self@ != 0 && other@ == 0 ==> self.sum_of(other) == self,
    {
        self.lemma_sign();
        other.lemma_sign();
        if self.mantissa != 0 && other.mantissa != 0 {
            let t = larger(self.scale as nat, other.scale as nat);
            self.lemma_view_aligned(t);
            other.lemma_view_aligned(t);
            let sum = self.aligned(t) + other.aligned(t);
            let q = pow10((MAX_SCALE - t) as nat);
            assert(sum * q == self@ + other@) by (nonlinear_arith)
                requires
                    self@ == self.aligned(t) * q,
                    other@ == other.aligned(t) * q,
                    sum == self.aligned(t) + other.aligned(t),
            ;
        }
    }

    /// The exact difference: what it is worth and how it is written.
    pub proof fn lemma_difference_of(self, other: Decimal)
        requires
            self.inv(),
            other.inv(),
            self.can_sub(other),
        ensures
            self.difference_of(other).inv(),
            self.difference_of(other)@ == self@ - other@,
            self.difference_of(other).spec_scale() <= larger(
                self.spec_scale(),
                other.spec_scale(),
            ),
            self@ != 0 && other@ != 0 ==> self.difference_of(other).spec_scale() == larger(
                self.spec_scale(),
                other.spec_scale(),
            ),
            self@ != 0 && other@ != 0 ==> self.difference_of(other).spec_mantissa()
                == self.spec_mantissa() * pow10(
                (larger(self.spec_scale(), other.spec_scale()) - self.spec_scale()) as nat,
            ) - other.spec_mantissa() * pow10(
                (larger(self.spec_scale(), other.spec_scale()) - other.spec_scale()) as nat,
            ),
            self@ == 0 ==> self.difference_of(other).spec_scale() == other.spec_scale()
                && self.difference_of(other).spec_mantissa() == -other.spec_mantissa(),
            other@ == 0 && self@ != 0 ==> self.difference_of(other) == self,
            self@ != 0 && other@ != 0 ==> -(MANTISSA_LIMIT * pow10(
                (MAX_SCALE - larger(self.spec_scale(), other.spec_scale())) as nat,
            )) < self@ - other@ < MANTISSA_LIMIT * pow10(
                (MAX_SCALE - larger(self.spec_scale(), other.spec_scale())) as nat,
            ),
    {
        self.lemma_sign();
        other.lemma_sign();
        if self.mantissa == 0 {
            let r = self.difference_of(other);
            let p = pow10((MAX_SCALE - other.scale) as nat);
            assert(r@ == -other@) by (nonlinear_arith)
                requires
                    r@ == (-other.mantissa) * p,
                    other@ == other.mantissa * p,
            ;
        } else if other.mantissa != 0 {
            let t = larger(self.scale as nat, other.scale as nat);
            self.lemma_view_aligned(t);
            other.lemma_view_aligned(t);
            let diff = self.aligned(t) - other.aligned(t);
            let q = pow10((MAX_SCALE - t) as nat);
            lemma_pow10_positive((MAX_SCALE - t) as nat);
            let lim = MANTISSA_LIMIT as int;
            assert(diff * q == self@ - other@ && -(lim * q) < diff * q < lim * q)
                by (nonlinear_arith)
                requires
                    self@ == self.aligned(t) * q,
                    other@ == other.aligned(t) * q,
                    diff == self.aligned(t) - other.aligned(t),
                    -lim < diff < lim,
                    q >= 1,
            ;
        }
    }

    /// The exact product: what it is worth and how it is written.
    pub proof fn lemma_product_of(self, other: Decimal)
        requires
            self.inv(),
            other.inv(),
            self.can_mul(other),
        ensures
            self.product_of(other).inv(),
            self.product_of(other)@ * unit() == self@ * other@,
            self@ != 0 && other@ != 0 ==> self.product_of(other).spec_scale() == self.spec_scale()
                + other.spec_scale() && self.product_of(other).spec_mantissa()
                == self.spec_mantissa() * other.spec_mantissa(),
            self@ == 0 || other@ == 0 ==> self.product_of(other) == Decimal::zero_value(),
    {
        self.lemma_sign();
        other.lemma_sign();
        lemma_pow10_values();
        let r = self.product_of(other);
        let a = self.mantissa as int;
        let b = other.mantissa as int;
        if a == 0 || b == 0 {
            assert(r@ == 0 * pow10(28));
            assert(self@ * other@ == 0) by (nonlinear_arith)
                requires
                    self@ == 0 || other@ == 0,
            ;
        } else {
            let ea = (MAX_SCALE - self.scale) as nat;
            let eb = (MAX_SCALE - other.scale) as nat;
            let er = (MAX_SCALE - self.scale - other.scale) as nat;
            lemma_pow10_add(ea, eb);
            lemma_pow10_add(er, 28);
            assert(ea + eb == er + 28);
            let p = pow10(ea);
            let q = pow10(eb);
            let w = pow10(er);
            assert((a * b * w) * unit() == (a * p) * (b * q)) by (nonlinear_arith)
                requires
                    p * q == w * unit(),
            ;
        }
    }

    /// The view is the mantissa written with 28 fractional digits.
    pub proof fn lemma_view_aligned(self, s: nat)
        requires
            self.spec_scale() <= s <= MAX_SCALE,
        ensures
            self@ == self.aligned(s) * pow10((MAX_SCALE - s) as nat),
    {
        lemma_pow10_add((s - self.scale) as nat, (MAX_SCALE - s) as nat);
        let m = self.mantissa as int;
        let p = pow10((s - self.scale) as nat);
        let q = pow10((MAX_SCALE - s) as nat);
        assert(m * (p * q) == (m * p) * q) by (nonlinear_arith);
    }

    /// Two decimals written with at most `s` fractional digits can be
    /// subtracted exactly if their difference stays below `2^96 / 10^s`.
    pub proof fn lemma_can_sub(self, other: Decimal, s: nat)
        requires
            self.spec_scale() <= s,
            other.spec_scale() <= s,
            s <= MAX_SCALE,
            -(MANTISSA_LIMIT * pow10((MAX_SCALE - s) as nat)) < self@ - other@ < MANTISSA_LIMIT
                * pow10((MAX_SCALE - s) as nat),
        ensures
            self.can_sub(other),
    {
        let t = larger(self.scale as nat, other.scale as nat);
        self.lemma_view_aligned(t);
        other.lemma_view_aligned(t);
        let diff = self.aligned(t) - other.aligned(t);
        let q = pow10((MAX_SCALE - t) as nat);
        assert(diff * q == self@ - other@) by (nonlinear_arith)
            requires
                self@ == self.aligned(t) * q,
                other@ == other.aligned(t) * q,
                diff == self.aligned(t) - other.aligned(t),
        ;
        lemma_bound_at_scale(diff, t, s);
    }

    /// Two decimals written with at most `s` and `t` fractional digits, where
    /// `s + t <= 28`, can be multiplied exactly if the product of their values
    /// stays below `2^96 / 10^(s + t)`.
    pub proof fn lemma_can_mul(self, other: Decimal, s: nat, t: nat)
        requires
            self.spec_scale() <= s,
            other.spec_scale() <= t,
            s + t <= MAX_SCALE,
            -(MANTISSA_LIMIT * pow10((2 * MAX_SCALE - s - t) as nat)) < self@ * other@
                < MANTISSA_LIMIT * pow10((2 * MAX_SCALE - s - t) as nat),
        ensures
            self.can_mul(other),
    {
        let a = self.mantissa as int;
        let b = other.mantissa as int;
        let ea = (MAX_SCALE - self.scale) as nat;
        let eb = (MAX_SCALE - other.scale) as nat;
        let p = pow10(ea);
        let q = pow10(eb);
        lemma_pow10_add(ea, eb);
        assert((a * p) * (b * q) == (a * b) * (p * q)) by (nonlinear_arith);
        // pow10(ea + eb) is at least the bound's power of ten
        let k = (2 * MAX_SCALE - s - t) as nat;
        let extra = (ea + eb - k) as nat;
        lemma_pow10_add(k, extra);
        lemma_pow10_positive(extra);
        lemma_pow10_positive(k);
        let prod = a * b;
        let lim = MANTISSA_LIMIT as int;
        if prod >= lim {
            assert(prod * (pow10(k) * pow10(extra)) >= lim * pow10(k)) by (nonlinear_arith)
                requires
                    prod >= lim,
                    lim > 0,
                    pow10(k) >= 1,
                    pow10(extra) >= 1,
            ;
        }
        if prod <= -lim {
            assert(prod * (pow10(k) * pow10(extra)) <= -(lim * pow10(k))) by (nonlinear_arith)
                requires
                    prod <= -lim,
                    lim > 0,
                    pow10(k) >= 1,
                    pow10(extra) >= 1,
            ;
        }
    }
}

/// The larger of two numbers.
pub open spec fn larger(a: nat, b: nat) -> nat {
    if a >= b {
        a
    } else {
        b
    }
}

/// A mantissa `m` at scale `t` whose value is below `2^96 / 10^s`, for
/// `t <= s`, is itself below `2^96`.
proof fn lemma_bound_at_scale(m: int, t: nat, s: nat)
    requires
        t <= s <= MAX_SCALE,
        -(MANTISSA_LIMIT * pow10((MAX_SCALE - s) as nat)) < m * pow10((MAX_SCALE - t) as nat)
            < MANTISSA_LIMIT * pow10((MAX_SCALE - s) as nat),
    ensures
        -MANTISSA_LIMIT < m < MANTISSA_LIMIT,
{
    let k = (MAX_SCALE - s) as nat;
    let extra = (s - t) as nat;
    lemma_pow10_add(k, extra);
    lemma_pow10_positive(extra);
    lemma_pow10_positive(k);
    let lim = MANTISSA_LIMIT as int;
    assert(pow10((MAX_SCALE - t) as nat) == pow10(k) * pow10(extra));
    if m >= lim {
        assert(m * (pow10(k) * pow10(extra)) >= lim * pow10(k)) by (nonlinear_arith)
            requires
                m >= lim,
                lim > 0,
                pow10(k) >= 1,
                pow10(extra) >= 1,
        ;
    }
    if m <= -lim {
        assert(m * (pow10(k) * pow10(extra)) <= -(lim * pow10(k))) by (nonlinear_arith)
            requires
                m <= -lim,
                lim > 0,
                pow10(k) >= 1,
                pow10(extra) >= 1,
        ;
    }
}

/// Of two mantissas brought to their larger scale, the one that already has
/// that scale is unchanged.
proof fn lemma_aligned_smaller(a: int, b: int, sa: nat, sb: nat)
    ensures
        sa >= sb ==> a * pow10((larger(sa, sb) - sa) as nat) == a,
        sb >= sa ==> b * pow10((larger(sa, sb) - sb) as nat) == b,
{
    assert(pow10(0) == 1);
    assert(a * 1 == a);
    assert(b * 1 == b);
}

/// `m * 10^k`, or `None` where that does not fit in 128 bits.
fn scale_up(m: i128, k: u32) -> (r: Option<i128>)
    requires
        k <= MAX_SCALE,
    ensures
        r matches Some(v) ==> v == m * pow10(k as nat),
        r is None ==> m * pow10(k as nat) < i128::MIN || m * pow10(k as nat) > i128::MAX,
{
    let mut acc: i128 = m;
    let mut i: u32 = 0;
    while i < k
        invariant
            i <= k <= MAX_SCALE,
            acc == m * pow10(i as nat),
        decreases k - i,
    {
        proof {
            assert(pow10((i + 1) as nat) == 10 * pow10(i as nat));
            assert(m * (10 * pow10(i as nat)) == (m * pow10(i as nat)) * 10) by (nonlinear_arith);
        }
        match acc.checked_mul(10) {
            Some(v) => {
                acc = v;
            },
            None => {
                proof {
                    let rest = (k - (i + 1)) as nat;
                    lemma_pow10_add((i + 1) as nat, rest);
                    lemma_pow10_positive(rest);
                    let x = m * pow10((i + 1) as nat);
                    assert(m * (pow10((i + 1) as nat) * pow10(rest)) == x * pow10(rest))
                        by (nonlinear_arith)
                        requires
                            x == m * pow10((i + 1) as nat),
                    ;
                    lemma_scaling_grows(x, pow10(rest), i128::MIN as int, i128::MAX as int);
                }
                return None;
            },
        }
        i = i + 1;
    }
    Some(acc)
}

/// Calls `rust_decimal::Decimal::checked_add` on the two operands. That
/// function returns the second operand if the first is zero and the first if
/// the second is zero, before it aligns anything; and where the sum written
/// with the larger scale has a mantissa within 96 bits, it returns the sum
/// of the mantissas, aligned without rounding, at the larger of the two
/// scales.
#[verifier::external_body]
fn decimal_add(a: &Decimal, b: &Decimal) -> (r: Option<Decimal>)
    requires
        a.inv(),
        b.inv(),
        a.can_add(*b),
    ensures
        r == Some(a.sum_of(*b)),
{
    let x = rust_decimal::Decimal::from_i128_with_scale(a.mantissa, a.scale);
    let y = rust_decimal::Decimal::from_i128_with_scale(b.mantissa, b.scale);
    match x.checked_add(y) {
        Some(z) => Some(Decimal { mantissa: z.mantissa(), scale: z.scale() }),
        None => None,
    }
}

/// Calls `rust_decimal::Decimal::checked_sub` on the two operands. That
/// function returns the second operand negated if the first is zero and the
/// first if the second is zero, before it aligns anything; and where the
/// difference written with the larger scale has a mantissa within 96 bits,
/// it returns the difference of the mantissas, aligned without rounding, at
/// the larger of the two scales.
#[verifier::external_body]
fn decimal_sub(a: &Decimal, b: &Decimal) -> (r: Option<Decimal>)
    requires
        a.inv(),
        b.inv(),
        a.can_sub(*b),
    ensures
        r == Some(a.difference_of(*b)),
{
    let x = rust_decimal::Decimal::from_i128_with_scale(a.mantissa, a.scale);
    let y = rust_decimal::Decimal::from_i128_with_scale(b.mantissa, b.scale);
    match x.checked_sub(y) {
        Some(z) => Some(Decimal { mantissa: z.mantissa(), scale: z.scale() }),
        None => None,
    }
}

/// Calls `rust_decimal::Decimal::checked_mul` on the two operands. That
/// function returns plain zero if an operand is zero; and where the product
/// of the mantissas is within 96 bits and the scales add up to at most 28, it
/// returns the product of the mantissas with the sum of the scales, without
/// rounding.
#[verifier::external_body]
fn decimal_mul(a: &Decimal, b: &Decimal) -> (r: Option<Decimal>)
    requires
        a.inv(),
        b.inv(),
        a.can_mul(*b),
    ensures
        r == Some(a.product_of(*b)),
{
    let x = rust_decimal::Decimal::from_i128_with_scale(a.mantissa, a.scale);
    let y = rust_decimal::Decimal::from_i128_with_scale(b.mantissa, b.scale);
    match x.checked_mul(y) {
        Some(z) => Some(Decimal { mantissa: z.mantissa(), scale: z.scale() }),
        None => None,
    }
}

/// Calls `<` of `rust_decimal::Decimal`, which orders decimals by their
/// numerical value, whatever their scales.
#[verifier::external_body]
fn decimal_lt(a: &Decimal, b: &Decimal) -> (r: bool)
    requires
        a.inv(),
        b.inv(),
    ensures
        r == (a@ < b@),
{
    let x = rust_decimal::Decimal::from_i128_with_scale(a.mantissa, a.scale);
    let y = rust_decimal::Decimal::from_i128_with_scale(b.mantissa, b.scale);
    x < y
}

/// Calls `==` of `rust_decimal::Decimal`, which holds of two decimals with
/// the same numerical value, whatever their scales.
#[verifier::external_body]
fn decimal_eq(a: &Decimal, b: &Decimal) -> (r: bool)
    requires
        a.inv(),
        b.inv(),
    ensures
        r == (a@ == b@),
{
    let x = rust_decimal::Decimal::from_i128_with_scale(a.mantissa, a.scale);
    let y = rust_decimal::Decimal::from_i128_with_scale(b.mantissa, b.scale);
    x == y
}

impl PartialEq for Decimal {
    /// Numerical equality: `1.0 == 1.00`.
    fn eq(&self, other: &Decimal) -> (r: bool) {
        proof {
            use_type_invariant(self);
            use_type_invariant(other);
        }
        decimal_eq(self, other)
    }
}

impl vstd::std_specs::cmp::PartialEqSpecImpl for Decimal {
    open spec fn obeys_eq_spec() -> bool {
        true
    }

    open spec fn eq_spec(&self, other: &Decimal) -> bool {
        self@ == other@
    }
}

} // verus!
