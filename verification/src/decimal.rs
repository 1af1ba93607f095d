//! Exact signed fixed-point decimal arithmetic.
//!
//! A `Decimal` is a mantissa scaled by a power of ten: `(m, s)` stands for
//! `m / 10^s`.  Scales run up to [`MAX_SCALE`] and mantissas are bounded so
//! that every value can be rescaled to `MAX_SCALE` without leaving `i128`.
//! The ghost measure of a decimal is [`Decimal::val`], its value in units of
//! `10^-MAX_SCALE`; all contracts are stated over it.  Addition and
//! multiplication are exact wherever they return a value; an out-of-range
//! result is reported as `None` (arithmetic overflow is a fatal condition
//! for the aggregation engine).

use vstd::prelude::*;

verus! {

/// Largest representable scale (number of decimal fraction digits).
pub const MAX_SCALE: u32 = 18;

/// Mantissa bound: `10^19`, so a mantissa rescaled to `MAX_SCALE` stays
/// below `10^37`, comfortably inside `i128`.
pub const MANT_LIMIT: i128 = 10_000_000_000_000_000_000;

/// `10^e` over the mathematical integers.
pub open spec fn pow10(e: nat) -> int
    decreases e,
{
    if e == 0 {
        1
    } else {
        10 * pow10((e - 1) as nat)
    }
}

pub proof fn lemma_pow10_pos(e: nat)
    ensures
        pow10(e) >= 1,
    decreases e,
{
    if e > 0 {
        lemma_pow10_pos((e - 1) as nat);
    }
}

/// `10^(a+b) == 10^a * 10^b`.
pub proof fn lemma_pow10_adds(a: nat, b: nat)
    ensures
        pow10(a + b) == pow10(a) * pow10(b),
    decreases a,
{
    if a == 0 {
    } else {
        lemma_pow10_adds((a - 1) as nat, b);
        assert(pow10(a + b) == 10 * pow10((a - 1) as nat + b));
        assert(10 * (pow10((a - 1) as nat) * pow10(b)) == (10 * pow10((a - 1) as nat)) * pow10(b))
            by (nonlinear_arith);
    }
}

/// `10^a <= 10^b` whenever `a <= b`.
pub proof fn lemma_pow10_increases(a: nat, b: nat)
    requires
        a <= b,
    ensures
        pow10(a) <= pow10(b),
{
    lemma_pow10_adds(a, (b - a) as nat);
    lemma_pow10_pos(a);
    lemma_pow10_pos((b - a) as nat);
    assert(pow10(a) * 1 <= pow10(a) * pow10((b - a) as nat)) by (nonlinear_arith)
        requires
            pow10(a) >= 1,
            pow10((b - a) as nat) >= 1,
    ;
}

/// Concrete values of the powers of ten the executable code leans on.
pub proof fn lemma_pow10_values()
    ensures
        pow10(18) == 1_000_000_000_000_000_000,
        pow10(19) == MANT_LIMIT,
        pow10(37) == 10_000_000_000_000_000_000_000_000_000_000_000_000,
{
    reveal_with_fuel(pow10, 38);
}

/// `|a * b| <= A * B` when `|a| <= A` and `0 <= b <= B`.
proof fn lemma_mul_abs_bound(a: int, b: int, cap_a: int, cap_b: int)
    requires
        -cap_a <= a <= cap_a,
        0 <= b <= cap_b,
    ensures
        -(cap_a * cap_b) <= a * b <= cap_a * cap_b,
{
    assert(-(cap_a * cap_b) <= a * b <= cap_a * cap_b) by (nonlinear_arith)
        requires
            -cap_a <= a <= cap_a,
            0 <= b <= cap_b,
    ;
}

/// A well-formed decimal's value is bounded by `10^37`.
pub proof fn lemma_val_bound(d: Decimal)
    requires
        d.inv(),
    ensures
        -pow10(37) <= d.val() <= pow10(37),
        pow10(37) == 10_000_000_000_000_000_000_000_000_000_000_000_000,
{
    let e: nat = (MAX_SCALE - d.scale) as nat;
    lemma_pow10_values();
    lemma_pow10_pos(e);
    lemma_pow10_increases(e, 18);
    lemma_mul_abs_bound(d.mantissa as int, pow10(e), MANT_LIMIT as int, 1_000_000_000_000_000_000);
    lemma_pow10_adds(19, 18);
}

/// Exact signed decimal: the value `mantissa / 10^scale`.
#[derive(Clone, Copy, Debug, PartialEq, Eq, Structural)]
pub struct Decimal {
    pub mantissa: i128,
    pub scale: u32,
}

impl Decimal {
    /// Well-formedness: scale and mantissa within the representable range.
    pub open spec fn inv(self) -> bool {
        &&& self.scale <= MAX_SCALE
        &&& -MANT_LIMIT <= self.mantissa <= MANT_LIMIT
    }

    /// The value of the decimal in units of `10^-MAX_SCALE`.
    pub open spec fn val(self) -> int
        recommends
            self.inv(),
    {
        self.mantissa * pow10((MAX_SCALE - self.scale) as nat)
    }

    /// The additive identity.
    pub fn zero() -> (r: Decimal)
        ensures
            r.inv(),
            r.val() == 0,
            r == (Decimal { mantissa: 0i128, scale: 0u32 }),
    {
        Decimal { mantissa: 0, scale: 0 }
    }

    /// Build a decimal from an explicit mantissa and scale; `None` exactly
    /// when the scale is out of range.
    pub fn new(mantissa: i64, scale: u32) -> (r: Option<Decimal>)
        ensures
            r is Some <==> scale <= MAX_SCALE,
            r matches Some(d) ==> d == (Decimal { mantissa: mantissa as i128, scale }) && d.inv(),
    {
        if scale <= MAX_SCALE {
            Some(Decimal { mantissa: mantissa as i128, scale })
        } else {
            None
        }
    }

    /// Whether the decimal denotes zero.
    pub fn is_zero(self) -> (r: bool)
        requires
            self.inv(),
        ensures
            r == (self.val() == 0),
    {
        proof {
            let p: int = pow10((MAX_SCALE - self.scale) as nat);
            lemma_pow10_pos((MAX_SCALE - self.scale) as nat);
            assert((self.mantissa * p == 0) == (self.mantissa == 0)) by (nonlinear_arith)
                requires
                    p >= 1,
            ;
        }
        self.mantissa == 0
    }

    /// Negation; always exact.
    pub fn neg(self) -> (r: Decimal)
        requires
            self.inv(),
        ensures
            r.inv(),
            r.val() == -self.val(),
            r == spec_neg(self),
    {
        proof {
            let p: int = pow10((MAX_SCALE - self.scale) as nat);
            assert((-self.mantissa) * p == -(self.mantissa * p)) by (nonlinear_arith);
        }
        Decimal { mantissa: -self.mantissa, scale: self.scale }
    }
}

/// `10^e` as an `i128`, for the scales the kernel works at.
fn pow10_i128(e: u32) -> (r: i128)
    requires
        e <= MAX_SCALE,
    ensures
        r == pow10(e as nat),
        1 <= r <= 1_000_000_000_000_000_000,
{
    proof {
        lemma_pow10_values();
    }
    let mut acc: i128 = 1;
    let mut i: u32 = 0;
    while i < e
        invariant
            i <= e <= MAX_SCALE,
            acc == pow10(i as nat),
            1 <= acc,
        decreases e - i,
    {
        proof {
            lemma_pow10_increases((i + 1) as nat, MAX_SCALE as nat);
            lemma_pow10_values();
        }
        acc = acc * 10;
        i = i + 1;
    }
    proof {
        lemma_pow10_increases(e as nat, MAX_SCALE as nat);
        lemma_pow10_values();
    }
    acc
}

impl Decimal {
    /// The mantissa rescaled to `MAX_SCALE`: the value itself, as an `i128`.
    fn val_i128(self) -> (r: i128)
        requires
            self.inv(),
        ensures
            r == self.val(),
    {
        let p: i128 = pow10_i128(MAX_SCALE - self.scale);
        proof {
            lemma_pow10_values();
            lemma_mul_abs_bound(
                self.mantissa as int,
                p as int,
                MANT_LIMIT as int,
                1_000_000_000_000_000_000,
            );
        }
        self.mantissa * p
    }

    /// Strict value order.
    pub fn lt(self, other: Decimal) -> (r: bool)
        requires
            self.inv(),
            other.inv(),
        ensures
            r == (self.val() < other.val()),
    {
        self.val_i128() < other.val_i128()
    }

    /// Value order.
    pub fn le(self, other: Decimal) -> (r: bool)
        requires
            self.inv(),
            other.inv(),
        ensures
            r == (self.val() <= other.val()),
    {
        self.val_i128() <= other.val_i128()
    }

    /// Value equality (two representations of one value compare equal).
    pub fn eq_val(self, other: Decimal) -> (r: bool)
        requires
            self.inv(),
            other.inv(),
        ensures
            r == (self.val() == other.val()),
    {
        self.val_i128() == other.val_i128()
    }
}

/// Negation at the representation level.
pub open spec fn spec_neg(a: Decimal) -> Decimal
    recommends
        a.inv(),
{
    Decimal { mantissa: (-a.mantissa) as i128, scale: a.scale }
}

/// Exact sum at the representation level: both mantissas are brought to the
/// larger scale and added; `None` when the exact result leaves the
/// representable range.
pub open spec fn spec_add(a: Decimal, b: Decimal) -> Option<Decimal>
    recommends
        a.inv(),
        b.inv(),
{
    let s: u32 = if a.scale >= b.scale {
        a.scale
    } else {
        b.scale
    };
    let m: int = a.mantissa * pow10((s - a.scale) as nat) + b.mantissa * pow10((s - b.scale) as nat);
    if -MANT_LIMIT <= m <= MANT_LIMIT {
        Some(Decimal { mantissa: m as i128, scale: s })
    } else {
        None
    }
}

/// Exact difference: `a + (-b)`.
pub open spec fn spec_sub(a: Decimal, b: Decimal) -> Option<Decimal>
    recommends
        a.inv(),
        b.inv(),
{
    spec_add(a, spec_neg(b))
}

/// Exact product at the representation level: mantissas multiply and scales
/// add; `None` when the exact result leaves the representable range.
pub open spec fn spec_mul(a: Decimal, b: Decimal) -> Option<Decimal>
    recommends
        a.inv(),
        b.inv(),
{
    let m: int = a.mantissa * b.mantissa;
    if a.scale + b.scale <= MAX_SCALE && -MANT_LIMIT <= m <= MANT_LIMIT {
        Some(Decimal { mantissa: m as i128, scale: (a.scale + b.scale) as u32 })
    } else {
        None
    }
}

/// Rescaling a mantissa twice is one rescale by the combined exponent.
proof fn lemma_rescale_twice(m: int, d1: nat, d2: nat)
    ensures
        (m * pow10(d1)) * pow10(d2) == m * pow10(d1 + d2),
{
    lemma_pow10_adds(d1, d2);
    assert((m * pow10(d1)) * pow10(d2) == m * (pow10(d1) * pow10(d2))) by (nonlinear_arith);
}

/// The sum of two well-formed decimals, where representable, carries the sum
/// of their values.
pub proof fn lemma_add_val(a: Decimal, b: Decimal)
    requires
        a.inv(),
        b.inv(),
    ensures
        spec_add(a, b) matches Some(d) ==> d.inv() && d.val() == a.val() + b.val(),
{
    let s: u32 = if a.scale >= b.scale {
        a.scale
    } else {
        b.scale
    };
    if spec_add(a, b) is Some {
        let d = spec_add(a, b)->Some_0;
        let pa: int = pow10((s - a.scale) as nat);
        let pb: int = pow10((s - b.scale) as nat);
        let ps: int = pow10((MAX_SCALE - s) as nat);
        assert((a.mantissa * pa + b.mantissa * pb) * ps == (a.mantissa * pa) * ps + (b.mantissa * pb)
            * ps) by (nonlinear_arith);
        lemma_rescale_twice(a.mantissa as int, (s - a.scale) as nat, (MAX_SCALE - s) as nat);
        lemma_rescale_twice(b.mantissa as int, (s - b.scale) as nat, (MAX_SCALE - s) as nat);
    }
}

/// The product of two well-formed decimals, where representable, carries the
/// product of their values (read at the common unit `10^-MAX_SCALE`, which
/// squares under multiplication).
pub proof fn lemma_mul_val(a: Decimal, b: Decimal)
    requires
        a.inv(),
        b.inv(),
    ensures
        spec_mul(a, b) matches Some(d) ==> d.inv() && d.val() * pow10(MAX_SCALE as nat) == a.val()
            * b.val(),
{
    if spec_mul(a, b) is Some {
        let d = spec_mul(a, b)->Some_0;
        let ea: nat = (MAX_SCALE - a.scale) as nat;
        let eb: nat = (MAX_SCALE - b.scale) as nat;
        let ed: nat = (MAX_SCALE - (a.scale + b.scale)) as nat;
        lemma_pow10_adds(ed, MAX_SCALE as nat);
        lemma_pow10_adds(ea, eb);
        assert(ea + eb == ed + MAX_SCALE as nat);
        assert((a.mantissa * b.mantissa) * (pow10(ed) * pow10(MAX_SCALE as nat)) == (a.mantissa
            * pow10(ea)) * (b.mantissa * pow10(eb))) by (nonlinear_arith)
            requires
                pow10(ed) * pow10(MAX_SCALE as nat) == pow10(ea) * pow10(eb),
        ;
        assert(d.val() * pow10(MAX_SCALE as nat) == (a.mantissa * b.mantissa) * (pow10(ed) * pow10(
            MAX_SCALE as nat,
        ))) by (nonlinear_arith)
            requires
                d.val() == (a.mantissa * b.mantissa) * pow10(ed),
        ;
    }
}

/// Two decimals of one scale carrying one value share their mantissa.
proof fn lemma_val_injective(a: Decimal, b: Decimal)
    requires
        a.inv(),
        b.inv(),
        a.scale == b.scale,
        a.val() == b.val(),
    ensures
        a == b,
{
    let p: int = pow10((MAX_SCALE - a.scale) as nat);
    lemma_pow10_pos((MAX_SCALE - a.scale) as nat);
    assert(a.mantissa == b.mantissa) by (nonlinear_arith)
        requires
            a.mantissa * p == b.mantissa * p,
            p >= 1,
    ;
}

/// Law: zero is the additive unit, `a + 0 == a`.
pub proof fn lemma_add_zero_identity(a: Decimal)
    requires
        a.inv(),
    ensures
        spec_add(a, Decimal { mantissa: 0i128, scale: 0u32 }) == Some(a),
{
    assert(a.mantissa * pow10(0) == a.mantissa);
    assert(0int * pow10(a.scale as nat) == 0);
}

/// Law: zero is the additive unit on the left as well, `0 + b == b`.
pub proof fn lemma_zero_add_identity(b: Decimal)
    requires
        b.inv(),
    ensures
        spec_add(Decimal { mantissa: 0i128, scale: 0u32 }, b) == Some(b),
{
    assert(b.mantissa * pow10(0) == b.mantissa);
    assert(0int * pow10(b.scale as nat) == 0);
}

/// Law: addition commutes, `a + b == b + a`.
pub proof fn lemma_add_commutes(a: Decimal, b: Decimal)
    requires
        a.inv(),
        b.inv(),
    ensures
        spec_add(a, b) == spec_add(b, a),
{
}

/// Law: addition associates, `(a + b) + c == a + (b + c)`, wherever both
/// groupings stay representable.
pub proof fn lemma_add_associates(a: Decimal, b: Decimal, c: Decimal)
    requires
        a.inv(),
        b.inv(),
        c.inv(),
    ensures
        (spec_add(a, b) is Some && spec_add(spec_add(a, b)->Some_0, c) is Some && spec_add(b, c)
            is Some && spec_add(a, spec_add(b, c)->Some_0) is Some) ==> spec_add(
            spec_add(a, b)->Some_0,
            c,
        ) == spec_add(a, spec_add(b, c)->Some_0),
{
    if spec_add(a, b) is Some && spec_add(spec_add(a, b)->Some_0, c) is Some && spec_add(b, c)
        is Some && spec_add(a, spec_add(b, c)->Some_0) is Some {
        let ab = spec_add(a, b)->Some_0;
        let bc = spec_add(b, c)->Some_0;
        let l = spec_add(ab, c)->Some_0;
        let r = spec_add(a, bc)->Some_0;
        lemma_add_val(a, b);
        lemma_add_val(ab, c);
        lemma_add_val(b, c);
        lemma_add_val(a, bc);
        lemma_val_injective(l, r);
    }
}

/// Law: a value taken away from itself leaves zero, `is_zero(a - a)`.
pub proof fn lemma_sub_self_is_zero(a: Decimal)
    requires
        a.inv(),
    ensures
        spec_sub(a, a) matches Some(d) && d.val() == 0,
{
    assert(a.mantissa * pow10(0) + (-a.mantissa) * pow10(0) == 0);
    lemma_add_val(a, spec_neg(a));
    let p: int = pow10((MAX_SCALE - a.scale) as nat);
    assert((-a.mantissa) * p == -(a.mantissa * p)) by (nonlinear_arith);
}

/// Law: multiplication commutes, `a * b == b * a`.
pub proof fn lemma_mul_commutes(a: Decimal, b: Decimal)
    requires
        a.inv(),
        b.inv(),
    ensures
        spec_mul(a, b) == spec_mul(b, a),
{
    assert(a.mantissa * b.mantissa == b.mantissa * a.mantissa) by (nonlinear_arith);
}

/// Law: multiplication associates, `(a * b) * c == a * (b * c)`, wherever
/// both groupings stay representable.
pub proof fn lemma_mul_associates(a: Decimal, b: Decimal, c: Decimal)
    requires
        a.inv(),
        b.inv(),
        c.inv(),
    ensures
        (spec_mul(a, b) is Some && spec_mul(spec_mul(a, b)->Some_0, c) is Some && spec_mul(b, c)
            is Some && spec_mul(a, spec_mul(b, c)->Some_0) is Some) ==> spec_mul(
            spec_mul(a, b)->Some_0,
            c,
        ) == spec_mul(a, spec_mul(b, c)->Some_0),
{
    assert((a.mantissa * b.mantissa) * c.mantissa == a.mantissa * (b.mantissa * c.mantissa))
        by (nonlinear_arith);
}

/// Sum of the values of a sequence of decimals, over the integers.
pub open spec fn sum_vals(s: Seq<Decimal>) -> int
    decreases s.len(),
{
    if s.len() == 0 {
        0
    } else {
        sum_vals(s.drop_last()) + s.last().val()
    }
}

/// Exact left-to-right sum at the representation level; `None` as soon as a
/// partial sum leaves the representable range.
pub open spec fn spec_sum(s: Seq<Decimal>) -> Option<Decimal>
    decreases s.len(),
{
    if s.len() == 0 {
        Some(Decimal { mantissa: 0i128, scale: 0u32 })
    } else {
        match spec_sum(s.drop_last()) {
            Some(acc) => spec_add(acc, s.last()),
            None => None,
        }
    }
}

/// A representable sum carries the sum of the values.
pub proof fn lemma_sum_val(s: Seq<Decimal>)
    requires
        forall|k: int| 0 <= k < s.len() ==> #[trigger] s[k].inv(),
    ensures
        spec_sum(s) matches Some(d) ==> d.inv() && d.val() == sum_vals(s),
    decreases s.len(),
{
    if s.len() > 0 && spec_sum(s) is Some {
        lemma_sum_val(s.drop_last());
        lemma_add_val(spec_sum(s.drop_last())->Some_0, s.last());
    }
}

/// Once a prefix sum has left the range, so has the whole sum.
proof fn lemma_sum_none_extends(s: Seq<Decimal>, i: int)
    requires
        0 <= i <= s.len(),
        spec_sum(s.subrange(0, i)) is None,
    ensures
        spec_sum(s) is None,
    decreases s.len() - i,
{
    if i == s.len() {
        assert(s.subrange(0, i) =~= s);
    } else {
        assert(s.subrange(0, i + 1).drop_last() =~= s.subrange(0, i));
        lemma_sum_none_extends(s, i + 1);
    }
}

/// Exact sum of a vector of decimals; `None` reports an out-of-range
/// partial sum.
pub fn sum(xs: &Vec<Decimal>) -> (r: Option<Decimal>)
    requires
        forall|k: int| 0 <= k < xs@.len() ==> (#[trigger] xs@[k]).inv(),
    ensures
        r == spec_sum(xs@),
        r matches Some(d) ==> d.inv() && d.val() == sum_vals(xs@),
{
    proof {
        lemma_sum_val(xs@);
    }
    let mut acc: Decimal = Decimal::zero();
    let mut i: usize = 0;
    proof {
        assert(xs@.subrange(0, 0) =~= Seq::<Decimal>::empty());
    }
    while i < xs.len()
        invariant
            0 <= i <= xs@.len(),
            forall|k: int| 0 <= k < xs@.len() ==> (#[trigger] xs@[k]).inv(),
            spec_sum(xs@.subrange(0, i as int)) == Some(acc),
            acc.inv(),
        decreases xs@.len() - i,
    {
        proof {
            lemma_sum_val(xs@.subrange(0, i as int));
            lemma_add_val(acc, xs@[i as int]);
            assert(xs@.subrange(0, i + 1).drop_last() =~= xs@.subrange(0, i as int));
            assert(xs@.subrange(0, i + 1).last() == xs@[i as int]);
        }
        match acc.add(xs[i]) {
            Some(next) => {
                acc = next;
            },
            None => {
                proof {
                    lemma_sum_none_extends(xs@, i + 1);
                }
                return None;
            },
        }
        i = i + 1;
    }
    proof {
        assert(xs@.subrange(0, xs@.len() as int) =~= xs@);
    }
    Some(acc)
}

impl Decimal {
    /// Exact addition; `None` reports an out-of-range result.
    pub fn add(self, other: Decimal) -> (r: Option<Decimal>)
        requires
            self.inv(),
            other.inv(),
        ensures
            r == spec_add(self, other),
            r matches Some(d) ==> d.inv() && d.val() == self.val() + other.val(),
    {
        proof {
            lemma_add_val(self, other);
            lemma_pow10_values();
        }
        let s: u32 = if self.scale >= other.scale {
            self.scale
        } else {
            other.scale
        };
        let pa: i128 = pow10_i128(s - self.scale);
        let pb: i128 = pow10_i128(s - other.scale);
        proof {
            lemma_mul_abs_bound(
                self.mantissa as int,
                pa as int,
                MANT_LIMIT as int,
                1_000_000_000_000_000_000,
            );
            lemma_mul_abs_bound(
                other.mantissa as int,
                pb as int,
                MANT_LIMIT as int,
                1_000_000_000_000_000_000,
            );
        }
        let ma: i128 = self.mantissa * pa;
        let mb: i128 = other.mantissa * pb;
        let m: i128 = ma + mb;
        if -MANT_LIMIT <= m && m <= MANT_LIMIT {
            Some(Decimal { mantissa: m, scale: s })
        } else {
            None
        }
    }

    /// Exact subtraction; `None` reports an out-of-range result.
    pub fn sub(self, other: Decimal) -> (r: Option<Decimal>)
        requires
            self.inv(),
            other.inv(),
        ensures
            r == spec_sub(self, other),
            r matches Some(d) ==> d.inv() && d.val() == self.val() - other.val(),
    {
        self.add(other.neg())
    }

    /// Exact multiplication; `None` reports an out-of-range result.
    pub fn mul(self, other: Decimal) -> (r: Option<Decimal>)
        requires
            self.inv(),
            other.inv(),
        ensures
            r == spec_mul(self, other),
            r matches Some(d) ==> d.inv() && d.val() * pow10(MAX_SCALE as nat) == self.val()
                * other.val(),
    {
        proof {
            lemma_mul_val(self, other);
            lemma_pow10_values();
            lemma_mul_abs_bound(
                self.mantissa as int,
                if other.mantissa >= 0 {
                    other.mantissa as int
                } else {
                    -(other.mantissa as int)
                },
                MANT_LIMIT as int,
                MANT_LIMIT as int,
            );
            assert(self.mantissa * (-(other.mantissa as int)) == -(self.mantissa
                * other.mantissa)) by (nonlinear_arith);
        }
        let m: i128 = self.mantissa * other.mantissa;
        if self.scale + other.scale <= MAX_SCALE && -MANT_LIMIT <= m && m <= MANT_LIMIT {
            Some(Decimal { mantissa: m, scale: self.scale + other.scale })
        } else {
            None
        }
    }
}

impl Decimal {
    /// Quotient of two decimals, truncated toward zero at the requested
    /// scale (`VWAP = value_sum / volume_sum` is computed through this).
    /// `None` exactly when the quotient's mantissa leaves the representable
    /// range.
    pub fn div_floor(self, other: Decimal, scale: u32) -> (r: Option<Decimal>)
        requires
            self.inv(),
            other.inv(),
            self.val() >= 0,
            other.val() > 0,
            scale <= MAX_SCALE,
        ensures
            r is Some <==> (self.val() * pow10(scale as nat)) / other.val() <= MANT_LIMIT,
            r matches Some(d) ==> d.inv() && d.scale == scale && d.mantissa == (self.val() * pow10(
                scale as nat,
            )) / other.val(),
    {
        proof {
            lemma_val_bound(self);
            lemma_val_bound(other);
        }
        let va: u128 = self.val_i128() as u128;
        let vb: u128 = other.val_i128() as u128;
        let mut q: u128 = va / vb;
        let mut rem: u128 = va % vb;
        let mut i: u32 = 0;
        proof {
            lemma_pow10_values();
            assert(va as int * pow10(0) == va as int);
            vstd::arithmetic::div_mod::lemma_mod_bound(va as int, vb as int);
        }
        if q > MANT_LIMIT as u128 {
            proof {
                lemma_numerator_grows(va as int, vb as int, 0, scale as nat);
            }
            return None;
        }
        while i < scale
            invariant
                i <= scale <= MAX_SCALE,
                vb as int == other.val(),
                va as int == self.val(),
                0 < vb as int <= 10_000_000_000_000_000_000_000_000_000_000_000_000u128,
                q as int == (va as int * pow10(i as nat)) / vb as int,
                rem as int == (va as int * pow10(i as nat)) % vb as int,
                rem < vb,
                q <= MANT_LIMIT as u128,
            decreases scale - i,
        {
            let ghost x: int = va as int * pow10(i as nat);
            proof {
                vstd::arithmetic::div_mod::lemma_fundamental_div_mod(x, vb as int);
                vstd::arithmetic::div_mod::lemma_mod_bound(x, vb as int);
            }
            let q10: u128 = q * 10;
            let rem10: u128 = rem * 10;
            let digit: u128 = rem10 / vb;
            let rem_next: u128 = rem10 % vb;
            proof {
                vstd::arithmetic::div_mod::lemma_fundamental_div_mod(rem10 as int, vb as int);
                vstd::arithmetic::div_mod::lemma_mod_bound(rem10 as int, vb as int);
                assert(digit < 10) by (nonlinear_arith)
                    requires
                        rem10 as int == vb as int * digit as int + rem_next as int,
                        rem_next >= 0,
                        (rem10 as int) < 10 * (vb as int),
                        vb > 0,
                ;
                assert(10 * x == vb as int * (10 * (q as int) + digit as int) + rem_next as int)
                    by (nonlinear_arith)
                    requires
                        x == vb as int * q as int + rem as int,
                        rem10 as int == vb as int * digit as int + rem_next as int,
                        rem10 as int == 10 * (rem as int),
                ;
                vstd::arithmetic::div_mod::lemma_fundamental_div_mod_converse(
                    10 * x,
                    vb as int,
                    10 * (q as int) + digit as int,
                    rem_next as int,
                );
                assert(va as int * pow10((i + 1) as nat) == 10 * x) by (nonlinear_arith)
                    requires
                        pow10((i + 1) as nat) == 10 * pow10(i as nat),
                        x == va as int * pow10(i as nat),
                ;
            }
            let q_next: u128 = q10 + digit;
            if q_next > MANT_LIMIT as u128 {
                proof {
                    lemma_numerator_grows(va as int, vb as int, (i + 1) as nat, scale as nat);
                }
                return None;
            }
            q = q_next;
            rem = rem_next;
            i = i + 1;
        }
        Some(Decimal { mantissa: q as i128, scale })
    }
}

/// The truncated quotient only grows as the numerator gains digits.
proof fn lemma_numerator_grows(va: int, vb: int, i: nat, k: nat)
    requires
        va >= 0,
        vb > 0,
        i <= k,
    ensures
        (va * pow10(i)) / vb <= (va * pow10(k)) / vb,
{
    lemma_pow10_pos(i);
    lemma_pow10_pos(k);
    lemma_pow10_increases(i, k);
    assert(va * pow10(i) <= va * pow10(k)) by (nonlinear_arith)
        requires
            va >= 0,
            pow10(i) <= pow10(k),
    ;
    vstd::arithmetic::div_mod::lemma_div_is_ordered(va * pow10(i), va * pow10(k), vb);
}

} // verus!
