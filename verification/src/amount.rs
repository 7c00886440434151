//! Fee amounts: exact decimals of at most 96 bits and 28 fractional digits.
//!
//! Sums are computed by the `rust_decimal` crate and accepted only when they
//! are exact, which this module decides on integers.

use vstd::prelude::*;

verus! {

/// Largest number of fractional digits of a fee amount.
pub const MAX_SCALE: u32 = 28;

/// Largest absolute value of a fee amount's mantissa: `2^96 - 1`.
pub const MAX_MANTISSA: i128 = 79_228_162_514_264_337_593_543_950_335;

/// Ten to the power `e`.
pub open spec fn pow10(e: nat) -> int
    decreases e,
{
    if e == 0 {
        1
    } else {
        10 * pow10((e - 1) as nat)
    }
}

/// A decimal as a pair of integers: it stands for `mantissa / 10^scale`.
pub struct Scaled {
    pub mantissa: int,
    pub scale: nat,
}

impl Scaled {
    /// Whether the pair fits a fee amount.
    pub open spec fn valid(self) -> bool {
        &&& -MAX_MANTISSA <= self.mantissa <= MAX_MANTISSA
        &&& self.scale <= MAX_SCALE
    }

    /// The value, counted in units of `10^-28`. Two valid decimals stand for
    /// the same number exactly when their units are equal.
    pub open spec fn units(self) -> int {
        self.mantissa * pow10((MAX_SCALE - self.scale) as nat)
    }

    /// What becomes of a sum that was computed elsewhere: `candidate` is kept
    /// if it is a fee amount that stands for exactly `a + b`, and dropped
    /// otherwise.
    pub open spec fn exact_sum(a: Scaled, b: Scaled, candidate: Option<(int, int)>) -> Option<
        Scaled,
    > {
        match candidate {
            Some((m, s)) => {
                let c = Scaled { mantissa: m, scale: s as nat };
                if s >= 0 && c.valid() && c.units() == a.units() + b.units() {
                    Some(c)
                } else {
                    None
                }
            },
            None => None,
        }
    }

    /// The sum of two fee amounts: what `rust_decimal` computes, if that is
    /// exact.
    pub open spec fn sum(a: Scaled, b: Scaled) -> Option<Scaled> {
        Scaled::exact_sum(
            a,
            b,
            decimal_sum(a.mantissa, a.scale as int, b.mantissa, b.scale as int),
        )
    }
}

/// Mantissa and scale of what `rust_decimal` returns for the sum of the
/// decimals `a_mantissa / 10^a_scale` and `b_mantissa / 10^b_scale`, or `None`
/// where it reports an overflow.
pub uninterp spec fn decimal_sum(a_mantissa: int, a_scale: int, b_mantissa: int, b_scale: int) -> Option<
    (int, int),
>;

/// The text that `rust_decimal` prints for the decimal `mantissa / 10^scale`.
pub uninterp spec fn decimal_text(mantissa: int, scale: int) -> Seq<char>;

/// Calls `rust_decimal::Decimal::checked_add` on the two decimals given by
/// mantissa and scale, and hands back mantissa and scale of the result.
/// The contract only gives the result its name: that it is the sum is checked
/// by the caller, not believed.
#[verifier::external_body]
fn decimal_add(a_mantissa: i128, a_scale: u32, b_mantissa: i128, b_scale: u32) -> (r: Option<
    (i128, u32),
>)
    requires
        -MAX_MANTISSA <= a_mantissa <= MAX_MANTISSA,
        -MAX_MANTISSA <= b_mantissa <= MAX_MANTISSA,
        a_scale <= MAX_SCALE,
        b_scale <= MAX_SCALE,
    ensures
        r is Some ==> decimal_sum(
            a_mantissa as int,
            a_scale as int,
            b_mantissa as int,
            b_scale as int,
        ) == Some((r->Some_0.0 as int, r->Some_0.1 as int)),
        r is None ==> decimal_sum(
            a_mantissa as int,
            a_scale as int,
            b_mantissa as int,
            b_scale as int,
        ) is None,
{
    let a = rust_decimal::Decimal::from_i128_with_scale(a_mantissa, a_scale);
    let b = rust_decimal::Decimal::from_i128_with_scale(b_mantissa, b_scale);
    match a.checked_add(b) {
        Some(sum) => Some((sum.mantissa(), sum.scale())),
        None => None,
    }
}

/// Formats the decimal given by mantissa and scale with `rust_decimal`'s
/// `Display`. The contract gives the text its name and claims nothing else.
#[verifier::external_body]
fn decimal_to_string(mantissa: i128, scale: u32) -> (text: String)
    requires
        -MAX_MANTISSA <= mantissa <= MAX_MANTISSA,
        scale <= MAX_SCALE,
    ensures
        text@ == decimal_text(mantissa as int, scale as int),
{
    rust_decimal::Decimal::from_i128_with_scale(mantissa, scale).to_string()
}

/// An exact decimal amount of the network's currency.
#[derive(Clone, Copy, Debug, PartialEq, Eq, Structural)]
pub struct FeeAmount {
    mantissa: i128,
    scale: u32,
}

impl View for FeeAmount {
    type V = Scaled;

    closed spec fn view(&self) -> Scaled {
        Scaled { mantissa: self.mantissa as int, scale: self.scale as nat }
    }
}

impl DeepView for FeeAmount {
    type V = Scaled;

    open spec fn deep_view(&self) -> Scaled {
        self@
    }
}

/// A power of ten is at least one.
pub proof fn lemma_pow10_positive(e: nat)
    ensures
        pow10(e) >= 1,
    decreases e,
{
    if e > 0 {
        lemma_pow10_positive((e - 1) as nat);
    }
}

/// Exponents add up as powers multiply.
pub proof fn lemma_pow10_adds(a: nat, b: nat)
    ensures
        pow10(a + b) == pow10(a) * pow10(b),
    decreases a,
{
    if a > 0 {
        lemma_pow10_adds((a - 1) as nat, b);
        assert(pow10(a + b) == 10 * pow10((a - 1 + b) as nat));
        assert(10 * (pow10((a - 1) as nat) * pow10(b)) == (10 * pow10((a - 1) as nat)) * pow10(b))
            by (nonlinear_arith);
    } else {
        assert(pow10(a + b) == pow10(b));
        assert(pow10(a) * pow10(b) == pow10(b)) by (nonlinear_arith)
            requires
                pow10(a) == 1,
        ;
    }
}

/// A larger exponent gives no smaller power.
pub proof fn lemma_pow10_increases(a: nat, b: nat)
    requires
        a <= b,
    ensures
        pow10(a) <= pow10(b),
    decreases b,
{
    if a < b {
        lemma_pow10_increases(a, (b - 1) as nat);
        lemma_pow10_positive((b - 1) as nat);
    }
}

/// The largest power of ten that is used here.
proof fn lemma_pow10_max()
    ensures
        pow10(MAX_SCALE as nat) == 10_000_000_000_000_000_000_000_000_000,
{
    reveal_with_fuel(pow10, 30);
}

/// Computes a power of ten.
fn power_of_ten(e: u32) -> (p: u128)
    requires
        e <= MAX_SCALE,
    ensures
        p == pow10(e as nat),
        1 <= p <= 10_000_000_000_000_000_000_000_000_000,
{
    let mut p: u128 = 1;
    let mut i: u32 = 0;
    while i < e
        invariant
            i <= e <= MAX_SCALE,
            p == pow10(i as nat),
        decreases e - i,
    {
        proof {
            lemma_pow10_increases((i + 1) as nat, MAX_SCALE as nat);
            lemma_pow10_max();
        }
        p = p * 10;
        i += 1;
    }
    proof {
        lemma_pow10_increases(e as nat, MAX_SCALE as nat);
        lemma_pow10_positive(e as nat);
        lemma_pow10_max();
    }
    p
}

/// The number that mantissa `m` stands for when it counts units of `10^e`.
spec fn term(m: int, e: nat) -> int {
    m * pow10(e)
}

/// The absolute value of a mantissa.
fn magnitude(m: i128) -> (a: u128)
    requires
        -2 * MAX_MANTISSA <= m <= 2 * MAX_MANTISSA,
    ensures
        a == if m < 0 {
            -m
        } else {
            m as int
        },
{
    if m < 0 {
        (-m) as u128
    } else {
        m as u128
    }
}

/// Three terms with rising exponents, with the common powers of ten taken
/// out.
proof fn lemma_three_terms(m1: int, e1: nat, m2: int, e2: nat, m3: int, e3: nat)
    requires
        e1 <= e2 <= e3,
    ensures
        term(m1, e1) + term(m2, e2) + term(m3, e3) == pow10(e1) * (m1 + pow10((e2 - e1) as nat) * (
        m2 + m3 * pow10((e3 - e2) as nat))),
        pow10(e1) >= 1,
        pow10((e2 - e1) as nat) >= 1,
        pow10((e3 - e2) as nat) >= 1,
{
    let a = pow10(e1);
    let b = pow10((e2 - e1) as nat);
    let c = pow10((e3 - e2) as nat);
    lemma_pow10_positive(e1);
    lemma_pow10_positive((e2 - e1) as nat);
    lemma_pow10_positive((e3 - e2) as nat);
    lemma_pow10_adds(e1, (e2 - e1) as nat);
    lemma_pow10_adds(e2, (e3 - e2) as nat);
    assert(pow10(e2) == a * b);
    assert(pow10(e3) == (a * b) * c);
    assert(m1 * a + m2 * (a * b) + m3 * ((a * b) * c) == a * (m1 + b * (m2 + m3 * c)))
        by (nonlinear_arith);
}

/// A number that is no multiple of `p` is not cancelled by a multiple of `p`.
proof fn lemma_not_a_multiple(m: int, p: int, k: int)
    requires
        p >= 1,
        (if m < 0 {
            -m
        } else {
            m
        }) % p != 0,
    ensures
        m + p * k != 0,
{
    if m + p * k == 0 {
        let a = if m < 0 {
            -m
        } else {
            m
        };
        let j = if m < 0 {
            k
        } else {
            -k
        };
        assert(a == j * p) by (nonlinear_arith)
            requires
                m + p * k == 0,
                a == if m < 0 {
                    -m
                } else {
                    m
                },
                j == if m < 0 {
                    k
                } else {
                    -k
                },
        ;
        vstd::arithmetic::div_mod::lemma_mod_multiples_basic(j, p);
    }
}

/// Decides whether three decimals add up to zero, the exponents in rising
/// order. The first is divided down to the second's exponent, which must
/// leave no remainder; then the third can only cancel the other two if it is
/// small enough to be computed.
fn sorted_terms_vanish(m1: i128, e1: u32, m2: i128, e2: u32, m3: i128, e3: u32) -> (r: bool)
    requires
        -MAX_MANTISSA <= m1 <= MAX_MANTISSA,
        -MAX_MANTISSA <= m2 <= MAX_MANTISSA,
        -MAX_MANTISSA <= m3 <= MAX_MANTISSA,
        e1 <= e2 <= e3 <= MAX_SCALE,
    ensures
        r == (term(m1 as int, e1 as nat) + term(m2 as int, e2 as nat) + term(
            m3 as int,
            e3 as nat,
        ) == 0),
{
    let p = power_of_ten(e2 - e1);
    let c = power_of_ten(e3 - e2);
    let a1 = magnitude(m1);
    let ghost sum = term(m1 as int, e1 as nat) + term(m2 as int, e2 as nat) + term(
        m3 as int,
        e3 as nat,
    );
    let ghost inner = m1 + p * (m2 + m3 * c);
    proof {
        lemma_three_terms(m1 as int, e1 as nat, m2 as int, e2 as nat, m3 as int, e3 as nat);
        assert(sum == pow10(e1 as nat) * inner);
        assert((sum == 0) == (inner == 0)) by (nonlinear_arith)
            requires
                sum == pow10(e1 as nat) * inner,
                pow10(e1 as nat) >= 1,
        ;
    }
    if a1 % p != 0 {
        proof {
            lemma_not_a_multiple(m1 as int, p as int, m2 + m3 * c);
        }
        return false;
    }
    let q1 = a1 / p;
    proof {
        vstd::arithmetic::div_mod::lemma_fundamental_div_mod(a1 as int, p as int);
        assert(a1 == p * q1);
        assert(q1 <= a1) by (nonlinear_arith)
            requires
                a1 == p * q1,
                p >= 1,
                q1 >= 0,
        ;
    }
    let q: i128 = if m1 < 0 {
        -(q1 as i128)
    } else {
        q1 as i128
    };
    let rest: i128 = -(q + m2);
    proof {
        assert(m1 == p * q) by (nonlinear_arith)
            requires
                a1 == p * q1,
                a1 == if m1 < 0 {
                    -m1
                } else {
                    m1 as int
                },
                q == if m1 < 0 {
                    -q1
                } else {
                    q1 as int
                },
        ;
        assert(inner == p * (m3 * c - rest)) by (nonlinear_arith)
            requires
                inner == m1 + p * (m2 + m3 * c),
                m1 == p * q,
                rest == -(q + m2),
        ;
        assert((inner == 0) == (m3 * c == rest)) by (nonlinear_arith)
            requires
                inner == p * (m3 * c - rest),
                p >= 1,
        ;
    }
    let limit: u128 = (2 * (MAX_MANTISSA as u128)) / c;
    let a3 = magnitude(m3);
    proof {
        vstd::arithmetic::div_mod::lemma_fundamental_div_mod(2 * MAX_MANTISSA, c as int);
    }
    if a3 > limit {
        proof {
            assert(a3 * c > 2 * MAX_MANTISSA) by (nonlinear_arith)
                requires
                    a3 >= limit + 1,
                    c >= 1,
                    2 * MAX_MANTISSA == c * limit + (2 * MAX_MANTISSA) % (c as int),
                    (2 * MAX_MANTISSA) % (c as int) < c,
            ;
            assert(m3 * c != rest) by (nonlinear_arith)
                requires
                    a3 * c > 2 * MAX_MANTISSA,
                    a3 == if m3 < 0 {
                        -m3
                    } else {
                        m3 as int
                    },
                    c >= 1,
                    -2 * MAX_MANTISSA <= rest <= 2 * MAX_MANTISSA,
            ;
        }
        return false;
    }
    proof {
        assert(a3 * c <= 2 * MAX_MANTISSA) by (nonlinear_arith)
            requires
                0 <= a3 <= limit,
                c >= 1,
                2 * MAX_MANTISSA == c * limit + (2 * MAX_MANTISSA) % (c as int),
                0 <= (2 * MAX_MANTISSA) % (c as int),
        ;
        assert(-2 * MAX_MANTISSA <= m3 * c <= 2 * MAX_MANTISSA) by (nonlinear_arith)
            requires
                a3 * c <= 2 * MAX_MANTISSA,
                a3 == if m3 < 0 {
                    -m3
                } else {
                    m3 as int
                },
                c >= 1,
        ;
    }
    m3 * (c as i128) == rest
}

/// Decides whether three decimals add up to zero, whatever their exponents.
fn terms_vanish(m1: i128, e1: u32, m2: i128, e2: u32, m3: i128, e3: u32) -> (r: bool)
    requires
        -MAX_MANTISSA <= m1 <= MAX_MANTISSA,
        -MAX_MANTISSA <= m2 <= MAX_MANTISSA,
        -MAX_MANTISSA <= m3 <= MAX_MANTISSA,
        e1 <= MAX_SCALE,
        e2 <= MAX_SCALE,
        e3 <= MAX_SCALE,
    ensures
        r == (term(m1 as int, e1 as nat) + term(m2 as int, e2 as nat) + term(
            m3 as int,
            e3 as nat,
        ) == 0),
{
    if e1 <= e2 {
        if e2 <= e3 {
            sorted_terms_vanish(m1, e1, m2, e2, m3, e3)
        } else if e1 <= e3 {
            sorted_terms_vanish(m1, e1, m3, e3, m2, e2)
        } else {
            sorted_terms_vanish(m3, e3, m1, e1, m2, e2)
        }
    } else {
        if e1 <= e3 {
            sorted_terms_vanish(m2, e2, m1, e1, m3, e3)
        } else if e2 <= e3 {
            sorted_terms_vanish(m2, e2, m3, e3, m1, e1)
        } else {
            sorted_terms_vanish(m3, e3, m2, e2, m1, e1)
        }
    }
}

/// A computed sum as a pair of integers.
pub open spec fn widen(candidate: Option<(i128, u32)>) -> Option<(int, int)> {
    match candidate {
        Some((m, s)) => Some((m as int, s as int)),
        None => None,
    }
}

impl FeeAmount {
    #[verifier::type_invariant]
    spec fn well_formed(self) -> bool {
        self@.valid()
    }

    /// The amount `mantissa / 10^scale`, if it has at most 96 bits and 28
    /// fractional digits.
    pub fn new(mantissa: i128, scale: u32) -> (r: Option<FeeAmount>)
        ensures
            r is Some <==> (Scaled { mantissa: mantissa as int, scale: scale as nat }).valid(),
            r is Some ==> r->Some_0@ == (Scaled { mantissa: mantissa as int, scale: scale as nat }),
    {
        if -MAX_MANTISSA <= mantissa && mantissa <= MAX_MANTISSA && scale <= MAX_SCALE {
            Some(FeeAmount { mantissa, scale })
        } else {
            None
        }
    }

    /// The amount zero, without fractional digits.
    pub fn zero() -> (z: FeeAmount)
        ensures
            z@ == (Scaled { mantissa: 0, scale: 0 }),
    {
        FeeAmount { mantissa: 0, scale: 0 }
    }

    /// The mantissa: the amount without its decimal point.
    pub fn mantissa(&self) -> (m: i128)
        ensures
            m == self@.mantissa,
            self@.valid(),
    {
        proof {
            use_type_invariant(self);
        }
        self.mantissa
    }

    /// The number of fractional digits.
    pub fn scale(&self) -> (s: u32)
        ensures
            s == self@.scale,
            self@.valid(),
    {
        proof {
            use_type_invariant(self);
        }
        self.scale
    }

    /// Whether two amounts stand for the same number, whatever their scales.
    pub fn same_value(&self, other: &FeeAmount) -> (r: bool)
        ensures
            r == (self@.units() == other@.units()),
    {
        proof {
            use_type_invariant(self);
            use_type_invariant(other);
            assert(term(0, 0) == 0) by (nonlinear_arith)
                requires
                    term(0, 0) == 0 * pow10(0),
            ;
            lemma_negated_term(other.mantissa as int, (MAX_SCALE - other.scale) as nat);
        }
        terms_vanish(
            self.mantissa,
            MAX_SCALE - self.scale,
            -other.mantissa,
            MAX_SCALE - other.scale,
            0,
            0,
        )
    }

    /// Adds two amounts. The sum is computed by `rust_decimal` and returned
    /// only if it is exact: `None` stands for a sum that overflows or that
    /// could only be given rounded.
    pub fn checked_add(self, other: FeeAmount) -> (r: Option<FeeAmount>)
        ensures
            r.deep_view() == Scaled::sum(self@, other@),
    {
        proof {
            use_type_invariant(&self);
            use_type_invariant(&other);
        }
        let candidate = decimal_add(self.mantissa, self.scale, other.mantissa, other.scale);
        FeeAmount::accept_sum(self, other, candidate)
    }

    /// Judges a sum of `a` and `b` that was computed elsewhere, given by
    /// mantissa and scale: it is returned if it is a fee amount that stands
    /// for exactly `a + b`.
    pub fn accept_sum(a: FeeAmount, b: FeeAmount, candidate: Option<(i128, u32)>) -> (r: Option<
        FeeAmount,
    >)
        ensures
            r.deep_view() == Scaled::exact_sum(a@, b@, widen(candidate)),
    {
        proof {
            use_type_invariant(&a);
            use_type_invariant(&b);
        }
        match candidate {
            Some((m, s)) => {
                if -MAX_MANTISSA <= m && m <= MAX_MANTISSA && s <= MAX_SCALE {
                    proof {
                        lemma_negated_term(a.mantissa as int, (MAX_SCALE - a.scale) as nat);
                        lemma_negated_term(b.mantissa as int, (MAX_SCALE - b.scale) as nat);
                    }
                    if terms_vanish(
                        m,
                        MAX_SCALE - s,
                        -a.mantissa,
                        MAX_SCALE - a.scale,
                        -b.mantissa,
                        MAX_SCALE - b.scale,
                    ) {
                        Some(FeeAmount { mantissa: m, scale: s })
                    } else {
                        None
                    }
                } else {
                    None
                }
            },
            None => None,
        }
    }

    /// The amount as a plain decimal string, as `rust_decimal` prints it.
    pub fn to_text(&self) -> (text: String)
        ensures
            text@ == decimal_text(self@.mantissa, self@.scale as int),
    {
        proof {
            use_type_invariant(self);
        }
        decimal_to_string(self.mantissa, self.scale)
    }
}

/// Negating the mantissa negates the term.
proof fn lemma_negated_term(m: int, e: nat)
    ensures
        term(-m, e) == -term(m, e),
{
    assert((-m) * pow10(e) == -(m * pow10(e))) by (nonlinear_arith);
}

} // verus!
