//! Exact decimal numbers.
//!
//! A [`Number`] stands for the value `(-1 if neg else 1) * mant / 10^scale`.
//! Every `Number` is kept in canonical form (no trailing zero in the
//! fraction, no negative zero, integers have scale 0), so structural equality
//! coincides with numeric equality.

use vstd::prelude::*;

verus! {

/// Fractional digits kept by division; quotients are truncated toward zero
/// at this scale before normalisation.
pub const DIV_SCALE: u32 = 12;

/// 10 to the power `k`.
pub open spec fn pow10(k: nat) -> nat
    decreases k,
{
    if k == 0 {
        1
    } else {
        10 * pow10((k - 1) as nat)
    }
}

pub proof fn lemma_pow10_pos(k: nat)
    ensures
        pow10(k) >= 1,
    decreases k,
{
    if k > 0 {
        lemma_pow10_pos((k - 1) as nat);
    }
}

pub proof fn lemma_pow10_adds(a: nat, b: nat)
    ensures
        pow10(a + b) == pow10(a) * pow10(b),
    decreases a,
{
    if a == 0 {
        assert(pow10(0 + b) == 1 * pow10(b));
    } else {
        lemma_pow10_adds((a - 1) as nat, b);
        assert(pow10((a - 1) as nat + b + 1) == 10 * pow10((a - 1) as nat + b));
        assert(10 * (pow10((a - 1) as nat) * pow10(b)) == (10 * pow10((a - 1) as nat)) * pow10(b))
            by (nonlinear_arith);
    }
}

/// `m * 10^j <= m * 10^k` whenever `j <= k`.
pub proof fn lemma_pow10_mono_mul(m: nat, j: nat, k: nat)
    requires
        j <= k,
    ensures
        m * pow10(j) <= m * pow10(k),
{
    lemma_pow10_adds(j, (k - j) as nat);
    lemma_pow10_pos((k - j) as nat);
    assert(m * (pow10(j) * pow10((k - j) as nat)) >= m * (pow10(j) * 1)) by (nonlinear_arith)
        requires
            pow10((k - j) as nat) >= 1,
    ;
    assert(m * (pow10(j) * pow10((k - j) as nat)) == (m * pow10(j)) * pow10((k - j) as nat))
        by (nonlinear_arith);
    assert(pow10(j) * pow10((k - j) as nat) == pow10(k));
}

/// An exact decimal number.
///
/// Canonical values satisfy [`Number::wf`]; every constructor and every
/// arithmetic operation of this module yields a canonical value.
#[derive(Clone, Copy, PartialEq, Eq, Structural, Debug)]
#[verifier::ext_equal]
pub struct Number {
    pub neg: bool,
    pub mant: u128,
    pub scale: u32,
}

impl Number {
    /// Canonical form: no negative zero, integers carry scale 0, and the
    /// last fraction digit is never 0.
    pub open spec fn wf(self) -> bool {
        &&& (self.scale > 0 ==> self.mant % 10 != 0)
        &&& (self.mant == 0 ==> !self.neg && self.scale == 0)
    }

    /// The signed numerator: the number equals `signed_mant() / 10^scale`.
    pub open spec fn signed_mant(self) -> int {
        if self.neg {
            -(self.mant as int)
        } else {
            self.mant as int
        }
    }
}

/// The canonical form of `(-1 if neg else 1) * mant / 10^scale`.
pub open spec fn norm_spec(neg: bool, mant: u128, scale: u32) -> Number
    decreases scale,
{
    if mant == 0 {
        Number { neg: false, mant: 0, scale: 0 }
    } else if scale > 0 && mant % 10 == 0 {
        norm_spec(neg, mant / 10, (scale - 1) as u32)
    } else {
        Number { neg, mant, scale }
    }
}

pub proof fn lemma_norm_spec_wf(neg: bool, mant: u128, scale: u32)
    ensures
        norm_spec(neg, mant, scale).wf(),
    decreases scale,
{
    if mant != 0 && scale > 0 && mant % 10 == 0 {
        lemma_norm_spec_wf(neg, mant / 10, (scale - 1) as u32);
    }
}

/// A canonical number normalises to itself.
pub proof fn lemma_norm_spec_id(n: Number)
    requires
        n.wf(),
    ensures
        norm_spec(n.neg, n.mant, n.scale) == n,
{
}

impl Number {
    /// The canonical number `(-1 if neg else 1) * mant / 10^scale`.
    pub fn new(neg: bool, mant: u128, scale: u32) -> (r: Number)
        ensures
            r == norm_spec(neg, mant, scale),
    {
        let mut m: u128 = mant;
        let mut s: u32 = scale;
        if m == 0 {
            return Number { neg: false, mant: 0, scale: 0 };
        }
        while s > 0 && m % 10 == 0
            invariant
                m > 0,
                norm_spec(neg, m, s) == norm_spec(neg, mant, scale),
            decreases s,
        {
            proof {
                assert(norm_spec(neg, m, s) == norm_spec(neg, m / 10, (s - 1) as u32));
                assert(m / 10 > 0) by (nonlinear_arith)
                    requires
                        m > 0,
                        m % 10 == 0,
                ;
            }
            m = m / 10;
            s = s - 1;
        }
        Number { neg, mant: m, scale: s }
    }

    /// The number with integer value `v` (no fraction digits).
    pub fn from_int(neg: bool, v: u128) -> (r: Number)
        ensures
            r == norm_spec(neg, v, 0),
    {
        Number::new(neg, v, 0)
    }

    /// The additive identity.
    pub fn zero() -> (r: Number)
        ensures
            r == norm_spec(false, 0, 0),
    {
        Number { neg: false, mant: 0, scale: 0 }
    }

    /// The multiplicative identity.
    pub fn one() -> (r: Number)
        ensures
            r == norm_spec(false, 1, 0),
    {
        Number { neg: false, mant: 1, scale: 0 }
    }

    /// True iff this is the number zero.
    pub fn is_zero(&self) -> (r: bool)
        ensures
            r == (self.mant == 0),
    {
        self.mant == 0
    }
}

/// `m * 10^k`, or `None` if that exceeds `u128::MAX`.
pub fn pow10_mul(m: u128, k: u32) -> (r: Option<u128>)
    ensures
        match r {
            Some(v) => v as nat == m as nat * pow10(k as nat),
            None => m as nat * pow10(k as nat) > u128::MAX,
        },
{
    let mut acc: u128 = m;
    let mut j: u32 = 0;
    proof {
        assert(pow10(0) == 1);
    }
    while j < k
        invariant
            j <= k,
            acc as nat == m as nat * pow10(j as nat),
        decreases k - j,
    {
        match acc.checked_mul(10) {
            Some(v) => {
                proof {
                    assert(pow10((j + 1) as nat) == 10 * pow10(j as nat));
                    assert((m as nat * pow10(j as nat)) * 10 == m as nat * (10 * pow10(
                        j as nat,
                    ))) by (nonlinear_arith);
                }
                acc = v;
                j = j + 1;
            },
            None => {
                proof {
                    assert(pow10((j + 1) as nat) == 10 * pow10(j as nat));
                    assert((m as nat * pow10(j as nat)) * 10 == m as nat * (10 * pow10(
                        j as nat,
                    ))) by (nonlinear_arith);
                    lemma_pow10_mono_mul(m as nat, (j + 1) as nat, k as nat);
                }
                return None;
            },
        }
    }
    Some(acc)
}

/// The scale both operands of an addition are aligned to.
pub open spec fn align_scale(a: Number, b: Number) -> u32 {
    if a.scale >= b.scale {
        a.scale
    } else {
        b.scale
    }
}

/// The magnitude of `n`'s numerator once `n` is rescaled to scale `s`.
pub open spec fn aligned_mant(n: Number, s: u32) -> nat
    recommends
        n.scale <= s,
{
    n.mant as nat * pow10((s - n.scale) as nat)
}

/// The exact sum, normalised; `None` when an aligned numerator or the sum of
/// the numerators exceeds `u128::MAX`.
pub open spec fn add_spec(a: Number, b: Number) -> Option<Number> {
    let s = align_scale(a, b);
    let ma = aligned_mant(a, s);
    let mb = aligned_mant(b, s);
    if ma > u128::MAX || mb > u128::MAX {
        None
    } else {
        let m = (if a.neg {
            -(ma as int)
        } else {
            ma as int
        }) + (if b.neg {
            -(mb as int)
        } else {
            mb as int
        });
        let mag = if m < 0 {
            -m
        } else {
            m
        };
        if mag > u128::MAX {
            None
        } else {
            Some(norm_spec(m < 0, mag as u128, s))
        }
    }
}

/// The exact product, normalised; `None` when the product of the numerators
/// exceeds `u128::MAX` or the sum of the scales exceeds `u32::MAX`.
pub open spec fn mul_spec(a: Number, b: Number) -> Option<Number> {
    if a.mant as nat * b.mant as nat > u128::MAX || a.scale + b.scale > u32::MAX {
        None
    } else {
        Some(
            norm_spec(
                a.neg != b.neg,
                (a.mant as nat * b.mant as nat) as u128,
                (a.scale + b.scale) as u32,
            ),
        )
    }
}

/// The quotient truncated toward zero at [`DIV_SCALE`] fraction digits, then
/// normalised. `None` for a zero divisor or when a rescaled numerator
/// exceeds `u128::MAX`.
pub open spec fn div_spec(a: Number, b: Number) -> Option<Number> {
    let num = a.mant as nat * pow10(b.scale as nat + DIV_SCALE as nat);
    let den = b.mant as nat * pow10(a.scale as nat);
    if b.mant == 0 {
        None
    } else if num > u128::MAX || den > u128::MAX {
        None
    } else {
        Some(norm_spec(a.neg != b.neg, (num / den) as u128, DIV_SCALE))
    }
}

/// Strictly-less-than on the values the operands stand for.
pub open spec fn lt_spec(a: Number, b: Number) -> bool {
    a.signed_mant() * pow10(b.scale as nat) < b.signed_mant() * pow10(a.scale as nat)
}

/// Less-than-or-equal on the values the operands stand for.
pub open spec fn le_spec(a: Number, b: Number) -> bool {
    a.signed_mant() * pow10(b.scale as nat) <= b.signed_mant() * pow10(a.scale as nat)
}

/// The signed value `(-1 if neg else 1) * mag`.
pub open spec fn signed_of(neg: bool, mag: nat) -> int {
    if neg {
        -(mag as int)
    } else {
        mag as int
    }
}

/// Rescaling both operands to their common scale preserves the order of the
/// signed numerators.
proof fn lemma_align_order(a: Number, b: Number)
    ensures
        lt_spec(a, b) <==> signed_of(a.neg, aligned_mant(a, align_scale(a, b))) < signed_of(
            b.neg,
            aligned_mant(b, align_scale(a, b)),
        ),
        le_spec(a, b) <==> signed_of(a.neg, aligned_mant(a, align_scale(a, b))) <= signed_of(
            b.neg,
            aligned_mant(b, align_scale(a, b)),
        ),
{
    let s = align_scale(a, b);
    let da = (s - a.scale) as nat;
    let db = (s - b.scale) as nat;
    lemma_pow10_adds(a.scale as nat, da);
    lemma_pow10_adds(b.scale as nat, db);
    lemma_pow10_pos(a.scale as nat);
    lemma_pow10_pos(b.scale as nat);
    let am = a.signed_mant();
    let bm = b.signed_mant();
    let pa = pow10(a.scale as nat) as int;
    let pb = pow10(b.scale as nat) as int;
    let xa = pow10(da) as int;
    let xb = pow10(db) as int;
    let p = pow10(s as nat) as int;
    let q = pa * pb;
    assert(p == pa * xa && p == pb * xb);
    // the aligned signed numerators are am * xa and bm * xb
    if a.neg {
        assert((-(a.mant as int)) * xa == -((a.mant as int) * xa)) by (nonlinear_arith);
    }
    if b.neg {
        assert((-(b.mant as int)) * xb == -((b.mant as int) * xb)) by (nonlinear_arith);
    }
    assert(signed_of(a.neg, aligned_mant(a, s)) == am * xa);
    assert(signed_of(b.neg, aligned_mant(b, s)) == bm * xb);
    // multiplying by the positive q = pa * pb turns one comparison into the other
    assert(q > 0) by (nonlinear_arith)
        requires
            pa >= 1,
            pb >= 1,
            q == pa * pb,
    ;
    assert((am * xa) * q == (am * pb) * p) by (nonlinear_arith)
        requires
            q == pa * pb,
            p == pa * xa,
    ;
    assert((bm * xb) * q == (bm * pa) * p) by (nonlinear_arith)
        requires
            q == pa * pb,
            p == pb * xb,
    ;
    assert((am * xa < bm * xb) <==> ((am * xa) * q < (bm * xb) * q)) by (nonlinear_arith)
        requires
            q > 0,
    ;
    assert((am * xa <= bm * xb) <==> ((am * xa) * q <= (bm * xb) * q)) by (nonlinear_arith)
        requires
            q > 0,
    ;
    assert((am * pb < bm * pa) <==> ((am * pb) * p < (bm * pa) * p)) by (nonlinear_arith)
        requires
            p > 0,
    ;
    assert((am * pb <= bm * pa) <==> ((am * pb) * p <= (bm * pa) * p)) by (nonlinear_arith)
        requires
            p > 0,
    ;
}

impl Number {
    /// The exact sum; `None` on overflow (see [`add_spec`]).
    pub fn add(self, other: Number) -> (r: Option<Number>)
        ensures
            r == add_spec(self, other),
    {
        let s = if self.scale >= other.scale {
            self.scale
        } else {
            other.scale
        };
        let ma = match pow10_mul(self.mant, s - self.scale) {
            Some(v) => v,
            None => {
                return None;
            },
        };
        let mb = match pow10_mul(other.mant, s - other.scale) {
            Some(v) => v,
            None => {
                return None;
            },
        };
        proof {
            assert(s == align_scale(self, other));
            assert(ma as nat == aligned_mant(self, s));
            assert(mb as nat == aligned_mant(other, s));
        }
        if self.neg == other.neg {
            match ma.checked_add(mb) {
                Some(mag) => {
                    proof {
                        if mag == 0 {
                            assert(norm_spec(true, 0u128, s) == norm_spec(false, 0u128, s));
                        }
                    }
                    Some(Number::new(self.neg, mag, s))
                },
                None => None,
            }
        } else if ma >= mb {
            proof {
                if ma == mb {
                    assert(norm_spec(true, 0u128, s) == norm_spec(false, 0u128, s));
                }
            }
            Some(Number::new(self.neg, ma - mb, s))
        } else {
            Some(Number::new(other.neg, mb - ma, s))
        }
    }

    /// The operand with its sign flipped; zero stays non-negative.
    pub fn negate(self) -> (r: Number)
        ensures
            r == self.negate_spec(),
            self.wf() ==> r.signed_mant() == -self.signed_mant() && r.scale == self.scale,
    {
        let r = Number::new(!self.neg, self.mant, self.scale);
        proof {
            if self.wf() {
                if self.mant == 0 {
                    assert(r == Number { neg: false, mant: 0u128, scale: 0u32 });
                } else {
                    lemma_norm_spec_id(
                        Number { neg: !self.neg, mant: self.mant, scale: self.scale },
                    );
                }
            }
        }
        r
    }

    /// The exact difference `self - other`; `None` on overflow.
    pub fn sub(self, other: Number) -> (r: Option<Number>)
        ensures
            r == add_spec(self, other.negate_spec()),
    {
        self.add(other.negate())
    }

    /// What [`Number::negate`] returns.
    pub open spec fn negate_spec(self) -> Number {
        norm_spec(!self.neg, self.mant, self.scale)
    }

    /// The exact product; `None` on overflow (see [`mul_spec`]).
    pub fn mul(self, other: Number) -> (r: Option<Number>)
        ensures
            r == mul_spec(self, other),
    {
        let m = match self.mant.checked_mul(other.mant) {
            Some(v) => v,
            None => {
                return None;
            },
        };
        let s = match self.scale.checked_add(other.scale) {
            Some(v) => v,
            None => {
                return None;
            },
        };
        Some(Number::new(self.neg != other.neg, m, s))
    }

    /// The truncated quotient; `None` for a zero divisor or on overflow
    /// (see [`div_spec`]).
    pub fn div(self, other: Number) -> (r: Option<Number>)
        ensures
            r == div_spec(self, other),
    {
        if other.mant == 0 {
            return None;
        }
        let k = match other.scale.checked_add(DIV_SCALE) {
            Some(v) => v,
            None => {
                proof {
                    lemma_pow10_big(other.scale as nat + DIV_SCALE as nat);
                    if self.mant as nat >= 1 {
                        assert(self.mant as nat * pow10(other.scale as nat + DIV_SCALE as nat)
                            >= 1 * pow10(other.scale as nat + DIV_SCALE as nat))
                            by (nonlinear_arith)
                            requires
                                self.mant as nat >= 1,
                        ;
                    }
                }
                if self.mant == 0 {
                    match pow10_mul(other.mant, self.scale) {
                        Some(_) => {
                            proof {
                                assert(0nat * pow10(other.scale as nat + DIV_SCALE as nat) == 0);
                                lemma_pow10_pos(self.scale as nat);
                                assert(other.mant as nat * pow10(self.scale as nat) >= 1 * 1)
                                    by (nonlinear_arith)
                                    requires
                                        other.mant as nat >= 1,
                                        pow10(self.scale as nat) >= 1,
                                ;
                                assert(0nat / (other.mant as nat * pow10(self.scale as nat))
                                    == 0) by (nonlinear_arith)
                                    requires
                                        other.mant as nat * pow10(self.scale as nat) >= 1,
                                ;
                                assert(div_spec(self, other) == Some(
                                    norm_spec(self.neg != other.neg, 0u128, DIV_SCALE),
                                ));
                            }
                            return Some(Number::new(self.neg != other.neg, 0, DIV_SCALE));
                        },
                        None => {
                            return None;
                        },
                    }
                }
                return None;
            },
        };
        let num = match pow10_mul(self.mant, k) {
            Some(v) => v,
            None => {
                return None;
            },
        };
        let den = match pow10_mul(other.mant, self.scale) {
            Some(v) => v,
            None => {
                return None;
            },
        };
        proof {
            lemma_pow10_pos(self.scale as nat);
            assert(other.mant as nat * pow10(self.scale as nat) >= 1 * 1) by (nonlinear_arith)
                requires
                    other.mant as nat >= 1,
                    pow10(self.scale as nat) >= 1,
            ;
            assert(num as nat / den as nat <= num as nat) by (nonlinear_arith)
                requires
                    den as nat >= 1,
            ;
        }
        Some(Number::new(self.neg != other.neg, num / den, DIV_SCALE))
    }

    /// True iff `self` stands for a strictly smaller value than `other`.
    pub fn lt(self, other: Number) -> (r: bool)
        ensures
            r == lt_spec(self, other),
    {
        proof {
            lemma_align_order(self, other);
        }
        let ghost gs = align_scale(self, other);
        let ghost ga = aligned_mant(self, gs);
        let ghost gb = aligned_mant(other, gs);
        if self.neg != other.neg {
            proof {
                lemma_pow10_pos((gs - self.scale) as nat);
                lemma_pow10_pos((gs - other.scale) as nat);
                assert(ga == 0 <==> self.mant == 0) by (nonlinear_arith)
                    requires
                        ga == self.mant as nat * pow10((gs - self.scale) as nat),
                        pow10((gs - self.scale) as nat) >= 1,
                ;
                assert(gb == 0 <==> other.mant == 0) by (nonlinear_arith)
                    requires
                        gb == other.mant as nat * pow10((gs - other.scale) as nat),
                        pow10((gs - other.scale) as nat) >= 1,
                ;
            }
            if self.neg {
                self.mant != 0 || other.mant != 0
            } else {
                false
            }
        } else {
            let s = if self.scale >= other.scale {
                self.scale
            } else {
                other.scale
            };
            let ma = pow10_mul(self.mant, s - self.scale);
            let mb = pow10_mul(other.mant, s - other.scale);
            match (ma, mb) {
                (Some(x), Some(y)) => {
                    if self.neg {
                        y < x
                    } else {
                        x < y
                    }
                },
                (None, _) => {
                    proof {
                        // only the side rescaled by a positive power can
                        // overflow, so the common scale is the other's
                        assert(gs == s);
                        if s == self.scale {
                            assert(ga == self.mant as nat * pow10(0));
                            assert(pow10(0) == 1);
                            assert(self.mant as nat * 1 == self.mant as nat)
                                by (nonlinear_arith);
                            assert(false);
                        }
                        assert(s == other.scale);
                        assert(gb == other.mant as nat * pow10(0));
                        assert(other.mant as nat * 1 == other.mant as nat) by (nonlinear_arith);
                    }
                    self.neg
                },
                (_, None) => {
                    proof {
                        assert(gs == s);
                        if s == other.scale {
                            assert(gb == other.mant as nat * pow10(0));
                            assert(pow10(0) == 1);
                            assert(other.mant as nat * 1 == other.mant as nat)
                                by (nonlinear_arith);
                            assert(false);
                        }
                        assert(s == self.scale);
                        assert(ga == self.mant as nat * pow10(0));
                        assert(self.mant as nat * 1 == self.mant as nat) by (nonlinear_arith);
                    }
                    !self.neg
                },
            }
        }
    }

    /// True iff `self` stands for a value less than or equal to `other`.
    pub fn le(self, other: Number) -> (r: bool)
        ensures
            r == le_spec(self, other),
    {
        !other.lt(self)
    }
}

/// The digit character for `d` (meaningful for `d < 10`).
pub open spec fn digit_char(d: nat) -> char {
    if d == 0 {
        '0'
    } else if d == 1 {
        '1'
    } else if d == 2 {
        '2'
    } else if d == 3 {
        '3'
    } else if d == 4 {
        '4'
    } else if d == 5 {
        '5'
    } else if d == 6 {
        '6'
    } else if d == 7 {
        '7'
    } else if d == 8 {
        '8'
    } else {
        '9'
    }
}

/// True iff `c` is a decimal digit.
pub open spec fn is_digit(c: char) -> bool {
    48 <= c as u32 && c as u32 <= 57
}

/// The value of a digit character (meaningful when `is_digit(c)`).
pub open spec fn digit_val(c: char) -> nat {
    (c as u32 - 48) as nat
}

/// True iff every character of `s` is a decimal digit.
pub open spec fn all_digits(s: Seq<char>) -> bool {
    forall|i: int| 0 <= i < s.len() ==> is_digit(#[trigger] s[i])
}

/// The value of a digit string read in base 10 (0 for the empty string).
pub open spec fn digits_val(s: Seq<char>) -> nat
    decreases s.len(),
{
    if s.len() == 0 {
        0
    } else {
        10 * digits_val(s.drop_last()) + digit_val(s.last())
    }
}

/// The decimal digits of `n`, without leading zeros (`"0"` for 0).
pub open spec fn dec_digits(n: nat) -> Seq<char>
    decreases n,
{
    if n < 10 {
        seq![digit_char(n)]
    } else {
        dec_digits(n / 10).push(digit_char(n % 10))
    }
}

/// `k` copies of the character `'0'`.
pub open spec fn zero_seq(k: nat) -> Seq<char> {
    Seq::new(k, |i: int| '0')
}

/// The canonical text of a number: optional `-`, the integer digits, and,
/// for a positive scale, `.` followed by exactly `scale` fraction digits.
pub open spec fn num_text(n: Number) -> Seq<char> {
    let ds = dec_digits(n.mant as nat);
    let sign: Seq<char> = if n.neg {
        seq!['-']
    } else {
        Seq::empty()
    };
    if n.scale == 0 {
        sign + ds
    } else if ds.len() > n.scale as nat {
        sign + ds.subrange(0, ds.len() - n.scale as nat) + seq!['.'] + ds.subrange(
            ds.len() - n.scale as nat,
            ds.len() as int,
        )
    } else {
        sign + seq!['0', '.'] + zero_seq((n.scale as nat - ds.len()) as nat) + ds
    }
}

/// `10^k` exceeds `u128::MAX` from `k == 39` on.
pub proof fn lemma_pow10_big(k: nat)
    requires
        k >= 39,
    ensures
        pow10(k) > u128::MAX,
{
    reveal_with_fuel(pow10, 40);
    assert(pow10(39) > u128::MAX);
    lemma_pow10_mono_mul(1, 39, k);
    assert(1 * pow10(39) == pow10(39)) by (nonlinear_arith);
    assert(1 * pow10(k) == pow10(k)) by (nonlinear_arith);
}

/// True iff `c` is a decimal digit.
pub fn is_digit_char(c: char) -> (r: bool)
    ensures
        r == is_digit(c),
{
    let u = c as u32;
    48 <= u && u <= 57
}

/// The one-character text of the digit `d`.
fn digit_str(d: u128) -> (r: &'static str)
    requires
        d < 10,
    ensures
        r@ == seq![digit_char(d as nat)],
{
    let digits = "0123456789";
    proof {
        reveal_strlit("0123456789");
    }
    let du = d as usize;
    let r = digits.substring_char(du, du + 1);
    proof {
        assert(r@ =~= seq![digit_char(d as nat)]);
    }
    r
}

/// The decimal digits of `n` as text, without leading zeros.
pub fn dec_string(n: u128) -> (r: String)
    ensures
        r@ == dec_digits(n as nat),
    decreases n,
{
    if n < 10 {
        String::from_str(digit_str(n))
    } else {
        let mut r = dec_string(n / 10);
        r.append(digit_str(n % 10));
        proof {
            assert(r@ =~= dec_digits((n / 10) as nat).push(digit_char((n % 10) as nat)));
        }
        r
    }
}

impl Number {
    /// The canonical text of this number (see [`num_text`]).
    pub fn to_text(self) -> (r: String)
        ensures
            r@ == num_text(self),
    {
        let ghost ds_spec = dec_digits(self.mant as nat);
        let ds = dec_string(self.mant);
        let mut out = String::new();
        if self.neg {
            out.append("-");
            proof {
                reveal_strlit("-");
                assert(out@ =~= seq!['-']);
            }
        }
        let ghost sign = out@;
        let l = ds.as_str().unicode_len();
        if self.scale == 0 {
            out.append(ds.as_str());
            proof {
                assert(out@ == num_text(self));
            }
            out
        } else if l > self.scale as usize {
            let cut = l - self.scale as usize;
            out.append(ds.as_str().substring_char(0, cut));
            out.append(".");
            out.append(ds.as_str().substring_char(cut, l));
            proof {
                reveal_strlit(".");
                assert("."@ =~= seq!['.']);
                assert(out@ =~= sign + ds_spec.subrange(0, cut as int) + seq!['.']
                    + ds_spec.subrange(cut as int, l as int));
            }
            out
        } else {
            out.append("0.");
            proof {
                reveal_strlit("0.");
                assert("0."@ =~= seq!['0', '.']);
            }
            let pad = self.scale as usize - l;
            let mut k: usize = 0;
            while k < pad
                invariant
                    k <= pad,
                    out@ == sign + seq!['0', '.'] + zero_seq(k as nat),
                decreases pad - k,
            {
                out.append("0");
                k = k + 1;
                proof {
                    reveal_strlit("0");
                    assert("0"@ =~= seq!['0']);
                    assert(out@ =~= sign + seq!['0', '.'] + zero_seq(k as nat));
                }
            }
            out.append(ds.as_str());
            proof {
                assert(out@ =~= sign + seq!['0', '.'] + zero_seq(
                    (self.scale as nat - ds_spec.len()) as nat,
                ) + ds_spec);
            }
            out
        }
    }
}

/// The number of leading digit characters of `t`.
pub open spec fn digit_prefix_len(t: Seq<char>) -> nat
    decreases t.len(),
{
    if t.len() == 0 || !is_digit(t[0]) {
        0
    } else {
        1 + digit_prefix_len(t.skip(1))
    }
}

/// `digit_prefix_len` is the first position holding a non-digit.
pub proof fn lemma_digit_prefix_len_of(t: Seq<char>, k: nat)
    requires
        k <= t.len(),
        forall|j: int| 0 <= j < k ==> is_digit(#[trigger] t[j]),
        k == t.len() || !is_digit(t[k as int]),
    ensures
        digit_prefix_len(t) == k,
    decreases k,
{
    if k == 0 {
    } else {
        assert(is_digit(t[0]));
        let t2 = t.skip(1);
        assert(forall|j: int| 0 <= j < k - 1 ==> is_digit(#[trigger] t2[j]));
        assert(k - 1 == t2.len() || !is_digit(t2[k - 1]));
        lemma_digit_prefix_len_of(t2, (k - 1) as nat);
    }
}

/// How a number literal reads.
#[derive(Clone, Copy, PartialEq, Eq, Structural, Debug)]
pub enum NumParse {
    /// The canonical number the text stands for.
    Val(Number),
    /// Well-formed text whose numerator does not fit in the representation.
    TooLarge,
    /// The text is not a number literal.
    Invalid,
}

/// The number read from the digit string `ds` with `scale` fraction digits.
pub open spec fn num_of_digits(neg: bool, ds: Seq<char>, scale: nat) -> NumParse {
    if digits_val(ds) > u128::MAX || scale > u32::MAX {
        NumParse::TooLarge
    } else {
        NumParse::Val(norm_spec(neg, digits_val(ds) as u128, scale as u32))
    }
}

/// The number read from the whole text `s`, under the grammar
/// `'-'? digit+ ('.' digit+)?`.
pub open spec fn num_of_text(s: Seq<char>) -> NumParse {
    let neg = s.len() > 0 && s[0] == '-';
    let t = if neg {
        s.skip(1)
    } else {
        s
    };
    let k = digit_prefix_len(t) as int;
    if k == 0 {
        NumParse::Invalid
    } else if k == t.len() {
        num_of_digits(neg, t, 0)
    } else if t[k] == '.' && k + 1 < t.len() && all_digits(t.skip(k + 1)) {
        num_of_digits(neg, t.subrange(0, k) + t.skip(k + 1), (t.len() - k - 1) as nat)
    } else {
        NumParse::Invalid
    }
}

/// Reads digits from position `from` on, extending the value of the digits
/// already in `prior` (`acc0`, or `big0` when they exceed `u128::MAX`).
pub(crate) fn scan_digits(s: &str, from: usize, acc0: u128, big0: bool, Ghost(prior): Ghost<Seq<char>>) -> (r:
    (usize, u128, bool))
    requires
        from <= s@.len(),
        !big0 ==> acc0 as nat == digits_val(prior),
        big0 ==> digits_val(prior) > u128::MAX,
    ensures
        ({
            let (end, acc, big) = r;
            let d = s@.subrange(from as int, end as int);
            &&& from <= end <= s@.len()
            &&& end - from == digit_prefix_len(s@.skip(from as int))
            &&& (end == s@.len() || !is_digit(s@[end as int]))
            &&& all_digits(d)
            &&& (!big ==> acc as nat == digits_val(prior + d))
            &&& (big ==> digits_val(prior + d) > u128::MAX)
        }),
{
    let n = s.unicode_len();
    let mut i = from;
    let mut acc = acc0;
    let mut big = big0;
    loop
        invariant
            from <= i <= n,
            n == s@.len(),
            forall|j: int| from <= j < i ==> is_digit(#[trigger] s@[j]),
            !big ==> acc as nat == digits_val(prior + s@.subrange(from as int, i as int)),
            big ==> digits_val(prior + s@.subrange(from as int, i as int)) > u128::MAX,
        ensures
            from <= i <= n,
            i == n || !is_digit(s@[i as int]),
            forall|j: int| from <= j < i ==> is_digit(#[trigger] s@[j]),
            !big ==> acc as nat == digits_val(prior + s@.subrange(from as int, i as int)),
            big ==> digits_val(prior + s@.subrange(from as int, i as int)) > u128::MAX,
        decreases n - i,
    {
        proof {
            assert(prior + s@.subrange(from as int, from as int) =~= prior);
        }
        if i == n {
            break ;
        }
        let c = s.get_char(i);
        if !is_digit_char(c) {
            break ;
        }
        let d = ((c as u32) - 48) as u128;
        let ghost p = prior + s@.subrange(from as int, i as int);
        let ghost p2 = prior + s@.subrange(from as int, i as int + 1);
        proof {
            assert(p2 =~= p.push(s@[i as int]));
            assert(p2.drop_last() =~= p);
            assert(digits_val(p2) == 10 * digits_val(p) + digit_val(s@[i as int]));
        }
        if !big {
            match acc.checked_mul(10) {
                Some(t) => {
                    match t.checked_add(d) {
                        Some(v) => {
                            acc = v;
                        },
                        None => {
                            big = true;
                        },
                    }
                },
                None => {
                    big = true;
                },
            }
        }
        i = i + 1;
    }
    proof {
        let t = s@.skip(from as int);
        assert(forall|j: int| 0 <= j < i - from ==> is_digit(#[trigger] t[j]));
        if i < n {
            assert(!is_digit(t[i - from]));
        }
        lemma_digit_prefix_len_of(t, (i - from) as nat);
        assert(all_digits(s@.subrange(from as int, i as int)));
    }
    (i, acc, big)
}

/// Reads a whole text as a number literal.
pub fn parse_num_str(s: &str) -> (r: NumParse)
    ensures
        r == num_of_text(s@),
{
    let n = s.unicode_len();
    let neg = if n > 0 {
        s.get_char(0) == '-'
    } else {
        false
    };
    let off: usize = if neg {
        1
    } else {
        0
    };
    let ghost t = if neg {
        s@.skip(1)
    } else {
        s@
    };
    proof {
        if !neg {
            assert(t =~= s@.skip(0));
        }
        assert(Seq::<char>::empty() + t.subrange(0, 0) =~= Seq::<char>::empty());
    }
    let (e1, acc1, big1) = scan_digits(s, off, 0, false, Ghost(Seq::empty()));
    let ghost k = (e1 - off) as int;
    proof {
        assert(t.skip(0) =~= t);
        assert(s@.skip(off as int) == t);
        assert(Seq::<char>::empty() + s@.subrange(off as int, e1 as int) =~= t.subrange(0, k));
    }
    if e1 == off {
        return NumParse::Invalid;
    }
    if e1 == n {
        proof {
            assert(t.subrange(0, k) =~= t);
        }
        if big1 {
            return NumParse::TooLarge;
        }
        return NumParse::Val(Number::new(neg, acc1, 0));
    }
    let c = s.get_char(e1);
    if c == '.' && e1 + 1 < n {
        let (e2, acc2, big2) = scan_digits(s, e1 + 1, acc1, big1, Ghost(t.subrange(0, k)));
        proof {
            assert(t.subrange(0, k) + s@.subrange(e1 as int + 1, e2 as int) =~= t.subrange(0, k)
                + t.subrange(k + 1, e2 - off));
            assert(s@.skip(e1 as int + 1) =~= t.skip(k + 1));
        }
        if e2 < n {
            // a digit run that stops before the end is not a whole literal
            proof {
                assert(t.skip(k + 1)[e2 - off - k - 1] == s@[e2 as int]);
                assert(!all_digits(t.skip(k + 1)));
            }
            return NumParse::Invalid;
        }
        proof {
            assert(forall|j: int|
                0 <= j < t.skip(k + 1).len() ==> is_digit(#[trigger] t.skip(k + 1)[j]));
            assert(t.subrange(0, k) + t.skip(k + 1) =~= t.subrange(0, k) + t.subrange(
                k + 1,
                e2 - off,
            ));
        }
        if big2 {
            return NumParse::TooLarge;
        }
        let scale = e2 - e1 - 1;
        if scale > u32::MAX as usize {
            return NumParse::TooLarge;
        }
        return NumParse::Val(Number::new(neg, acc2, scale as u32));
    }
    proof {
        assert(!is_digit(t[k]) || t[k] != '.' || !(k + 1 < t.len()));
        assert(t[k] == s@[e1 as int]);
    }
    NumParse::Invalid
}

/// Canonical forms are unique: two canonical numbers are structurally
/// equal exactly when they stand for the same value. This is what lets the
/// equality builtin compare numbers field by field.
#[verifier::rlimit(60)]
#[verifier::spinoff_prover]
pub proof fn lemma_canonical_eq(a: Number, b: Number)
    requires
        a.wf(),
        b.wf(),
    ensures
        (a == b) <==> (a.signed_mant() * pow10(b.scale as nat) == b.signed_mant() * pow10(
            a.scale as nat,
        )),
{
    lemma_pow10_pos(a.scale as nat);
    lemma_pow10_pos(b.scale as nat);
    let pa = pow10(a.scale as nat) as int;
    let pb = pow10(b.scale as nat) as int;
    let ma = a.mant as int;
    let mb = b.mant as int;
    if a.signed_mant() * pb == b.signed_mant() * pa {
        if a.mant == 0 {
            assert(b.signed_mant() * pa == 0);
            assert(b.signed_mant() == 0) by (nonlinear_arith)
                requires
                    b.signed_mant() * pa == 0,
                    pa >= 1,
            ;
            assert(a =~= b);
        } else if b.mant == 0 {
            assert(a.signed_mant() != 0);
            assert(b.signed_mant() == 0);
            assert(0int * pa == 0) by (nonlinear_arith);
            assert(a.signed_mant() * pb == 0);
            assert(false) by (nonlinear_arith)
                requires
                    a.signed_mant() != 0,
                    pb >= 1,
                    a.signed_mant() * pb == 0,
            ;
        } else {
            assert(a.neg == b.neg) by {
                if a.neg && !b.neg {
                    assert(a.signed_mant() == -ma && b.signed_mant() == mb);
                    assert((-ma) * pb < 0) by (nonlinear_arith)
                        requires
                            ma >= 1,
                            pb >= 1,
                    ;
                    assert(mb * pa > 0) by (nonlinear_arith)
                        requires
                            mb >= 1,
                            pa >= 1,
                    ;
                }
                if !a.neg && b.neg {
                    assert(a.signed_mant() == ma && b.signed_mant() == -mb);
                    assert(ma * pb > 0) by (nonlinear_arith)
                        requires
                            ma >= 1,
                            pb >= 1,
                    ;
                    assert((-mb) * pa < 0) by (nonlinear_arith)
                        requires
                            mb >= 1,
                            pa >= 1,
                    ;
                }
            };
            if a.neg {
                assert((-ma) * pb == (-mb) * pa);
                assert(ma * pb == mb * pa) by (nonlinear_arith)
                    requires
                        (-ma) * pb == (-mb) * pa,
                ;
            }
            assert(ma * pb == mb * pa);
            if a.scale < b.scale {
                let d = (b.scale - a.scale) as nat;
                lemma_pow10_adds(a.scale as nat, d);
                lemma_pow10_pos((d - 1) as nat);
                assert(pow10(d) == 10 * pow10((d - 1) as nat));
                assert(mb == ma * pow10(d)) by (nonlinear_arith)
                    requires
                        ma * pb == mb * pa,
                        pb == pa * pow10(d),
                        pa >= 1,
                ;
                let q = ma * pow10((d - 1) as nat) as int;
                assert(mb == q * 10) by (nonlinear_arith)
                    requires
                        mb == ma * (10 * pow10((d - 1) as nat)),
                        q == ma * pow10((d - 1) as nat),
                ;
                vstd::arithmetic::div_mod::lemma_mod_multiples_basic(q, 10);
                assert(false);
            } else if b.scale < a.scale {
                let d = (a.scale - b.scale) as nat;
                lemma_pow10_adds(b.scale as nat, d);
                lemma_pow10_pos((d - 1) as nat);
                assert(pow10(d) == 10 * pow10((d - 1) as nat));
                assert(ma == mb * pow10(d)) by (nonlinear_arith)
                    requires
                        ma * pb == mb * pa,
                        pa == pb * pow10(d),
                        pb >= 1,
                ;
                let q = mb * pow10((d - 1) as nat) as int;
                assert(ma == q * 10) by (nonlinear_arith)
                    requires
                        ma == mb * (10 * pow10((d - 1) as nat)),
                        q == mb * pow10((d - 1) as nat),
                ;
                vstd::arithmetic::div_mod::lemma_mod_multiples_basic(q, 10);
                assert(false);
            } else {
                assert(ma == mb) by (nonlinear_arith)
                    requires
                        ma * pb == mb * pa,
                        pa == pb,
                        pa >= 1,
                ;
                assert(a =~= b);
            }
        }
    }
}

/// The decimal digits of `n` are digits and read back as `n`.
pub proof fn lemma_dec_digits_props(n: nat)
    ensures
        all_digits(dec_digits(n)),
        dec_digits(n).len() >= 1,
        digits_val(dec_digits(n)) == n,
    decreases n,
{
    if n < 10 {
        let s = dec_digits(n);
        assert(s == seq![digit_char(n)]);
        assert(is_digit(digit_char(n)));
        assert(s.drop_last() =~= Seq::<char>::empty());
        assert(digits_val(s) == 10 * digits_val(s.drop_last()) + digit_val(s.last()));
        assert(digit_val(digit_char(n)) == n);
    } else {
        lemma_dec_digits_props(n / 10);
        let p = dec_digits(n / 10);
        let s = p.push(digit_char(n % 10));
        assert(s.drop_last() =~= p);
        assert(digit_val(digit_char(n % 10)) == n % 10);
        assert(digits_val(s) == 10 * (n / 10) + n % 10);
        assert(all_digits(s)) by {
            assert(forall|i: int| 0 <= i < p.len() ==> s[i] == #[trigger] p[i]);
            assert(is_digit(digit_char(n % 10)));
        };
    }
}

/// Leading zeros do not change the value of a digit string.
pub proof fn lemma_digits_val_zero_prefix(z: nat, s: Seq<char>)
    ensures
        digits_val(zero_seq(z) + s) == digits_val(s),
    decreases s.len(),
{
    if s.len() == 0 {
        assert(zero_seq(z) + s =~= zero_seq(z));
        lemma_digits_val_zeros(z);
    } else {
        lemma_digits_val_zero_prefix(z, s.drop_last());
        assert((zero_seq(z) + s).drop_last() =~= zero_seq(z) + s.drop_last());
        assert((zero_seq(z) + s).last() == s.last());
    }
}

/// A string of zeros reads as 0.
pub proof fn lemma_digits_val_zeros(z: nat)
    ensures
        digits_val(zero_seq(z)) == 0,
    decreases z,
{
    if z > 0 {
        lemma_digits_val_zeros((z - 1) as nat);
        assert(zero_seq(z).drop_last() =~= zero_seq((z - 1) as nat));
        assert(zero_seq(z).last() == '0');
        assert(digit_val('0') == 0);
    }
}

/// Reading back the canonical text of a canonical number gives the number.
#[verifier::rlimit(60)]
pub proof fn lemma_num_text_roundtrip(n: Number)
    requires
        n.wf(),
    ensures
        num_of_text(num_text(n)) == NumParse::Val(n),
{
    let s = num_text(n);
    let ds = dec_digits(n.mant as nat);
    let sc = n.scale as nat;
    let l = ds.len();
    lemma_dec_digits_props(n.mant as nat);
    let sign: Seq<char> = if n.neg {
        seq!['-']
    } else {
        Seq::empty()
    };
    assert(is_digit(ds[0]));
    assert(s[0] == '-' <==> n.neg);
    let t = if n.neg {
        s.skip(1)
    } else {
        s
    };
    lemma_norm_spec_id(n);
    if n.scale == 0 {
        assert(t =~= ds);
        lemma_digit_prefix_len_of(t, l);
        assert(num_of_digits(n.neg, ds, 0) == NumParse::Val(n));
    } else if l > sc {
        let a = ds.subrange(0, l - sc);
        let b = ds.subrange(l - sc as int, l as int);
        assert(t =~= a + seq!['.'] + b);
        let k = a.len();
        assert(forall|j: int| 0 <= j < k ==> t[j] == #[trigger] ds[j]);
        assert(t[k as int] == '.');
        assert(!is_digit('.'));
        lemma_digit_prefix_len_of(t, k);
        assert(t.skip(k as int + 1) =~= b);
        assert(all_digits(b));
        assert(t.subrange(0, k as int) =~= a);
        assert(t.subrange(0, k as int) + t.skip(k as int + 1) =~= ds);
        assert(t.len() - k - 1 == sc);
        assert(num_of_digits(n.neg, ds, sc) == NumParse::Val(n));
    } else {
        let z = zero_seq((sc - l) as nat);
        assert(t =~= seq!['0', '.'] + z + ds);
        assert(t[0] == '0' && is_digit('0'));
        assert(t[1] == '.' && !is_digit('.'));
        lemma_digit_prefix_len_of(t, 1);
        assert(t.skip(2) =~= z + ds);
        assert(all_digits(z + ds)) by {
            assert(forall|j: int|
                0 <= j < z.len() ==> (z + ds)[j] == '0' && is_digit(#[trigger] (z + ds)[j]));
            assert(forall|j: int|
                z.len() <= j < (z + ds).len() ==> is_digit(#[trigger] (z + ds)[j]));
        };
        let digits = t.subrange(0, 1) + t.skip(2);
        assert(digits =~= zero_seq((sc - l + 1) as nat) + ds);
        lemma_digits_val_zero_prefix((sc - l + 1) as nat, ds);
        assert(t.len() - 1 - 1 == sc);
        assert(num_of_digits(n.neg, digits, sc) == NumParse::Val(n));
    }
}

} // verus!
