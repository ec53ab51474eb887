use vstd::prelude::*;

verus! {

/// Greatest common divisor by Euclid's algorithm.
pub open spec fn gcd(a: nat, b: nat) -> nat
    decreases b,
{
    if b == 0 {
        a
    } else {
        gcd(b, a % b)
    }
}

pub open spec fn abs(n: int) -> nat {
    if n < 0 {
        (-n) as nat
    } else {
        n as nat
    }
}

pub open spec fn in_i64(n: int) -> bool {
    i64::MIN <= n <= i64::MAX
}

/// The fraction `n / d` (with `d > 0`) in lowest terms, if numerator and denominator then
/// fit in 64 bits.
pub open spec fn reduced(n: int, d: int) -> Option<Rational> {
    let an = abs(n);
    let ad = abs(d);
    let g = gcd(an, ad);
    if g > 0 && an % g == 0 && ad % g == 0 {
        let q = (an / g) as int;
        let nn = if n < 0 { -q } else { q };
        let dd = (ad / g) as int;
        if in_i64(nn) && 1 <= dd <= i64::MAX {
            Some(Rational { num: nn as i64, den: dd as i64 })
        } else {
            None
        }
    } else {
        None
    }
}

/// The rational zero, `0/1`.
pub open spec fn zero_q() -> Rational {
    Rational { num: 0, den: 1 }
}

/// The rational one, `1/1`.
pub open spec fn one_q() -> Rational {
    Rational { num: 1, den: 1 }
}

/// A fraction already in lowest terms is its own reduced form.
pub proof fn lemma_reduced_lowest(r: Rational)
    requires
        r.lowest(),
    ensures
        reduced(r.num as int, r.den as int) == Some(r),
{
    let an = abs(r.num as int);
    assert(an % 1 == 0 && an / 1 == an);
    assert((r.den as int) % 1 == 0 && (r.den as int) / 1 == r.den);
}

/// Zero over any positive denominator reduces to `0/1`.
pub proof fn lemma_reduced_zero(d: int)
    requires
        0 < d <= i64::MAX,
    ensures
        reduced(0, d) == Some(zero_q()),
{
    assert(0int % d == 0) by (nonlinear_arith)
        requires
            d > 0,
    ;
    assert(gcd(0, d as nat) == gcd(d as nat, 0));
    assert(gcd(d as nat, 0) == d);
    assert(d % d == 0 && d / d == 1 && 0int / d == 0) by (nonlinear_arith)
        requires
            d > 0,
    ;
}

/// Adding zero, or multiplying by one, leaves a fraction in lowest terms as it is; multiplying
/// by zero gives `0/1`.
pub proof fn lemma_unit_arithmetic(x: Rational)
    requires
        x.lowest(),
        x.den <= i64::MAX,
    ensures
        x.spec_add(zero_q()) == Some(x),
        zero_q().spec_add(x) == Some(x),
        x.spec_mul(one_q()) == Some(x),
        x.spec_mul(zero_q()) == Some(zero_q()),
{
    lemma_reduced_lowest(x);
    assert(x.num * 1 + 0 * x.den == x.num);
    assert(x.den * 1 == x.den);
    assert(0 * x.den + x.num * 1 == x.num);
    assert(1 * x.den == x.den);
    assert(x.num * 0 == 0);
    lemma_reduced_zero(x.den as int);
}

/// A reduced fraction has the value of the fraction it was reduced from.
pub proof fn lemma_reduced_value(n: int, d: int)
    requires
        d > 0,
        reduced(n, d) is Some,
    ensures
        reduced(n, d)->0.num * d == n * reduced(n, d)->0.den,
        reduced(n, d)->0.den > 0,
{
    let an = abs(n);
    let ad = abs(d);
    let g = gcd(an, ad);
    let q = (an / g) as int;
    let dd = (ad / g) as int;
    vstd::arithmetic::div_mod::lemma_fundamental_div_mod(an as int, g as int);
    vstd::arithmetic::div_mod::lemma_fundamental_div_mod(ad as int, g as int);
    assert(an == g * q);
    assert(ad == g * dd);
    let r = reduced(n, d)->0;
    assert(r.den == dd);
    if n < 0 {
        assert(r.num == -q);
        assert((-q) * d == n * dd) by (nonlinear_arith)
            requires
                n == -(g * q),
                d == g * dd,
        ;
    } else {
        assert(r.num == q);
        assert(q * d == n * dd) by (nonlinear_arith)
            requires
                n == g * q,
                d == g * dd,
        ;
    }
}

/// Dividing by a nonzero rational and multiplying by it again gives a rational of the same
/// value.
pub proof fn lemma_div_then_mul(x: Rational, c: Rational)
    requires
        x.wf(),
        c.wf(),
        c.num != 0,
        x.spec_div(c) is Some,
        x.spec_div(c)->0.spec_mul(c) is Some,
    ensures
        x.spec_div(c)->0.spec_mul(c)->0.same_value(x),
{
    let iv = c.spec_inv()->0;
    if c.num > 0 {
        lemma_reduced_value(c.den as int, c.num as int);
    } else {
        lemma_reduced_value(-c.den, -c.num);
    }
    let cn = c.num as int;
    let cd = c.den as int;
    let pn = iv.num as int;
    let pd = iv.den as int;
    assert(pn * cn == cd * pd) by (nonlinear_arith)
        requires
            cn > 0 ==> pn * cn == cd * pd,
            cn < 0 ==> pn * (-cn) == (-cd) * pd,
            cn != 0,
    ;
    let y = x.spec_div(c)->0;
    let xn = x.num as int;
    let xd = x.den as int;
    assert(xd * pd > 0) by (nonlinear_arith)
        requires
            xd > 0,
            pd > 0,
    ;
    lemma_reduced_value(xn * pn, xd * pd);
    let yn = y.num as int;
    let yd = y.den as int;
    assert(yn * (xd * pd) == (xn * pn) * yd);
    let z = y.spec_mul(c)->0;
    assert(yd * cd > 0) by (nonlinear_arith)
        requires
            yd > 0,
            cd > 0,
    ;
    lemma_reduced_value(yn * cn, yd * cd);
    let zn = z.num as int;
    let zd = z.den as int;
    assert(zn * (yd * cd) == (yn * cn) * zd);
    let k = yd * cd * pd;
    assert(k > 0) by (nonlinear_arith)
        requires
            k == yd * cd * pd,
            yd > 0,
            cd > 0,
            pd > 0,
    ;
    assert(zn * xd * k == (zn * (yd * cd)) * xd * pd) by (nonlinear_arith)
        requires
            k == yd * cd * pd,
    ;
    assert((yn * cn) * zd * xd * pd == zd * cn * (yn * (xd * pd))) by (nonlinear_arith);
    assert(zd * cn * ((xn * pn) * yd) == zd * xn * yd * (pn * cn)) by (nonlinear_arith);
    assert(zd * xn * yd * (cd * pd) == xn * zd * k) by (nonlinear_arith)
        requires
            k == yd * cd * pd,
    ;
    assert(zn * xd * k == xn * zd * k);
    assert(zn * xd == xn * zd) by (nonlinear_arith)
        requires
            zn * xd * k == xn * zd * k,
            k > 0,
    ;
}

/// Addition of rationals does not depend on the order of the operands.
pub proof fn lemma_add_commutative(a: Rational, b: Rational)
    ensures
        a.spec_add(b) == b.spec_add(a),
{
    assert(a.den * b.den == b.den * a.den) by (nonlinear_arith);
    assert(a.num * b.den + b.num * a.den == b.num * a.den + a.num * b.den);
}

/// Multiplication of rationals does not depend on the order of the operands.
pub proof fn lemma_mul_commutative(a: Rational, b: Rational)
    ensures
        a.spec_mul(b) == b.spec_mul(a),
{
    assert(a.den * b.den == b.den * a.den) by (nonlinear_arith);
    assert(a.num * b.num == b.num * a.num) by (nonlinear_arith);
}

/// A rational number `num / den`; the arithmetic below gives its results in lowest terms with
/// a positive denominator.
#[derive(Debug)]
pub struct Rational {
    pub num: i64,
    pub den: i64,
}

impl Rational {
    /// The denominator is positive.
    pub open spec fn wf(self) -> bool {
        self.den > 0
    }

    /// The fraction is in lowest terms with a positive denominator.
    pub open spec fn lowest(self) -> bool {
        self.den > 0 && gcd(abs(self.num as int), abs(self.den as int)) == 1
    }

    /// `self` and `other` are the same rational number.
    pub open spec fn same_value(self, other: Rational) -> bool {
        self.num * other.den == other.num * self.den
    }

    /// `self` is an integer multiple of `c`.
    pub open spec fn is_multiple_of(self, c: Rational) -> bool {
        exists|k: int| self.num * c.den == #[trigger] times(k, self.den * c.num)
    }

    pub open spec fn spec_add(self, other: Rational) -> Option<Rational> {
        reduced(self.num * other.den + other.num * self.den, self.den * other.den)
    }

    pub open spec fn spec_mul(self, other: Rational) -> Option<Rational> {
        reduced(self.num * other.num, self.den * other.den)
    }

    pub open spec fn spec_neg(self) -> Option<Rational> {
        reduced(-self.num, self.den as int)
    }

    pub open spec fn spec_inv(self) -> Option<Rational> {
        if self.num == 0 {
            None
        } else if self.num > 0 {
            reduced(self.den as int, self.num as int)
        } else {
            reduced(-self.den, -self.num)
        }
    }

    pub open spec fn spec_div(self, other: Rational) -> Option<Rational> {
        match other.spec_inv() {
            Some(i) => self.spec_mul(i),
            None => None,
        }
    }


    /// The greatest common divisor of two rationals: the gcd of the numerators over the least
    /// common multiple of the denominators.
    pub open spec fn spec_gcd(self, other: Rational) -> Option<Rational> {
        let g = gcd(abs(self.den as int), abs(other.den as int));
        if g == 0 {
            None
        } else {
            let l = (abs(self.den as int) * abs(other.den as int)) / g;
            if l == 0 {
                None
            } else {
                reduced(gcd(abs(self.num as int), abs(other.num as int)) as int, l as int)
            }
        }
    }

    pub fn checked_gcd(&self, other: &Rational) -> (r: Option<Rational>)
        requires
            self.wf(),
            other.wf(),
        ensures
            r == self.spec_gcd(*other),
            r matches Some(q) ==> q.wf(),
    {
        let ad = self.den as u128;
        let bd = other.den as u128;
        let g = gcd_u128(ad, bd);
        if g == 0 {
            return None;
        }
        proof {
            lemma_mul_i64(self.den as int, other.den as int);
        }
        let l = (ad * bd) / g;
        if l == 0 {
            return None;
        }
        let an = abs_i128(self.num as i128);
        let bn = abs_i128(other.num as i128);
        let n = gcd_u128(an, bn);
        proof {
            lemma_gcd_bounded(an as nat, bn as nat);
            assert((ad as int) * (bd as int) / (g as int) <= (ad as int) * (bd as int)) by (nonlinear_arith)
                requires
                    g >= 1,
                    ad >= 1,
                    bd >= 1,
            ;
        }
        reduce(n as i128, l as i128)
    }

    /// The integer `n`.
    pub fn from_int(n: i64) -> (r: Rational)
        ensures
            r.num == n,
            r.den == 1,
    {
        Rational { num: n, den: 1 }
    }

    /// Zero.
    pub fn zero() -> (r: Rational)
        ensures
            r.num == 0,
            r.den == 1,
    {
        Rational { num: 0, den: 1 }
    }

    /// One.
    pub fn one() -> (r: Rational)
        ensures
            r.num == 1,
            r.den == 1,
    {
        Rational { num: 1, den: 1 }
    }

    /// The fraction `num / den` in lowest terms; `None` for a zero denominator or where the
    /// result does not fit in 64 bits.
    pub fn new(num: i64, den: i64) -> (r: Option<Rational>)
        ensures
            den == 0 ==> r is None,
            den > 0 ==> r == reduced(num as int, den as int),
            den < 0 ==> r == reduced(-num, -den),
    {
        if den == 0 {
            None
        } else if den > 0 {
            reduce(num as i128, den as i128)
        } else {
            reduce(-(num as i128), -(den as i128))
        }
    }

    pub fn copy(&self) -> (r: Rational)
        ensures
            r == *self,
    {
        Rational { num: self.num, den: self.den }
    }

    pub fn is_zero(&self) -> (r: bool)
        ensures
            r == (self.num == 0),
    {
        self.num == 0
    }

    /// Equality of values.
    pub fn eq_value(&self, other: &Rational) -> (r: bool)
        ensures
            r == self.same_value(*other),
    {
        proof {
            lemma_mul_i64(self.num as int, other.den as int);
            lemma_mul_i64(other.num as int, self.den as int);
        }
        (self.num as i128) * (other.den as i128) == (other.num as i128) * (self.den as i128)
    }

    pub fn checked_add(&self, other: &Rational) -> (r: Option<Rational>)
        requires
            self.wf(),
            other.wf(),
        ensures
            r == self.spec_add(*other),
    {
        proof {
            lemma_mul_den(self.num as int, other.den as int);
            lemma_mul_den(other.num as int, self.den as int);
            lemma_mul_i64(self.den as int, other.den as int);
            assert((self.den as int) * (other.den as int) > 0) by (nonlinear_arith)
                requires
                    self.den > 0,
                    other.den > 0,
            ;
        }
        let n = (self.num as i128) * (other.den as i128) + (other.num as i128) * (self.den as i128);
        let d = (self.den as i128) * (other.den as i128);
        reduce(n, d)
    }

    pub fn checked_mul(&self, other: &Rational) -> (r: Option<Rational>)
        requires
            self.wf(),
            other.wf(),
        ensures
            r == self.spec_mul(*other),
    {
        proof {
            lemma_mul_i64(self.num as int, other.num as int);
            lemma_mul_i64(self.den as int, other.den as int);
            assert((self.den as int) * (other.den as int) > 0) by (nonlinear_arith)
                requires
                    self.den > 0,
                    other.den > 0,
            ;
        }
        let n = (self.num as i128) * (other.num as i128);
        let d = (self.den as i128) * (other.den as i128);
        reduce(n, d)
    }

    pub fn checked_neg(&self) -> (r: Option<Rational>)
        requires
            self.wf(),
        ensures
            r == self.spec_neg(),
    {
        reduce(-(self.num as i128), self.den as i128)
    }

    pub fn checked_inv(&self) -> (r: Option<Rational>)
        requires
            self.wf(),
        ensures
            r == self.spec_inv(),
    {
        if self.num == 0 {
            None
        } else if self.num > 0 {
            reduce(self.den as i128, self.num as i128)
        } else {
            reduce(-(self.den as i128), -(self.num as i128))
        }
    }

    pub fn checked_div(&self, other: &Rational) -> (r: Option<Rational>)
        requires
            self.wf(),
            other.wf(),
        ensures
            r == self.spec_div(*other),
    {
        match other.checked_inv() {
            Some(i) => {
                assert(i.wf());
                self.checked_mul(&i)
            },
            None => None,
        }
    }
}

/// Euclid's algorithm.
fn gcd_u128(a: u128, b: u128) -> (r: u128)
    ensures
        r == gcd(a as nat, b as nat),
    decreases b,
{
    if b == 0 {
        a
    } else {
        gcd_u128(b, a % b)
    }
}

fn abs_i128(n: i128) -> (r: u128)
    requires
        n > i128::MIN,
    ensures
        r == abs(n as int),
{
    if n < 0 {
        (-n) as u128
    } else {
        n as u128
    }
}

/// `n / d` in lowest terms (see `reduced`).
fn reduce(n: i128, d: i128) -> (r: Option<Rational>)
    requires
        n > i128::MIN,
        d > 0,
    ensures
        r == reduced(n as int, d as int),
        r matches Some(q) ==> q.wf(),
{
    let an = abs_i128(n);
    let ad = d as u128;
    let g = gcd_u128(an, ad);
    if g > 0 && an % g == 0 && ad % g == 0 {
        let q = an / g;
        let dd = ad / g;
        if n < 0 {
            if q <= 0x8000_0000_0000_0000u128 && 1 <= dd && dd <= 0x7fff_ffff_ffff_ffffu128 {
                let num: i64 = if q == 0x8000_0000_0000_0000u128 {
                    i64::MIN
                } else {
                    -(q as i64)
                };
                return Some(Rational { num, den: dd as i64 });
            }
        } else {
            if q <= 0x7fff_ffff_ffff_ffffu128 && 1 <= dd && dd <= 0x7fff_ffff_ffff_ffffu128 {
                return Some(Rational { num: q as i64, den: dd as i64 });
            }
        }
    }
    None
}


/// Euclid's gcd of two numbers is at most the larger of them.
pub proof fn lemma_gcd_bounded(a: nat, b: nat)
    ensures
        gcd(a, b) <= if a >= b { a } else { b },
    decreases b,
{
    if b > 0 {
        lemma_gcd_bounded(b, a % b);
        assert(a % b < b);
    }
}

/// A 64-bit integer times a positive 64-bit integer stays below 2^126 in size.
proof fn lemma_mul_den(a: int, b: int)
    requires
        in_i64(a),
        0 < b <= i64::MAX,
    ensures
        -0x3fff_ffff_ffff_ffff_8000_0000_0000_0000 <= a * b <= 0x3fff_ffff_ffff_ffff_8000_0000_0000_0000,
{
    assert(-0x3fff_ffff_ffff_ffff_8000_0000_0000_0000 <= a * b <= 0x3fff_ffff_ffff_ffff_8000_0000_0000_0000) by (nonlinear_arith)
        requires
            -0x8000_0000_0000_0000 <= a <= 0x7fff_ffff_ffff_ffff,
            0 < b <= 0x7fff_ffff_ffff_ffff,
    ;
}

/// A product of two 64-bit integers fits in 127 bits.
proof fn lemma_mul_i64(a: int, b: int)
    requires
        in_i64(a),
        in_i64(b),
    ensures
        -0x4000_0000_0000_0000_0000_0000_0000_0000 <= a * b <= 0x4000_0000_0000_0000_0000_0000_0000_0000,
{
    assert(-0x4000_0000_0000_0000_0000_0000_0000_0000 <= a * b <= 0x4000_0000_0000_0000_0000_0000_0000_0000) by (nonlinear_arith)
        requires
            -0x8000_0000_0000_0000 <= a <= 0x7fff_ffff_ffff_ffff,
            -0x8000_0000_0000_0000 <= b <= 0x7fff_ffff_ffff_ffff,
    ;
}

/// `a` is an integer multiple of `g`.
pub open spec fn int_multiple(a: int, g: int) -> bool {
    exists|k: int| a == #[trigger] times(k, g)
}

/// `k` times `a`.
pub open spec fn times(k: int, a: int) -> int {
    k * a
}

/// The gcd divides both numbers, and is zero only for two zeros.
pub proof fn lemma_gcd_divides(a: nat, b: nat)
    ensures
        int_multiple(a as int, gcd(a, b) as int),
        int_multiple(b as int, gcd(a, b) as int),
        gcd(a, b) == 0 ==> a == 0 && b == 0,
    decreases b,
{
    if b == 0 {
        assert(a as int == times(1, a as int));
        assert(0int == times(0, a as int));
    } else {
        lemma_gcd_divides(b, a % b);
        let g = gcd(a, b) as int;
        let k1 = choose|k: int| b as int == #[trigger] times(k, g);
        let k2 = choose|k: int| (a % b) as int == #[trigger] times(k, g);
        vstd::arithmetic::div_mod::lemma_fundamental_div_mod(a as int, b as int);
        let q = (a / b) as int;
        assert(a as int == times(q * k1 + k2, g)) by (nonlinear_arith)
            requires
                a as int == b * q + (a % b) as int,
                b as int == k1 * g,
                (a % b) as int == k2 * g,
        ;
        if g == 0 {
            assert(b as int == times(k1, 0));
        }
    }
}

/// The gcd of two rationals divides both.
pub proof fn lemma_spec_gcd_divides(x: Rational, y: Rational)
    requires
        x.wf(),
        y.wf(),
        x.spec_gcd(y) is Some,
    ensures
        x.is_multiple_of(x.spec_gcd(y)->0),
        y.is_multiple_of(x.spec_gcd(y)->0),
        x.spec_gcd(y)->0.wf(),
{
    let c = x.spec_gcd(y)->0;
    let ad = x.den as int;
    let ed = y.den as int;
    let g2 = gcd(abs(ad), abs(ed)) as int;
    lemma_gcd_divides(abs(ad), abs(ed));
    let ka = choose|k: int| ad == #[trigger] times(k, g2);
    let ke = choose|k: int| ed == #[trigger] times(k, g2);
    let l = (abs(ad) * abs(ed)) / (g2 as nat);
    assert(g2 > 0);
    assert(ad * ed == g2 * (ka * ed)) by (nonlinear_arith)
        requires
            ad == ka * g2,
    ;
    vstd::arithmetic::div_mod::lemma_div_multiples_vanish(ka * ed, g2);
    assert(l == ka * ed);
    assert(ka * ed == ad * ke) by (nonlinear_arith)
        requires
            ad == ka * g2,
            ed == ke * g2,
    ;
    let gg = gcd(abs(x.num as int), abs(y.num as int)) as int;
    lemma_gcd_divides(abs(x.num as int), abs(y.num as int));
    let mx = choose|k: int| abs(x.num as int) as int == #[trigger] times(k, gg);
    let my = choose|k: int| abs(y.num as int) as int == #[trigger] times(k, gg);
    let sx: int = if x.num < 0 { -mx } else { mx };
    let sy: int = if y.num < 0 { -my } else { my };
    assert(x.num == sx * gg) by (nonlinear_arith)
        requires
            abs(x.num as int) as int == mx * gg,
            sx == (if x.num < 0 { -mx } else { mx }),
            abs(x.num as int) as int == (if x.num < 0 { -x.num } else { x.num as int }),
    ;
    assert(y.num == sy * gg) by (nonlinear_arith)
        requires
            abs(y.num as int) as int == my * gg,
            sy == (if y.num < 0 { -my } else { my }),
            abs(y.num as int) as int == (if y.num < 0 { -y.num } else { y.num as int }),
    ;
    assert(l > 0);
    lemma_reduced_value(gg, l as int);
    let cn = c.num as int;
    let cd = c.den as int;
    assert(cn * l == gg * cd);
    if gg == 0 {
        assert(cn == 0) by (nonlinear_arith)
            requires
                cn * l == 0,
                l > 0,
        ;
        assert(x.num * cd == times(0, ad * cn));
        assert(y.num * cd == times(0, ed * cn));
    } else {
        let kx = sx * ke;
        assert(x.num * cd == times(kx, ad * cn)) by (nonlinear_arith)
            requires
                cn * l == gg * cd,
                l == ad * ke,
                x.num == sx * gg,
                kx == sx * ke,
                gg != 0,
        ;
        let ky = sy * ka;
        assert(y.num * cd == times(ky, ed * cn)) by (nonlinear_arith)
            requires
                cn * l == gg * cd,
                l == ka * ed,
                y.num == sy * gg,
                ky == sy * ka,
                gg != 0,
        ;
    }
}

/// A multiple of a multiple is a multiple.
pub proof fn lemma_multiple_trans(x: Rational, a: Rational, c: Rational)
    requires
        a.wf(),
        x.is_multiple_of(a),
        a.is_multiple_of(c),
    ensures
        x.is_multiple_of(c),
{
    let k1 = choose|k: int| x.num * a.den == #[trigger] times(k, x.den * a.num);
    let k2 = choose|k: int| a.num * c.den == #[trigger] times(k, a.den * c.num);
    let xn = x.num as int;
    let xd = x.den as int;
    let an = a.num as int;
    let ad = a.den as int;
    let cn = c.num as int;
    let cd = c.den as int;
    assert(xn * ad == k1 * (xd * an));
    assert(an * cd == k2 * (ad * cn));
    assert((xn * cd) * ad == (k1 * xd) * (an * cd)) by (nonlinear_arith)
        requires
            xn * ad == k1 * (xd * an),
    ;
    assert((k1 * xd) * (an * cd) == ((k1 * k2) * (xd * cn)) * ad) by (nonlinear_arith)
        requires
            an * cd == k2 * (ad * cn),
    ;
    assert(xn * cd == (k1 * k2) * (xd * cn)) by (nonlinear_arith)
        requires
            (xn * cd) * ad == ((k1 * k2) * (xd * cn)) * ad,
            ad > 0,
    ;
    assert(xn * cd == times(k1 * k2, xd * cn));
}

/// A common divisor of two numbers divides their gcd.
pub proof fn lemma_gcd_greatest(a: nat, b: nat, d: int)
    requires
        int_multiple(a as int, d),
        int_multiple(b as int, d),
    ensures
        int_multiple(gcd(a, b) as int, d),
    decreases b,
{
    if b > 0 {
        let ka = choose|k: int| a as int == #[trigger] times(k, d);
        let kb = choose|k: int| b as int == #[trigger] times(k, d);
        vstd::arithmetic::div_mod::lemma_fundamental_div_mod(a as int, b as int);
        let q = (a / b) as int;
        assert((a % b) as int == times(ka - q * kb, d)) by (nonlinear_arith)
            requires
                a as int == b * q + (a % b) as int,
                a as int == ka * d,
                b as int == kb * d,
        ;
        lemma_gcd_greatest(b, a % b, d);
    }
}

} // verus!
