use vstd::arithmetic::div_mod::{
    lemma_fundamental_div_mod, lemma_mod_multiples_basic, lemma_div_nonincreasing,
};
use vstd::prelude::*;

verus! {

/// The mathematical value of an exact quantity: a fraction `n / d` of
/// unbounded integers. Two values are the same quantity when they agree
/// under cross-multiplication, so `1/2` and `2/4` are equivalent.
pub struct Rat {
    pub n: int,
    pub d: int,
}

impl Rat {
    /// A fraction is well formed when its denominator is positive.
    pub open spec fn wf(self) -> bool {
        self.d > 0
    }

    /// The whole number `i`.
    pub open spec fn whole(i: int) -> Rat {
        Rat { n: i, d: 1 }
    }

    /// Value equality: `a/b == c/d` exactly when `a*d == c*b`.
    pub open spec fn eqv(self, o: Rat) -> bool {
        self.n * o.d == o.n * self.d
    }

    /// Value order (meaningful for well-formed fractions).
    pub open spec fn le(self, o: Rat) -> bool {
        self.n * o.d <= o.n * self.d
    }

    pub open spec fn lt(self, o: Rat) -> bool {
        self.n * o.d < o.n * self.d
    }

    pub open spec fn is_zero(self) -> bool {
        self.n == 0
    }

    /// Strictly negative (meaningful for well-formed fractions).
    pub open spec fn is_neg(self) -> bool {
        self.n < 0
    }

    pub open spec fn neg(self) -> Rat {
        Rat { n: -self.n, d: self.d }
    }

    pub open spec fn abs(self) -> Rat {
        if self.n < 0 {
            self.neg()
        } else {
            self
        }
    }

    pub open spec fn add(self, o: Rat) -> Rat {
        Rat { n: self.n * o.d + o.n * self.d, d: self.d * o.d }
    }

    pub open spec fn sub(self, o: Rat) -> Rat {
        self.add(o.neg())
    }

    pub open spec fn mul(self, o: Rat) -> Rat {
        Rat { n: self.n * o.n, d: self.d * o.d }
    }

    /// The reciprocal, with the sign carried by the numerator so that a
    /// well-formed nonzero fraction has a well-formed reciprocal.
    pub open spec fn recip(self) -> Rat {
        if self.n < 0 {
            Rat { n: -self.d, d: -self.n }
        } else {
            Rat { n: self.d, d: self.n }
        }
    }

    pub open spec fn div(self, o: Rat) -> Rat {
        self.mul(o.recip())
    }
}

/// The sum of a sequence of fractions, folded from the left.
pub open spec fn rat_sum(s: Seq<Rat>) -> Rat
    decreases s.len(),
{
    if s.len() == 0 {
        Rat::whole(0)
    } else {
        rat_sum(s.drop_last()).add(s.last())
    }
}

/// An exact quantity: a fraction of two machine integers with a positive
/// denominator. Views as a `Rat`; all arithmetic is exact, and the checked
/// operations return `None` only when a result cannot be brought back into
/// machine range even after cancelling common factors.
#[derive(Clone, Copy, Debug)]
pub struct Rational {
    num: i64,
    den: i64,
}

impl View for Rational {
    type V = Rat;

    closed spec fn view(&self) -> Rat {
        Rat { n: self.num as int, d: self.den as int }
    }
}

/// The magnitude of an unbounded integer.
pub open spec fn int_abs(i: int) -> int {
    if i < 0 {
        -i
    } else {
        i
    }
}

/// Both parts fit the machine word, with the numerator kept out of
/// `i64::MIN` so that negation never overflows.
pub open spec fn rational_wf(r: Rational) -> bool {
    r@.wf() && -0x7fff_ffff_ffff_ffffint <= r@.n <= 0x7fff_ffff_ffff_ffff && r@.d
        <= 0x7fff_ffff_ffff_ffff
}

/// Euclid's greatest common divisor of two nonnegative integers.
pub open spec fn spec_gcd(a: nat, b: nat) -> nat
    decreases b,
{
    if b == 0 {
        a
    } else {
        spec_gcd(b, a % b)
    }
}

/// `x` and `y` witness the identity `x*a + y*b == gcd(a, b)`.
pub open spec fn bezout_pair(a: nat, b: nat, x: int, y: int) -> bool {
    x * a + y * b == spec_gcd(a, b)
}

/// Bezout's identity: the greatest common divisor is an integer
/// combination of the two numbers.
proof fn lemma_bezout(a: nat, b: nat)
    ensures
        exists|x: int, y: int| #[trigger] bezout_pair(a, b, x, y),
    decreases b,
{
    if b == 0 {
        assert(1int * a + 0int * b == a) by (nonlinear_arith);
        assert(bezout_pair(a, b, 1int, 0int));
    } else {
        lemma_bezout(b, a % b);
        let (x2, y2): (int, int) = choose|x2: int, y2: int| #[trigger] bezout_pair(
            b,
            a % b,
            x2,
            y2,
        );
        lemma_fundamental_div_mod(a as int, b as int);
        assert(y2 * a + (x2 - y2 * ((a as int) / (b as int))) * b == x2 * b + y2 * ((
        a % b) as int)) by (nonlinear_arith)
            requires
                a as int == (b as int) * ((a as int) / (b as int)) + ((a % b) as int),
        ;
        assert((a % b) as int == (a as int) % (b as int));
        assert(bezout_pair(a, b, y2, x2 - y2 * ((a as int) / (b as int))));
    }
}

/// A fraction whose parts admit a Bezout pair summing to one is minimal:
/// its parts divide, and so are bounded by, those of every equivalent
/// fraction on the same side of zero.
proof fn lemma_minimal_parts(uq: int, dq: int, nn: int, dd: int, x: int, y: int)
    requires
        uq >= 0,
        dq > 0,
        dd > 0,
        nn >= 0,
        x * uq + y * dq == 1,
        uq * dd == nn * dq,
    ensures
        dq <= dd,
        uq <= nn || nn == 0,
{
    let m = x * nn + y * dd;
    assert(dd == dq * m) by (nonlinear_arith)
        requires
            x * uq + y * dq == 1,
            uq * dd == nn * dq,
            m == x * nn + y * dd,
    ;
    assert(nn == uq * m) by (nonlinear_arith)
        requires
            x * uq + y * dq == 1,
            uq * dd == nn * dq,
            m == x * nn + y * dd,
    ;
    assert(m >= 1) by (nonlinear_arith)
        requires
            dd == dq * m,
            dd > 0,
            dq > 0,
    ;
    assert(dq <= dd) by (nonlinear_arith)
        requires
            dd == dq * m,
            m >= 1,
            dq > 0,
    ;
    assert(uq <= nn || nn == 0) by (nonlinear_arith)
        requires
            nn == uq * m,
            m >= 1,
            uq >= 0,
    ;
}

proof fn lemma_divides_transfer(x: int, y: int, g: int)
    requires
        g > 0,
        y > 0,
        x >= 0,
        y % g == 0,
        (x % y) % g == 0,
    ensures
        x % g == 0,
{
    let q = x / y;
    let r = x % y;
    lemma_fundamental_div_mod(x, y);
    lemma_fundamental_div_mod(y, g);
    lemma_fundamental_div_mod(r, g);
    let a = y / g;
    let b = r / g;
    assert(x == g * (a * q + b)) by (nonlinear_arith)
        requires
            x == y * q + r,
            y == g * a,
            r == g * b,
    ;
    lemma_mod_multiples_basic(a * q + b, g);
}

/// A positive common divisor of `a` and `b`, by Euclid's procedure.
fn common_divisor(a: u128, b: u128) -> (g: u128)
    requires
        a > 0,
    ensures
        g > 0,
        a as int % g as int == 0,
        b as int % g as int == 0,
        g as nat == spec_gcd(a as nat, b as nat),
{
    let mut x = a;
    let mut y = b;
    while y != 0
        invariant
            x > 0,
            spec_gcd(x as nat, y as nat) == spec_gcd(a as nat, b as nat),
            forall|g: int|
                1 <= g && x as int % g == 0 && y as int % g == 0 ==> #[trigger] (a as int % g)
                    == 0 && b as int % g == 0,
        decreases y,
    {
        let t = x % y;
        proof {
            assert forall|g: int|
                1 <= g && y as int % g == 0 && t as int % g == 0 implies #[trigger] (a as int % g)
                == 0 && b as int % g == 0 by {
                lemma_divides_transfer(x as int, y as int, g);
            }
        }
        x = y;
        y = t;
    }
    proof {
        lemma_mod_multiples_basic(1, x as int);
        assert(x as int % x as int == 0);
        assert(0int % x as int == 0) by {
            lemma_mod_multiples_basic(0, x as int);
        }
    }
    x
}

/// Divide out a common factor and check that the result fits; the value,
/// read as a fraction, is unchanged.
fn reduce(n: i128, d: i128) -> (r: Option<Rational>)
    requires
        d > 0,
        n > -0x8000_0000_0000_0000_0000_0000_0000_0000i128,
    ensures
        r matches Some(q) ==> rational_wf(q) && q@.eqv(Rat { n: n as int, d: d as int }),
        r matches Some(q) ==> int_abs(q@.n) <= int_abs(n as int) && q@.d <= d as int,
        r matches Some(q) ==> (forall|nn: int, dd: int|
            dd > 0 && #[trigger] q@.eqv(Rat { n: nn, d: dd }) ==> int_abs(q@.n) <= int_abs(nn)
                && q@.d <= dd),
        (-0x7fff_ffff_ffff_ffffi128 <= n <= 0x7fff_ffff_ffff_ffffi128 && d
            <= 0x7fff_ffff_ffff_ffffi128) ==> r is Some,
        (exists|nn: int, dd: int|
            0 < dd <= 0x7fff_ffff_ffff_ffff && int_abs(nn) <= 0x7fff_ffff_ffff_ffff
                && #[trigger] (Rat { n: n as int, d: d as int }).eqv(Rat { n: nn, d: dd }))
            ==> r is Some,
{
    if n == 0 {
        proof {
            assert(0int * (d as int) == 0 * 1);
            let q0 = Rat { n: 0int, d: 1int };
            assert forall|nn: int, dd: int| dd > 0 && #[trigger] q0.eqv(
                Rat { n: nn, d: dd },
            ) implies int_abs(q0.n) <= int_abs(nn) && q0.d <= dd by {
                assert(0 * dd == nn * 1);
                assert(nn * 1 == nn) by (nonlinear_arith);
                assert(0 * dd == 0) by (nonlinear_arith);
            }
        }
        return Some(Rational { num: 0, den: 1 });
    }
    let neg = n < 0;
    let un: u128 = if neg {
        (-n) as u128
    } else {
        n as u128
    };
    let g = common_divisor(un, d as u128);
    let uq = un / g;
    let dq = (d as u128) / g;
    proof {
        if neg {
            assert(un as int == -(n as int));
        } else {
            assert(un as int == n as int);
        }
        lemma_fundamental_div_mod(un as int, g as int);
        lemma_fundamental_div_mod(d as int, g as int);
        lemma_div_nonincreasing(un as int, g as int);
        lemma_div_nonincreasing(d as int, g as int);
        assert(un as int == g as int * (uq as int));
        assert(d as int == g as int * (dq as int));
        assert(dq as int >= 1) by (nonlinear_arith)
            requires
                d as int == g as int * (dq as int),
                d > 0,
                g as int > 0,
                dq as int >= 0,
        ;
        assert(uq as int >= 1) by (nonlinear_arith)
            requires
                un as int == g as int * (uq as int),
                un > 0,
                g as int > 0,
                uq as int >= 0,
        ;
        lemma_bezout(un as nat, d as nat);
    }
    let ghost bz: (int, int) = choose|x: int, y: int|
        #[trigger] bezout_pair(un as nat, d as nat, x, y);
    proof {
        let x = bz.0;
        let y = bz.1;
        assert(bezout_pair(un as nat, d as nat, x, y));
        assert(x * (un as int) + y * (d as int) == g as int);
        // the Bezout identity descends to the reduced parts
        assert(g as int * (x * (uq as int) + y * (dq as int)) == g as int * 1)
            by (nonlinear_arith)
            requires
                un as int == g as int * (uq as int),
                d as int == g as int * (dq as int),
                x * (un as int) + y * (d as int) == g as int,
        ;
        assert(x * (uq as int) + y * (dq as int) == 1) by (nonlinear_arith)
            requires
                g as int > 0,
                g as int * (x * (uq as int) + y * (dq as int)) == g as int * 1,
        ;
    }
    if uq > 0x7fff_ffff_ffff_ffff || dq > 0x7fff_ffff_ffff_ffff {
        proof {
            let maxv = 0x7fff_ffff_ffff_ffffint;
            if exists|nn: int, dd: int|
                0 < dd <= maxv && int_abs(nn) <= maxv && #[trigger] (Rat {
                    n: n as int,
                    d: d as int,
                }).eqv(Rat { n: nn, d: dd }) {
                let (nn, dd): (int, int) = choose|nn: int, dd: int|
                    0 < dd <= maxv && int_abs(nn) <= maxv && #[trigger] (Rat {
                        n: n as int,
                        d: d as int,
                    }).eqv(Rat { n: nn, d: dd });
                assert((n as int) * dd == nn * (d as int));
                let nmag: int = if neg {
                    -nn
                } else {
                    nn
                };
                assert((un as int) * dd == nmag * (d as int)) by (nonlinear_arith)
                    requires
                        (n as int) * dd == nn * (d as int),
                        (neg ==> un as int == -(n as int) && nmag == -nn),
                        (!neg ==> un as int == n as int && nmag == nn),
                ;
                assert(nmag >= 0) by (nonlinear_arith)
                    requires
                        (un as int) * dd == nmag * (d as int),
                        un > 0,
                        dd > 0,
                        d > 0,
                ;
                assert((uq as int) * dd == nmag * (dq as int)) by (nonlinear_arith)
                    requires
                        (un as int) * dd == nmag * (d as int),
                        un as int == g as int * (uq as int),
                        d as int == g as int * (dq as int),
                        g as int > 0,
                ;
                lemma_minimal_parts(uq as int, dq as int, nmag, dd, bz.0, bz.1);
                assert(nmag != 0) by (nonlinear_arith)
                    requires
                        (uq as int) * dd == nmag * (dq as int),
                        uq as int >= 1,
                        dd > 0,
                        dq as int >= 1,
                ;
                assert(int_abs(nn) == nmag);
                assert(false);
            }
        }
        return None;
    }
    let num: i64 = if neg {
        -(uq as i64)
    } else {
        uq as i64
    };
    let den: i64 = dq as i64;
    let result = Rational { num, den };
    proof {
        let gg = g as int;
        let a = uq as int;
        let b = dq as int;
        assert(dq > 0);
        if neg {
            assert((-a) * (d as int) == (n as int) * b) by (nonlinear_arith)
                requires
                    -(n as int) == gg * a,
                    d as int == gg * b,
            ;
            assert(result@.n == -a && result@.d == b);
        } else {
            assert(a * (d as int) == (n as int) * b) by (nonlinear_arith)
                requires
                    n as int == gg * a,
                    d as int == gg * b,
            ;
            assert(result@.n == a && result@.d == b);
        }
        assert(result@.eqv(Rat { n: n as int, d: d as int }));
        // cancelling a common factor only shrinks the parts
        assert(int_abs(result@.n) == uq as int);
        assert(int_abs(n as int) == un as int);
        // the reduced parts are minimal among all equivalent fractions
        assert forall|nn: int, dd: int| dd > 0 && #[trigger] result@.eqv(
            Rat { n: nn, d: dd },
        ) implies int_abs(result@.n) <= int_abs(nn) && result@.d <= dd by {
            assert(result@.n * dd == nn * (dq as int));
            let nmag: int = if neg {
                -nn
            } else {
                nn
            };
            assert((uq as int) * dd == nmag * (dq as int)) by (nonlinear_arith)
                requires
                    result@.n * dd == nn * (dq as int),
                    (neg ==> result@.n == -(uq as int) && nmag == -nn),
                    (!neg ==> result@.n == uq as int && nmag == nn),
            ;
            assert(nmag >= 0) by (nonlinear_arith)
                requires
                    (uq as int) * dd == nmag * (dq as int),
                    uq as int >= 1,
                    dd > 0,
                    dq as int >= 1,
            ;
            lemma_minimal_parts(uq as int, dq as int, nmag, dd, bz.0, bz.1);
            assert(nmag != 0) by (nonlinear_arith)
                requires
                    (uq as int) * dd == nmag * (dq as int),
                    uq as int >= 1,
                    dd > 0,
                    dq as int >= 1,
            ;
            assert(int_abs(nn) == nmag);
        }
    }
    Some(result)
}

impl Rational {
    /// The quantity zero.
    pub fn zero() -> (r: Rational)
        ensures
            rational_wf(r),
            r@ == Rat::whole(0),
    {
        Rational { num: 0, den: 1 }
    }

    /// The whole number `n`.
    pub fn from_integer(n: i64) -> (r: Rational)
        requires
            n > -0x8000_0000_0000_0000i64,
        ensures
            rational_wf(r),
            r@ == Rat::whole(n as int),
    {
        Rational { num: n, den: 1 }
    }

    /// The fraction `num / den`, brought to a positive denominator.
    pub fn new(num: i64, den: i64) -> (r: Option<Rational>)
        requires
            num > -0x8000_0000_0000_0000i64,
            den != 0,
        ensures
            r matches Some(q) ==> rational_wf(q) && q@.eqv(Rat { n: num as int, d: den as int }),
            r matches Some(q) ==> int_abs(q@.n) <= int_abs(num as int) && q@.d <= int_abs(
                den as int,
            ),
            den > 0 ==> r is Some,
    {
        if den > 0 {
            reduce(num as i128, den as i128)
        } else {
            let r = reduce(-(num as i128), -(den as i128));
            proof {
                match r {
                    Some(q) => {
                        assert(q@.n * (den as int) == (num as int) * q@.d) by (nonlinear_arith)
                            requires
                                q@.n * (-(den as int)) == (-(num as int)) * q@.d,
                        ;
                        assert(q@.eqv(Rat { n: num as int, d: den as int }));
                    },
                    None => {},
                }
            }
            r
        }
    }

    /// The decimal `mantissa * 10^(-scale)`, e.g. `decimal(3720, 2)` is 37.20.
    pub fn decimal(mantissa: i64, scale: u32) -> (r: Rational)
        requires
            mantissa > -0x8000_0000_0000_0000i64,
            scale <= 18,
        ensures
            rational_wf(r),
            r@.eqv(Rat { n: mantissa as int, d: spec_pow10(scale as nat) }),
            r@.n == mantissa as int,
            r@.d == spec_pow10(scale as nat),
    {
        let den = pow10(scale);
        let r = Rational { num: mantissa, den };
        proof {
            assert(r@.eqv(Rat { n: mantissa as int, d: spec_pow10(scale as nat) }));
        }
        r
    }
}

/// Bounds on a product, for overflow reasoning about machine arithmetic.
pub proof fn lemma_mul_abs_bound(a: int, b: int, ma: int, mb: int) by (nonlinear_arith)
    requires
        -ma <= a <= ma,
        -mb <= b <= mb,
        0 <= ma,
        0 <= mb,
    ensures
        -(ma * mb) <= a * b <= ma * mb,
        (a > 0 && b > 0) ==> a * b > 0,
{
}

/// Fractions whose parts stay well inside machine range; sums, differences
/// and products of two such values never need to be refused.
pub open spec fn small(r: Rat) -> bool {
    -0x4000_0000 <= r.n <= 0x4000_0000 && 0 < r.d <= 0x4000_0000
}

impl Rational {
    /// Exact addition; `None` only when the reduced result leaves machine range.
    pub fn checked_add(self, o: Rational) -> (r: Option<Rational>)
        requires
            rational_wf(self),
            rational_wf(o),
        ensures
            r matches Some(q) ==> rational_wf(q) && q@.eqv(self@.add(o@)),
            r matches Some(q) ==> int_abs(q@.n) <= int_abs(self@.n * o@.d + o@.n * self@.d)
                && q@.d <= self@.d * o@.d,
            small(self@) && small(o@) ==> r is Some,
            (int_abs(self@.n * o@.d + o@.n * self@.d) <= 0x7fff_ffff_ffff_ffff && self@.d * o@.d
                <= 0x7fff_ffff_ffff_ffff) ==> r is Some,
            r matches Some(q) ==> (forall|nn: int, dd: int|
                dd > 0 && #[trigger] q@.eqv(Rat { n: nn, d: dd }) ==> int_abs(q@.n) <= int_abs(nn)
                    && q@.d <= dd),
            (exists|nn: int, dd: int|
                0 < dd <= 0x7fff_ffff_ffff_ffff && int_abs(nn) <= 0x7fff_ffff_ffff_ffff
                    && #[trigger] (self@.add(o@)).eqv(Rat { n: nn, d: dd })) ==> r is Some,
    {
        proof {
            lemma_mul_abs_bound(self@.n, o@.d, 0x7fff_ffff_ffff_ffff, 0x7fff_ffff_ffff_ffff);
            lemma_mul_abs_bound(o@.n, self@.d, 0x7fff_ffff_ffff_ffff, 0x7fff_ffff_ffff_ffff);
            lemma_mul_abs_bound(self@.d, o@.d, 0x7fff_ffff_ffff_ffff, 0x7fff_ffff_ffff_ffff);
            if small(self@) && small(o@) {
                lemma_mul_abs_bound(self@.n, o@.d, 0x4000_0000, 0x4000_0000);
                lemma_mul_abs_bound(o@.n, self@.d, 0x4000_0000, 0x4000_0000);
                lemma_mul_abs_bound(self@.d, o@.d, 0x4000_0000, 0x4000_0000);
            }
        }
        let n = (self.num as i128) * (o.den as i128) + (o.num as i128) * (self.den as i128);
        let d = (self.den as i128) * (o.den as i128);
        proof {
            assert(n as int == self@.n * o@.d + o@.n * self@.d);
            assert(d as int == self@.d * o@.d);
            assert(Rat { n: n as int, d: d as int } == self@.add(o@));
        }
        reduce(n, d)
    }

    /// Exact negation; always representable.
    pub fn neg(self) -> (r: Rational)
        requires
            rational_wf(self),
        ensures
            rational_wf(r),
            r@ == self@.neg(),
    {
        Rational { num: -self.num, den: self.den }
    }

    /// Exact subtraction; `None` only when the reduced result leaves machine range.
    pub fn checked_sub(self, o: Rational) -> (r: Option<Rational>)
        requires
            rational_wf(self),
            rational_wf(o),
        ensures
            r matches Some(q) ==> rational_wf(q) && q@.eqv(self@.sub(o@)),
            r matches Some(q) ==> int_abs(q@.n) <= int_abs(self@.n * o@.d - o@.n * self@.d)
                && q@.d <= self@.d * o@.d,
            small(self@) && small(o@) ==> r is Some,
            (int_abs(self@.n * o@.d - o@.n * self@.d) <= 0x7fff_ffff_ffff_ffff && self@.d * o@.d
                <= 0x7fff_ffff_ffff_ffff) ==> r is Some,
            r matches Some(q) ==> (forall|nn: int, dd: int|
                dd > 0 && #[trigger] q@.eqv(Rat { n: nn, d: dd }) ==> int_abs(q@.n) <= int_abs(nn)
                    && q@.d <= dd),
            (exists|nn: int, dd: int|
                0 < dd <= 0x7fff_ffff_ffff_ffff && int_abs(nn) <= 0x7fff_ffff_ffff_ffff
                    && #[trigger] (self@.sub(o@)).eqv(Rat { n: nn, d: dd })) ==> r is Some,
    {
        let on = o.neg();
        let r = self.checked_add(on);
        proof {
            assert(on@.n == -o@.n && on@.d == o@.d);
            assert(self@.n * o@.d + (-o@.n) * self@.d == self@.n * o@.d - o@.n * self@.d)
                by (nonlinear_arith);
            assert(self@.add(on@) == self@.sub(o@));
        }
        r
    }

    /// Exact multiplication; `None` only when the reduced result leaves machine range.
    pub fn checked_mul(self, o: Rational) -> (r: Option<Rational>)
        requires
            rational_wf(self),
            rational_wf(o),
        ensures
            r matches Some(q) ==> rational_wf(q) && q@.eqv(self@.mul(o@)),
            r matches Some(q) ==> int_abs(q@.n) <= int_abs(self@.n * o@.n) && q@.d <= self@.d
                * o@.d,
            small(self@) && small(o@) ==> r is Some,
            (int_abs(self@.n * o@.n) <= 0x7fff_ffff_ffff_ffff && self@.d * o@.d
                <= 0x7fff_ffff_ffff_ffff) ==> r is Some,
            r matches Some(q) ==> (forall|nn: int, dd: int|
                dd > 0 && #[trigger] q@.eqv(Rat { n: nn, d: dd }) ==> int_abs(q@.n) <= int_abs(nn)
                    && q@.d <= dd),
            (exists|nn: int, dd: int|
                0 < dd <= 0x7fff_ffff_ffff_ffff && int_abs(nn) <= 0x7fff_ffff_ffff_ffff
                    && #[trigger] (self@.mul(o@)).eqv(Rat { n: nn, d: dd })) ==> r is Some,
    {
        proof {
            lemma_mul_abs_bound(self@.n, o@.n, 0x7fff_ffff_ffff_ffff, 0x7fff_ffff_ffff_ffff);
            lemma_mul_abs_bound(self@.d, o@.d, 0x7fff_ffff_ffff_ffff, 0x7fff_ffff_ffff_ffff);
            if small(self@) && small(o@) {
                lemma_mul_abs_bound(self@.n, o@.n, 0x4000_0000, 0x4000_0000);
                lemma_mul_abs_bound(self@.d, o@.d, 0x4000_0000, 0x4000_0000);
            }
        }
        let n = (self.num as i128) * (o.num as i128);
        let d = (self.den as i128) * (o.den as i128);
        proof {
            assert(Rat { n: n as int, d: d as int } == self@.mul(o@));
        }
        reduce(n, d)
    }

    /// Exact division by a nonzero quantity; `None` only when the reduced
    /// result leaves machine range.
    pub fn checked_div(self, o: Rational) -> (r: Option<Rational>)
        requires
            rational_wf(self),
            rational_wf(o),
            !o@.is_zero(),
        ensures
            r matches Some(q) ==> rational_wf(q) && q@.eqv(self@.div(o@)),
            r matches Some(q) ==> int_abs(q@.n) <= int_abs(self@.n * o@.d) && q@.d <= int_abs(
                self@.d * o@.n,
            ),
            small(self@) && small(o@) ==> r is Some,
            (int_abs(self@.n * o@.d) <= 0x7fff_ffff_ffff_ffff && int_abs(self@.d * o@.n)
                <= 0x7fff_ffff_ffff_ffff) ==> r is Some,
            r matches Some(q) ==> (forall|nn: int, dd: int|
                dd > 0 && #[trigger] q@.eqv(Rat { n: nn, d: dd }) ==> int_abs(q@.n) <= int_abs(nn)
                    && q@.d <= dd),
            (exists|nn: int, dd: int|
                0 < dd <= 0x7fff_ffff_ffff_ffff && int_abs(nn) <= 0x7fff_ffff_ffff_ffff
                    && #[trigger] (self@.div(o@)).eqv(Rat { n: nn, d: dd })) ==> r is Some,
    {
        proof {
            if small(self@) && small(o@) {
                lemma_mul_abs_bound(self@.n, o@.d, 0x4000_0000, 0x4000_0000);
                lemma_mul_abs_bound(self@.n, -o@.d, 0x4000_0000, 0x4000_0000);
                lemma_mul_abs_bound(self@.d, o@.n, 0x4000_0000, 0x4000_0000);
                lemma_mul_abs_bound(self@.d, -o@.n, 0x4000_0000, 0x4000_0000);
            }
            lemma_mul_abs_bound(self@.n, o@.d, 0x7fff_ffff_ffff_ffff, 0x7fff_ffff_ffff_ffff);
            lemma_mul_abs_bound(self@.n, -o@.d, 0x7fff_ffff_ffff_ffff, 0x7fff_ffff_ffff_ffff);
            lemma_mul_abs_bound(self@.d, o@.n, 0x7fff_ffff_ffff_ffff, 0x7fff_ffff_ffff_ffff);
            lemma_mul_abs_bound(self@.d, -o@.n, 0x7fff_ffff_ffff_ffff, 0x7fff_ffff_ffff_ffff);
        }
        if o.num < 0 {
            let n = (self.num as i128) * (-(o.den as i128));
            let d = (self.den as i128) * (-(o.num as i128));
            proof {
                assert(n as int == -(self@.n * o@.d) && d as int == -(self@.d * o@.n))
                    by (nonlinear_arith)
                    requires
                        n as int == self@.n * (-o@.d),
                        d as int == self@.d * (-o@.n),
                ;
                assert(int_abs(n as int) == int_abs(self@.n * o@.d));
                assert(self@.d * o@.n < 0) by (nonlinear_arith)
                    requires
                        self@.d > 0,
                        o@.n < 0,
                ;
                assert(d as int == int_abs(self@.d * o@.n));
                assert(Rat { n: n as int, d: d as int } == self@.div(o@));
            }
            reduce(n, d)
        } else {
            let n = (self.num as i128) * (o.den as i128);
            let d = (self.den as i128) * (o.num as i128);
            proof {
                assert(self@.d * o@.n > 0) by (nonlinear_arith)
                    requires
                        self@.d > 0,
                        o@.n > 0,
                ;
                assert(d as int == int_abs(self@.d * o@.n));
                assert(Rat { n: n as int, d: d as int } == self@.div(o@));
            }
            reduce(n, d)
        }
    }

    /// Exact absolute value; always representable.
    pub fn abs(self) -> (r: Rational)
        requires
            rational_wf(self),
        ensures
            rational_wf(r),
            r@ == self@.abs(),
    {
        if self.num < 0 {
            self.neg()
        } else {
            self
        }
    }

    pub fn is_zero(&self) -> (r: bool)
        requires
            rational_wf(*self),
        ensures
            r == self@.is_zero(),
    {
        self.num == 0
    }

    pub fn is_negative(&self) -> (r: bool)
        requires
            rational_wf(*self),
        ensures
            r == self@.is_neg(),
    {
        self.num < 0
    }

    /// Exact value comparison, unaffected by representation.
    pub fn lt(&self, o: &Rational) -> (r: bool)
        requires
            rational_wf(*self),
            rational_wf(*o),
        ensures
            r == self@.lt(o@),
    {
        proof {
            lemma_mul_abs_bound(self@.n, o@.d, 0x7fff_ffff_ffff_ffff, 0x7fff_ffff_ffff_ffff);
            lemma_mul_abs_bound(o@.n, self@.d, 0x7fff_ffff_ffff_ffff, 0x7fff_ffff_ffff_ffff);
        }
        (self.num as i128) * (o.den as i128) < (o.num as i128) * (self.den as i128)
    }

    pub fn le(&self, o: &Rational) -> (r: bool)
        requires
            rational_wf(*self),
            rational_wf(*o),
        ensures
            r == self@.le(o@),
    {
        proof {
            lemma_mul_abs_bound(self@.n, o@.d, 0x7fff_ffff_ffff_ffff, 0x7fff_ffff_ffff_ffff);
            lemma_mul_abs_bound(o@.n, self@.d, 0x7fff_ffff_ffff_ffff, 0x7fff_ffff_ffff_ffff);
        }
        (self.num as i128) * (o.den as i128) <= (o.num as i128) * (self.den as i128)
    }

    /// Value equality: true exactly when the two fractions denote the same
    /// quantity, whatever their representations.
    pub fn eq_value(&self, o: &Rational) -> (r: bool)
        requires
            rational_wf(*self),
            rational_wf(*o),
        ensures
            r == self@.eqv(o@),
    {
        proof {
            lemma_mul_abs_bound(self@.n, o@.d, 0x7fff_ffff_ffff_ffff, 0x7fff_ffff_ffff_ffff);
            lemma_mul_abs_bound(o@.n, self@.d, 0x7fff_ffff_ffff_ffff, 0x7fff_ffff_ffff_ffff);
        }
        (self.num as i128) * (o.den as i128) == (o.num as i128) * (self.den as i128)
    }

    /// The numerator of the stored representation.
    pub fn numer(&self) -> (r: i64)
        ensures
            r as int == self@.n,
    {
        self.num
    }

    /// The denominator of the stored representation.
    pub fn denom(&self) -> (r: i64)
        ensures
            r as int == self@.d,
    {
        self.den
    }
}

/// Equivalence is transitive on well-formed fractions.
#[verifier::rlimit(30)]
pub proof fn lemma_eqv_trans(a: Rat, b: Rat, c: Rat) by (nonlinear_arith)
    requires
        a.wf(),
        b.wf(),
        c.wf(),
        a.eqv(b),
        b.eqv(c),
    ensures
        a.eqv(c),
{
}

/// Sums and products of well-formed fractions are well formed.
pub proof fn lemma_add_wf(a: Rat, b: Rat) by (nonlinear_arith)
    requires
        a.wf(),
        b.wf(),
    ensures
        a.add(b).wf(),
        a.sub(b).wf(),
        a.mul(b).wf(),
{
}

pub proof fn lemma_div_wf(a: Rat, b: Rat)
    requires
        a.wf(),
        b.wf(),
        !b.is_zero(),
    ensures
        a.div(b).wf(),
{
    lemma_add_wf(a, b.recip());
}

/// Addition respects value equivalence, one side at a time.
#[verifier::rlimit(30)]
pub proof fn lemma_add_congruence_left(a: Rat, x: Rat, b: Rat) by (nonlinear_arith)
    requires
        a.wf(),
        x.wf(),
        b.wf(),
        a.eqv(x),
    ensures
        a.add(b).eqv(x.add(b)),
{
}

/// Addition respects value equivalence.
pub proof fn lemma_add_congruence(a: Rat, b: Rat, x: Rat, y: Rat)
    requires
        a.wf(),
        b.wf(),
        x.wf(),
        y.wf(),
        a.eqv(x),
        b.eqv(y),
    ensures
        a.add(b).eqv(x.add(y)),
{
    lemma_add_wf(a, b);
    lemma_add_wf(x, b);
    lemma_add_wf(b, x);
    lemma_add_wf(y, x);
    lemma_add_wf(x, y);
    lemma_add_congruence_left(a, x, b);
    lemma_add_comm(x, b);
    lemma_add_congruence_left(b, y, x);
    lemma_add_comm(y, x);
    lemma_eqv_trans(a.add(b), x.add(b), b.add(x));
    lemma_eqv_trans(a.add(b), b.add(x), y.add(x));
    lemma_eqv_trans(a.add(b), y.add(x), x.add(y));
}

/// Multiplication respects value equivalence, one side at a time.
#[verifier::rlimit(30)]
pub proof fn lemma_mul_congruence_left(a: Rat, x: Rat, b: Rat) by (nonlinear_arith)
    requires
        a.wf(),
        x.wf(),
        b.wf(),
        a.eqv(x),
    ensures
        a.mul(b).eqv(x.mul(b)),
{
}

/// Multiplication respects value equivalence.
pub proof fn lemma_mul_congruence(a: Rat, b: Rat, x: Rat, y: Rat)
    requires
        a.wf(),
        b.wf(),
        x.wf(),
        y.wf(),
        a.eqv(x),
        b.eqv(y),
    ensures
        a.mul(b).eqv(x.mul(y)),
{
    lemma_add_wf(a, b);
    lemma_add_wf(x, b);
    lemma_add_wf(b, x);
    lemma_add_wf(y, x);
    lemma_add_wf(x, y);
    lemma_mul_congruence_left(a, x, b);
    lemma_mul_comm(x, b);
    lemma_mul_congruence_left(b, y, x);
    lemma_mul_comm(y, x);
    lemma_eqv_trans(a.mul(b), x.mul(b), b.mul(x));
    lemma_eqv_trans(a.mul(b), b.mul(x), y.mul(x));
    lemma_eqv_trans(a.mul(b), y.mul(x), x.mul(y));
}

/// Negation and subtraction respect value equivalence.
pub proof fn lemma_neg_congruence(a: Rat, x: Rat) by (nonlinear_arith)
    requires
        a.eqv(x),
    ensures
        a.neg().eqv(x.neg()),
{
}

pub proof fn lemma_sub_congruence(a: Rat, b: Rat, x: Rat, y: Rat)
    requires
        a.wf(),
        b.wf(),
        x.wf(),
        y.wf(),
        a.eqv(x),
        b.eqv(y),
    ensures
        a.sub(b).eqv(x.sub(y)),
{
    lemma_neg_congruence(b, y);
    lemma_add_congruence(a, b.neg(), x, y.neg());
}

/// Division respects value equivalence.
pub proof fn lemma_div_congruence(a: Rat, b: Rat, x: Rat, y: Rat)
    requires
        a.wf(),
        b.wf(),
        x.wf(),
        y.wf(),
        a.eqv(x),
        b.eqv(y),
        !b.is_zero(),
    ensures
        !y.is_zero(),
        a.div(b).eqv(x.div(y)),
{
    lemma_is_zero_congruence(b, y);
    lemma_recip_congruence(b, y);
    lemma_mul_congruence(a, b.recip(), x, y.recip());
}

#[verifier::rlimit(30)]
pub proof fn lemma_recip_congruence(b: Rat, y: Rat) by (nonlinear_arith)
    requires
        b.wf(),
        y.wf(),
        b.eqv(y),
        !b.is_zero(),
        !y.is_zero(),
    ensures
        b.recip().eqv(y.recip()),
{
}

/// Being zero, and being negative, depend only on the value.
#[verifier::rlimit(30)]
pub proof fn lemma_is_zero_congruence(a: Rat, b: Rat) by (nonlinear_arith)
    requires
        a.wf(),
        b.wf(),
        a.eqv(b),
    ensures
        a.is_zero() == b.is_zero(),
        a.is_neg() == b.is_neg(),
{
}

/// Order respects value equivalence.
#[verifier::rlimit(30)]
pub proof fn lemma_le_congruence(a: Rat, b: Rat, x: Rat, y: Rat) by (nonlinear_arith)
    requires
        a.wf(),
        b.wf(),
        x.wf(),
        y.wf(),
        a.eqv(x),
        b.eqv(y),
    ensures
        a.le(b) == x.le(y),
        a.lt(b) == x.lt(y),
{
}

#[verifier::rlimit(30)]
pub proof fn lemma_le_trans(a: Rat, b: Rat, c: Rat) by (nonlinear_arith)
    requires
        a.wf(),
        b.wf(),
        c.wf(),
        a.le(b),
        b.le(c),
    ensures
        a.le(c),
{
}

/// Commutativity, associativity, and the zero of addition, up to value.
#[verifier::rlimit(30)]
pub proof fn lemma_add_comm(a: Rat, b: Rat) by (nonlinear_arith)
    requires
        a.wf(),
        b.wf(),
    ensures
        a.add(b).eqv(b.add(a)),
{
}

pub proof fn lemma_add_assoc(a: Rat, b: Rat, c: Rat)
    requires
        a.wf(),
        b.wf(),
        c.wf(),
    ensures
        a.add(b).add(c).eqv(a.add(b.add(c))),
{
    let lhs = a.add(b).add(c);
    let rhs = a.add(b.add(c));
    assert((a.n * b.d + b.n * a.d) * c.d == (a.n * b.d) * c.d + (b.n * a.d) * c.d)
        by (nonlinear_arith);
    assert((b.n * c.d + c.n * b.d) * a.d == (b.n * c.d) * a.d + (c.n * b.d) * a.d)
        by (nonlinear_arith);
    assert((b.n * a.d) * c.d == (b.n * c.d) * a.d) by (nonlinear_arith);
    assert(c.n * (a.d * b.d) == (c.n * b.d) * a.d) by (nonlinear_arith);
    assert(a.n * (b.d * c.d) == (a.n * b.d) * c.d) by (nonlinear_arith);
    assert((a.d * b.d) * c.d == a.d * (b.d * c.d)) by (nonlinear_arith);
    assert(lhs == rhs);
}

pub proof fn lemma_add_zero(a: Rat) by (nonlinear_arith)
    requires
        a.wf(),
    ensures
        a.add(Rat::whole(0)).eqv(a),
        Rat::whole(0).add(a).eqv(a),
{
}

/// `(a - b) + b == a`, up to value.
#[verifier::rlimit(30)]
pub proof fn lemma_sub_add_cancel(a: Rat, b: Rat) by (nonlinear_arith)
    requires
        a.wf(),
        b.wf(),
    ensures
        a.sub(b).add(b).eqv(a),
{
}

/// Scaling numerator and denominator by the same nonzero factor keeps the value.
pub proof fn lemma_scale_eqv(r: Rat, k: int) by (nonlinear_arith)
    requires
        k != 0,
    ensures
        (Rat { n: k * r.n, d: k * r.d }).eqv(r),
        r.eqv((Rat { n: k * r.n, d: k * r.d })),
{
}

/// Multiplication distributes over addition, up to value.
pub proof fn lemma_mul_distrib(a: Rat, b: Rat, c: Rat)
    requires
        a.wf(),
        b.wf(),
        c.wf(),
    ensures
        a.mul(b.add(c)).eqv(a.mul(b).add(a.mul(c))),
        a.mul(b).add(a.mul(c)).eqv(a.mul(b.add(c))),
{
    let lhs = a.mul(b.add(c));
    let rhs = a.mul(b).add(a.mul(c));
    assert((a.n * b.n) * (a.d * c.d) == a.d * (a.n * (b.n * c.d))) by (nonlinear_arith);
    assert((a.n * c.n) * (a.d * b.d) == a.d * (a.n * (c.n * b.d))) by (nonlinear_arith);
    assert(a.n * (b.n * c.d + c.n * b.d) == a.n * (b.n * c.d) + a.n * (c.n * b.d))
        by (nonlinear_arith);
    assert(a.d * (a.n * (b.n * c.d) + a.n * (c.n * b.d)) == a.d * (a.n * (b.n * c.d)) + a.d * (a.n
        * (c.n * b.d))) by (nonlinear_arith);
    assert(rhs.n == a.d * lhs.n);
    assert(rhs.d == a.d * lhs.d) by (nonlinear_arith)
        requires
            lhs.d == a.d * (b.d * c.d),
            rhs.d == (a.d * b.d) * (a.d * c.d),
    ;
    lemma_scale_eqv(lhs, a.d);
    assert(rhs == Rat { n: a.d * lhs.n, d: a.d * lhs.d });
}

pub proof fn lemma_mul_comm(a: Rat, b: Rat) by (nonlinear_arith)
    requires
        a.wf(),
        b.wf(),
    ensures
        a.mul(b).eqv(b.mul(a)),
{
}

pub proof fn lemma_mul_one(a: Rat) by (nonlinear_arith)
    requires
        a.wf(),
    ensures
        a.mul(Rat::whole(1)).eqv(a),
        Rat::whole(1).mul(a).eqv(a),
{
}

/// `(a / b) * b == a` for nonzero `b`, up to value.
#[verifier::rlimit(30)]
pub proof fn lemma_div_mul_cancel(a: Rat, b: Rat) by (nonlinear_arith)
    requires
        a.wf(),
        b.wf(),
        !b.is_zero(),
    ensures
        a.div(b).mul(b).eqv(a),
{
}

/// Adding nonnegative values stays nonnegative.
pub proof fn lemma_add_nonneg(a: Rat, b: Rat) by (nonlinear_arith)
    requires
        a.wf(),
        b.wf(),
        !a.is_neg(),
        !b.is_neg(),
    ensures
        !a.add(b).is_neg(),
{
}

/// A sum of well-formed nonnegative values is well formed and nonnegative.
pub proof fn lemma_rat_sum_nonneg(s: Seq<Rat>)
    requires
        forall|i: int| 0 <= i < s.len() ==> (#[trigger] s[i]).wf() && !s[i].is_neg(),
    ensures
        rat_sum(s).wf(),
        !rat_sum(s).is_neg(),
    decreases s.len(),
{
    if s.len() == 0 {
    } else {
        lemma_rat_sum_nonneg(s.drop_last());
        lemma_add_wf(rat_sum(s.drop_last()), s.last());
        lemma_add_nonneg(rat_sum(s.drop_last()), s.last());
    }
}

/// Subtracting zero changes nothing, structurally.
pub proof fn lemma_sub_zero(a: Rat)
    ensures
        a.sub(Rat::whole(0)) == a,
{
    assert(a.n * 1 + (-0) * a.d == a.n);
    assert(a.d * 1 == a.d);
}

/// `a - b` denotes zero exactly when `a` and `b` denote the same value.
pub proof fn lemma_sub_zero_eqv(a: Rat, b: Rat) by (nonlinear_arith)
    requires
        a.wf(),
        b.wf(),
    ensures
        a.sub(b).is_zero() == a.eqv(b),
{
}

/// Adding a zero-valued quantity keeps the value.
pub proof fn lemma_add_zero_valued(a: Rat, z: Rat) by (nonlinear_arith)
    requires
        a.wf(),
        z.wf(),
        z.is_zero(),
    ensures
        a.add(z).eqv(a),
        z.add(a).eqv(a),
{
}

/// A product with a zero-valued factor is zero-valued.
pub proof fn lemma_mul_zero_valued(a: Rat, z: Rat)
    requires
        z.is_zero(),
    ensures
        a.mul(z).is_zero(),
        z.mul(a).is_zero(),
{
}

/// Subtracting a value from itself yields zero.
pub proof fn lemma_sub_self_zero(a: Rat) by (nonlinear_arith)
    ensures
        a.sub(a).is_zero(),
{
}

/// A sum stays positive when the first operand is positive and the second
/// is either positive or a withdrawal smaller in magnitude.
#[verifier::rlimit(30)]
pub proof fn lemma_add_pos(v: Rat, c: Rat) by (nonlinear_arith)
    requires
        v.wf(),
        c.wf(),
        Rat::whole(0).lt(v),
        Rat::whole(0).lt(c) || c.neg().lt(v),
    ensures
        Rat::whole(0).lt(v.add(c)),
        !v.add(c).is_zero(),
        !v.add(c).is_neg(),
{
}

/// Dividing below a product: if `a < s * g` with `s` positive, then `a / s < g`.
pub proof fn lemma_div_lt(a: Rat, g: Rat, s: Rat) by (nonlinear_arith)
    requires
        a.wf(),
        g.wf(),
        s.wf(),
        Rat::whole(0).lt(s),
        a.lt(s.mul(g)),
    ensures
        a.div(s).lt(g),
{
}

/// Dividing above a product: if `s * g < a` with `s` positive, then `g < a / s`.
pub proof fn lemma_div_gt(a: Rat, g: Rat, s: Rat) by (nonlinear_arith)
    requires
        a.wf(),
        g.wf(),
        s.wf(),
        Rat::whole(0).lt(s),
        s.mul(g).lt(a),
    ensures
        g.lt(a.div(s)),
{
}

/// The sign of a quotient by a positive divisor follows the dividend.
pub proof fn lemma_div_sign(a: Rat, s: Rat) by (nonlinear_arith)
    requires
        a.wf(),
        s.wf(),
        Rat::whole(0).lt(s),
    ensures
        !a.is_neg() ==> !a.div(s).is_neg(),
        a.is_neg() ==> a.div(s).is_neg(),
{
}

/// Adding to a fixed value preserves order.
pub proof fn lemma_add_le_mono(x: Rat, q: Rat, g: Rat) by (nonlinear_arith)
    requires
        x.wf(),
        q.wf(),
        g.wf(),
    ensures
        q.le(g) ==> x.add(q).le(x.add(g)),
        q.lt(g) ==> x.add(q).lt(x.add(g)),
{
}

/// `x + q` sits on the side of `x` that `q`'s sign dictates.
pub proof fn lemma_add_shift_sign(x: Rat, q: Rat) by (nonlinear_arith)
    requires
        x.wf(),
        q.wf(),
    ensures
        !q.is_neg() ==> x.le(x.add(q)),
        !Rat::whole(0).lt(q) ==> x.add(q).le(x),
{
}

/// Differences keep the order's sign: `d <= a` makes `a - d` nonnegative,
/// `a <= d` keeps it at or below zero.
pub proof fn lemma_sub_sign(a: Rat, d: Rat) by (nonlinear_arith)
    requires
        a.wf(),
        d.wf(),
    ensures
        d.le(a) ==> !a.sub(d).is_neg(),
        a.le(d) ==> a.sub(d).le(Rat::whole(0)),
{
}

/// A positive factor keeps the other factor's sign.
pub proof fn lemma_mul_sign(s: Rat, g: Rat) by (nonlinear_arith)
    requires
        s.wf(),
        g.wf(),
        Rat::whole(0).lt(s),
    ensures
        !g.is_neg() ==> !s.mul(g).is_neg(),
        g.le(Rat::whole(0)) ==> s.mul(g).le(Rat::whole(0)),
{
}

/// `b + (a - b) == a`, up to value.
pub proof fn lemma_add_sub_cancel(a: Rat, b: Rat)
    requires
        a.wf(),
        b.wf(),
    ensures
        b.add(a.sub(b)).eqv(a),
{
    lemma_add_wf(a, b.neg());
    lemma_add_comm(b, a.sub(b));
    lemma_sub_add_cancel(a, b);
    lemma_add_wf(b, a.sub(b));
    lemma_add_wf(a.sub(b), b);
    lemma_eqv_trans(b.add(a.sub(b)), a.sub(b).add(b), a);
}

/// Comparing magnitudes of same-signed values compares the values.
pub proof fn lemma_abs_order(a: Rat, d: Rat) by (nonlinear_arith)
    requires
        a.wf(),
        d.wf(),
    ensures
        (!a.is_neg() && !d.is_neg()) ==> (a.abs().lt(d.abs()) == a.lt(d)) && (d.abs().le(a.abs())
            == d.le(a)),
        (a.is_neg() && d.le(Rat::whole(0))) ==> (a.abs().lt(d.abs()) == d.lt(a)) && (d.abs().le(
            a.abs(),
        ) == a.le(d)),
{
}

/// Positive times positive is positive.
#[verifier::rlimit(30)]
pub proof fn lemma_mul_pos(a: Rat, b: Rat) by (nonlinear_arith)
    requires
        a.wf(),
        b.wf(),
        Rat::whole(0).lt(a),
        Rat::whole(0).lt(b),
    ensures
        Rat::whole(0).lt(a.mul(b)),
        !a.mul(b).is_zero(),
{
}

/// A sum of positive values is positive.
pub proof fn lemma_add_pos_pos(a: Rat, b: Rat) by (nonlinear_arith)
    requires
        a.wf(),
        b.wf(),
        Rat::whole(0).lt(a),
        Rat::whole(0).lt(b),
    ensures
        Rat::whole(0).lt(a.add(b)),
{
}

/// `(a - b) + (c - a)` telescopes: rewriting a gap against a new level.
pub proof fn lemma_gap_rewrite(l1: Rat, l2: Rat, d: Rat)
    requires
        l1.wf(),
        l2.wf(),
        d.wf(),
    ensures
        l2.sub(d).eqv(l1.sub(d).add(l2.sub(l1))),
{
    let lhs = l2.sub(d);
    let rhs = l1.sub(d).add(l2.sub(l1));
    let k = l1.d * l1.d;
    assert(k > 0) by (nonlinear_arith)
        requires
            l1.d > 0,
            k == l1.d * l1.d,
    ;
    assert(rhs.d == k * lhs.d) by (nonlinear_arith)
        requires
            rhs.d == (l1.d * d.d) * (l2.d * l1.d),
            lhs.d == l2.d * d.d,
            k == l1.d * l1.d,
    ;
    assert((l1.n * d.d + (-d.n) * l1.d) * (l2.d * l1.d) == ((l1.n * d.d) * l2.d) * l1.d - ((d.n
        * l1.d) * l2.d) * l1.d) by (nonlinear_arith);
    assert((l2.n * l1.d + (-l1.n) * l2.d) * (l1.d * d.d) == (l2.n * l1.d) * (l1.d * d.d) + ((-l1.n)
        * l2.d) * (l1.d * d.d)) by (nonlinear_arith);
    assert((l2.n * l1.d) * (l1.d * d.d) == ((l2.n * d.d) * l1.d) * l1.d) by (nonlinear_arith);
    assert(((-l1.n) * l2.d) * (l1.d * d.d) == -(((l1.n * d.d) * l2.d) * l1.d)) by (nonlinear_arith);
    assert((l2.n * l1.d + (-l1.n) * l2.d) * (l1.d * d.d) == ((l2.n * d.d) * l1.d) * l1.d - ((l1.n
        * d.d) * l2.d) * l1.d);
    assert(((d.n * l1.d) * l2.d) * l1.d == ((d.n * l2.d) * l1.d) * l1.d) by (nonlinear_arith);
    assert((l1.d * l1.d) * (l2.n * d.d + (-d.n) * l2.d) == ((l2.n * d.d) * l1.d) * l1.d - ((d.n
        * l2.d) * l1.d) * l1.d) by (nonlinear_arith);
    assert(rhs.n == k * lhs.n);
    lemma_scale_eqv(lhs, k);
    assert(rhs == Rat { n: k * lhs.n, d: k * lhs.d });
}

pub open spec fn all_wf(s: Seq<Rat>) -> bool {
    forall|i: int| 0 <= i < s.len() ==> (#[trigger] s[i]).wf()
}

/// Solving `a == c - s` for `s`.
pub proof fn lemma_sub_swap(c: Rat, s: Rat, a: Rat)
    requires
        c.wf(),
        s.wf(),
        a.wf(),
        a.eqv(c.sub(s)),
    ensures
        s.eqv(c.sub(a)),
{
    assert((c.n * s.d + (-s.n) * c.d) * a.d == (c.n * s.d) * a.d - (s.n * c.d) * a.d)
        by (nonlinear_arith);
    assert(a.n * (c.d * s.d) == (a.n * c.d) * s.d) by (nonlinear_arith);
    assert((c.n * s.d) * a.d == (c.n * a.d) * s.d) by (nonlinear_arith);
    assert((s.n * c.d) * a.d == s.n * (c.d * a.d)) by (nonlinear_arith);
    assert((c.n * a.d + (-a.n) * c.d) * s.d == (c.n * a.d) * s.d - (a.n * c.d) * s.d)
        by (nonlinear_arith);
    assert(s.n * (c.d * a.d) == (c.n * a.d + (-a.n) * c.d) * s.d);
}

/// `(x + y) - x == y`, up to value.
#[verifier::rlimit(30)]
pub proof fn lemma_add_cancel_left(x: Rat, y: Rat)
    requires
        x.wf(),
        y.wf(),
    ensures
        x.add(y).sub(x).eqv(y),
{
    let a = x.add(y).sub(x);
    let k = x.d * x.d;
    assert(k > 0) by (nonlinear_arith)
        requires
            x.d > 0,
            k == x.d * x.d,
    ;
    assert(a.n == k * y.n) by (nonlinear_arith)
        requires
            a.n == (x.n * y.d + y.n * x.d) * x.d + (-x.n) * (x.d * y.d),
            k == x.d * x.d,
    ;
    assert(a.d == k * y.d) by (nonlinear_arith)
        requires
            a.d == (x.d * y.d) * x.d,
            k == x.d * x.d,
    ;
    lemma_scale_eqv(y, k);
    assert(a == Rat { n: k * y.n, d: k * y.d });
}

/// `c - ((c - a) + g) == a - g`, up to value.
pub proof fn lemma_cancel3(c: Rat, a: Rat, g: Rat)
    requires
        c.wf(),
        a.wf(),
        g.wf(),
    ensures
        c.sub(c.sub(a).add(g)).eqv(a.sub(g)),
{
    // c - ((c - a) + g) == c - (c - a) - g == a - g, one step at a time.
    let u = c.sub(a);
    let v = u.add(g);
    lemma_add_wf(c, a);
    lemma_add_wf(u, g);
    lemma_add_wf(a, g);
    lemma_add_wf(c, v);
    lemma_add_wf(c, u);
    // c - (u + g) == (c - u) - g
    lemma_sub_group(c, u, g);
    // c - u == c - (c - a) == a
    lemma_sub_sub_self(c, a);
    // so (c - u) - g == a - g by congruence
    lemma_sub_congruence(c.sub(u), g, a, g);
    lemma_add_wf(c.sub(u), g);
    lemma_eqv_trans(c.sub(v), c.sub(u).sub(g), a.sub(g));
}

/// `c - (u + g) == (c - u) - g`; the two ways of writing the difference are
/// one and the same fraction.
pub proof fn lemma_sub_group(c: Rat, u: Rat, g: Rat)
    requires
        c.wf(),
        u.wf(),
        g.wf(),
    ensures
        c.sub(u.add(g)).eqv(c.sub(u).sub(g)),
{
    let l = c.sub(u.add(g));
    let r = c.sub(u).sub(g);
    assert(c.n * (u.d * g.d) == (c.n * u.d) * g.d) by (nonlinear_arith);
    assert((-(u.n * g.d + g.n * u.d)) * c.d == -((u.n * c.d) * g.d) - (g.n * (c.d * u.d)))
        by (nonlinear_arith);
    assert((c.n * u.d + (-u.n) * c.d) * g.d == (c.n * u.d) * g.d - (u.n * c.d) * g.d)
        by (nonlinear_arith);
    assert((-g.n) * (c.d * u.d) == -(g.n * (c.d * u.d))) by (nonlinear_arith);
    assert(l.n == r.n);
    assert(l.d == r.d) by (nonlinear_arith)
        requires
            l.d == c.d * (u.d * g.d),
            r.d == (c.d * u.d) * g.d,
    ;
    assert(l == r);
}

/// `c - (c - a) == a`, up to value.
pub proof fn lemma_sub_sub_self(c: Rat, a: Rat)
    requires
        c.wf(),
        a.wf(),
    ensures
        c.sub(c.sub(a)).eqv(a),
{
    let l = c.sub(c.sub(a));
    let k = c.d * c.d;
    assert(k > 0) by (nonlinear_arith)
        requires
            c.d > 0,
            k == c.d * c.d,
    ;
    assert(l.n == k * a.n) by (nonlinear_arith)
        requires
            l.n == c.n * (c.d * a.d) + (-(c.n * a.d + (-a.n) * c.d)) * c.d,
            k == c.d * c.d,
    ;
    assert(l.d == k * a.d) by (nonlinear_arith)
        requires
            l.d == c.d * (c.d * a.d),
            k == c.d * c.d,
    ;
    lemma_scale_eqv(a, k);
    assert(l == Rat { n: k * a.n, d: k * a.d });
}

/// Distribution with the sum on the left.
pub proof fn lemma_mul_distrib_right(a: Rat, b: Rat, c: Rat)
    requires
        a.wf(),
        b.wf(),
        c.wf(),
    ensures
        a.add(b).mul(c).eqv(a.mul(c).add(b.mul(c))),
{
    lemma_add_wf(a, b);
    lemma_add_wf(a, c);
    lemma_add_wf(b, c);
    lemma_add_wf(c, a);
    lemma_add_wf(c, b);
    lemma_add_wf(a.add(b), c);
    lemma_add_wf(c, a.add(b));
    lemma_mul_comm(a.add(b), c);
    lemma_mul_distrib(c, a, b);
    lemma_mul_comm(c, a);
    lemma_mul_comm(c, b);
    lemma_add_wf(c.mul(a), c.mul(b));
    lemma_add_wf(a.mul(c), b.mul(c));
    lemma_add_congruence(c.mul(a), c.mul(b), a.mul(c), b.mul(c));
    lemma_eqv_trans(a.add(b).mul(c), c.mul(a.add(b)), c.mul(a).add(c.mul(b)));
    lemma_eqv_trans(a.add(b).mul(c), c.mul(a).add(c.mul(b)), a.mul(c).add(b.mul(c)));
}

/// Regrouping a four-way sum: `(a + b) + (c + d) == (a + c) + (b + d)`.
pub proof fn lemma_add_shuffle(a: Rat, b: Rat, c: Rat, d: Rat)
    requires
        a.wf(),
        b.wf(),
        c.wf(),
        d.wf(),
    ensures
        a.add(b).add(c.add(d)).eqv(a.add(c).add(b.add(d))),
{
    let cd = c.add(d);
    let bd = b.add(d);
    let bc = b.add(c);
    let cb = c.add(b);
    lemma_add_wf(c, d);
    lemma_add_wf(b, d);
    lemma_add_wf(b, c);
    lemma_add_wf(c, b);
    lemma_add_wf(a, b);
    lemma_add_wf(a, c);
    lemma_add_wf(b, cd);
    lemma_add_wf(bc, d);
    lemma_add_wf(cb, d);
    lemma_add_wf(c, bd);
    lemma_add_wf(a.add(b), cd);
    lemma_add_wf(a, b.add(cd));
    lemma_add_wf(a, c.add(bd));
    lemma_add_wf(a.add(c), bd);
    // (a + b) + (c + d) == a + (b + (c + d))
    lemma_add_assoc(a, b, cd);
    // b + (c + d) == (b + c) + d == (c + b) + d == c + (b + d)
    lemma_add_assoc(b, c, d);
    lemma_add_comm(b, c);
    lemma_add_congruence(bc, d, cb, d);
    lemma_add_assoc(c, b, d);
    lemma_eqv_trans(bc.add(d), cb.add(d), c.add(bd));
    assert(b.add(cd).eqv(c.add(bd))) by {
        lemma_eqv_trans(b.add(cd), bc.add(d), c.add(bd));
    }
    // a + (b + (c + d)) == a + (c + (b + d)) == (a + c) + (b + d)
    lemma_add_congruence(a, b.add(cd), a, c.add(bd));
    lemma_add_assoc(a, c, bd);
    lemma_eqv_trans(a.add(b).add(cd), a.add(b.add(cd)), a.add(c.add(bd)));
    lemma_eqv_trans(a.add(b).add(cd), a.add(c.add(bd)), a.add(c).add(bd));
}

/// A sum of positive values is positive.
pub proof fn lemma_rat_sum_pos(s: Seq<Rat>)
    requires
        s.len() >= 1,
        forall|i: int| 0 <= i < s.len() ==> (#[trigger] s[i]).wf() && Rat::whole(0).lt(s[i]),
    ensures
        rat_sum(s).wf(),
        Rat::whole(0).lt(rat_sum(s)),
        !rat_sum(s).is_zero(),
    decreases s.len(),
{
    if s.len() == 1 {
        assert(rat_sum(s.drop_last()) == Rat::whole(0));
        lemma_add_zero(s.last());
        lemma_add_wf(Rat::whole(0), s.last());
        lemma_le_congruence(Rat::whole(0), s.last(), Rat::whole(0), rat_sum(s));
    } else {
        lemma_rat_sum_pos(s.drop_last());
        lemma_add_pos_pos(rat_sum(s.drop_last()), s.last());
        lemma_add_wf(rat_sum(s.drop_last()), s.last());
    }
}

/// Two zero-valued fractions denote the same value.
pub proof fn lemma_zero_eqv(a: Rat, b: Rat)
    requires
        a.is_zero(),
        b.is_zero(),
    ensures
        a.eqv(b),
{
}

/// Summing termwise-scaled values scales the sum: `Σ (s[i] * k) == (Σ s) * k`.
pub proof fn lemma_rat_sum_mul(s: Seq<Rat>, k: Rat)
    requires
        all_wf(s),
        k.wf(),
    ensures
        rat_sum(s.map_values(|x: Rat| x.mul(k))).eqv(rat_sum(s).mul(k)),
    decreases s.len(),
{
    let m = s.map_values(|x: Rat| x.mul(k));
    lemma_rat_sum_wf(s);
    lemma_add_wf(rat_sum(s), k);
    if s.len() == 0 {
        assert(m =~= Seq::<Rat>::empty());
        lemma_mul_zero_valued(k, Rat::whole(0));
        lemma_zero_eqv(rat_sum(m), rat_sum(s).mul(k));
    } else {
        let s2 = s.drop_last();
        let last = s.last();
        assert forall|i: int| 0 <= i < s2.len() implies (#[trigger] s2[i]).wf() by {
            assert(s[i].wf());
        }
        assert(last.wf());
        lemma_rat_sum_mul(s2, k);
        let m2 = s2.map_values(|x: Rat| x.mul(k));
        assert(m2 =~= m.drop_last());
        assert(m.last() == last.mul(k));
        assert(rat_sum(m) == rat_sum(m2).add(last.mul(k)));
        lemma_rat_sum_wf(s2);
        lemma_add_wf(rat_sum(s2), k);
        lemma_add_wf(last, k);
        lemma_add_wf(rat_sum(s2).mul(k), last.mul(k));
        assert forall|i: int| 0 <= i < m2.len() implies (#[trigger] m2[i]).wf() by {
            assert(s2[i].wf());
            lemma_add_wf(s2[i], k);
        }
        lemma_rat_sum_wf(m2);
        lemma_add_congruence(rat_sum(m2), last.mul(k), rat_sum(s2).mul(k), last.mul(k));
        lemma_mul_distrib_right(rat_sum(s2), last, k);
        lemma_add_wf(rat_sum(s2), last);
        lemma_add_wf(rat_sum(s2).add(last), k);
        assert(rat_sum(s) == rat_sum(s2).add(last));
        lemma_add_wf(rat_sum(m2), last.mul(k));
        lemma_eqv_trans(
            rat_sum(m),
            rat_sum(s2).mul(k).add(last.mul(k)),
            rat_sum(s2).add(last).mul(k),
        );
    }
}

/// Inserting a value anywhere adds exactly that value to the sum.
pub proof fn lemma_rat_sum_insert(s: Seq<Rat>, p: int, v: Rat)
    requires
        all_wf(s),
        v.wf(),
        0 <= p <= s.len(),
    ensures
        rat_sum(s.insert(p, v)).eqv(rat_sum(s).add(v)),
    decreases s.len(),
{
    let ins = s.insert(p, v);
    lemma_rat_sum_wf(s);
    lemma_add_wf(rat_sum(s), v);
    if p == s.len() {
        assert(ins =~= s.push(v));
        assert(ins.drop_last() =~= s);
        assert(rat_sum(ins) == rat_sum(s).add(v));
    } else {
        let s2 = s.drop_last();
        let last = s.last();
        assert forall|i: int| 0 <= i < s2.len() implies (#[trigger] s2[i]).wf() by {
            assert(s[i].wf());
        }
        assert(last.wf());
        lemma_rat_sum_insert(s2, p, v);
        assert(ins.drop_last() =~= s2.insert(p, v));
        assert(ins.last() == last);
        assert(rat_sum(ins) == rat_sum(s2.insert(p, v)).add(last));
        let ivals = s2.insert(p, v);
        assert forall|i: int| 0 <= i < ivals.len() implies (#[trigger] ivals[i]).wf() by {
            if i < p {
                assert(ivals[i] == s2[i]);
            } else if i == p {
                assert(ivals[i] == v);
            } else {
                assert(ivals[i] == s2[i - 1]);
            }
        }
        lemma_rat_sum_wf(ivals);
        lemma_rat_sum_wf(s2);
        let a = rat_sum(s2);
        lemma_add_wf(a, v);
        lemma_add_wf(a, last);
        lemma_add_wf(v, last);
        lemma_add_wf(last, v);
        lemma_add_wf(a.add(v), last);
        lemma_add_wf(a, v.add(last));
        lemma_add_wf(a, last.add(v));
        lemma_add_wf(a.add(last), v);
        lemma_add_wf(rat_sum(ivals), last);
        lemma_add_congruence(rat_sum(s2.insert(p, v)), last, a.add(v), last);
        // (a + v) + last == a + (v + last) == a + (last + v) == (a + last) + v
        lemma_add_assoc(a, v, last);
        lemma_add_comm(v, last);
        lemma_add_congruence(a, v.add(last), a, last.add(v));
        lemma_add_assoc(a, last, v);
        lemma_eqv_trans(rat_sum(ins), a.add(v).add(last), a.add(v.add(last)));
        lemma_eqv_trans(rat_sum(ins), a.add(v.add(last)), a.add(last.add(v)));
        lemma_eqv_trans(rat_sum(ins), a.add(last.add(v)), a.add(last).add(v));
    }
}

/// A sum whose tail is all zero-valued collapses to the prefix sum.
pub proof fn lemma_rat_sum_zero_tail(s: Seq<Rat>, k: int)
    requires
        0 <= k <= s.len(),
        all_wf(s),
        forall|i: int| k <= i < s.len() ==> (#[trigger] s[i]).is_zero(),
    ensures
        rat_sum(s).eqv(rat_sum(s.take(k))),
    decreases s.len(),
{
    assert forall|i: int| 0 <= i < s.take(k).len() implies (#[trigger] s.take(k)[i]).wf() by {
        assert(s[i].wf());
    }
    lemma_rat_sum_wf(s.take(k));
    if s.len() == k {
        assert(s.take(k) =~= s);
    } else {
        assert(s.drop_last().take(k) =~= s.take(k));
        assert forall|i: int| 0 <= i < s.drop_last().len() implies (#[trigger] s.drop_last()[i]).wf() by {
            assert(s[i].wf());
        }
        lemma_rat_sum_zero_tail(s.drop_last(), k);
        lemma_rat_sum_wf(s.drop_last());
        assert(s[s.len() - 1].wf());
        assert(s[s.len() - 1].is_zero());
        lemma_add_zero_valued(rat_sum(s.drop_last()), s.last());
        lemma_add_wf(rat_sum(s.drop_last()), s.last());
        lemma_eqv_trans(rat_sum(s), rat_sum(s.drop_last()), rat_sum(s.take(k)));
    }
}

/// One step of a prefix sum.
pub proof fn lemma_rat_sum_take_step(s: Seq<Rat>, i: int)
    requires
        0 <= i < s.len(),
    ensures
        rat_sum(s.take(i + 1)) == rat_sum(s.take(i)).add(s[i]),
{
    assert(s.take(i + 1).drop_last() =~= s.take(i));
    assert(s.take(i + 1).last() == s[i]);
}

/// A whole sequence is its own full prefix.
pub proof fn lemma_rat_sum_take_all(s: Seq<Rat>)
    ensures
        rat_sum(s.take(s.len() as int)) == rat_sum(s),
{
    assert(s.take(s.len() as int) =~= s);
}

/// The sum of a sequence of well-formed fractions is well formed.
pub proof fn lemma_rat_sum_wf(s: Seq<Rat>)
    requires
        forall|i: int| 0 <= i < s.len() ==> (#[trigger] s[i]).wf(),
    ensures
        rat_sum(s).wf(),
    decreases s.len(),
{
    if s.len() == 0 {
    } else {
        lemma_rat_sum_wf(s.drop_last());
        lemma_add_wf(rat_sum(s.drop_last()), s.last());
    }
}

/// Sums of pointwise equivalent sequences are equivalent.
pub proof fn lemma_rat_sum_congruence(s: Seq<Rat>, t: Seq<Rat>)
    requires
        s.len() == t.len(),
        forall|i: int| 0 <= i < s.len() ==> (#[trigger] s[i]).wf(),
        forall|i: int| 0 <= i < t.len() ==> (#[trigger] t[i]).wf(),
        forall|i: int| 0 <= i < s.len() ==> (#[trigger] s[i]).eqv(t[i]),
    ensures
        rat_sum(s).eqv(rat_sum(t)),
    decreases s.len(),
{
    if s.len() == 0 {
    } else {
        lemma_rat_sum_congruence(s.drop_last(), t.drop_last());
        lemma_rat_sum_wf(s.drop_last());
        lemma_rat_sum_wf(t.drop_last());
        lemma_add_congruence(rat_sum(s.drop_last()), s.last(), rat_sum(t.drop_last()), t.last());
    }
}

/// `10^e` as an unbounded integer.
pub open spec fn spec_pow10(e: nat) -> int
    decreases e,
{
    if e == 0 {
        1
    } else {
        10 * spec_pow10((e - 1) as nat)
    }
}

pub proof fn lemma_pow10_bounds(e: nat)
    requires
        e <= 18,
    ensures
        1 <= spec_pow10(e) <= 1_000_000_000_000_000_000,
    decreases e,
{
    reveal_with_fuel(spec_pow10, 19);
    if e > 0 {
        lemma_pow10_bounds((e - 1) as nat);
        assert(spec_pow10(e) == 10 * spec_pow10((e - 1) as nat));
        lemma_pow10_mono((e - 1) as nat, 17);
    }
}

pub proof fn lemma_pow10_pos(e: nat)
    ensures
        spec_pow10(e) >= 1,
    decreases e,
{
    if e > 0 {
        lemma_pow10_pos((e - 1) as nat);
    }
}

pub proof fn lemma_pow10_mono(a: nat, b: nat)
    requires
        a <= b,
    ensures
        spec_pow10(a) <= spec_pow10(b),
        spec_pow10(a) >= 1,
    decreases b,
{
    lemma_pow10_pos(a);
    if a < b {
        lemma_pow10_mono(a, (b - 1) as nat);
        lemma_pow10_pos((b - 1) as nat);
        assert(spec_pow10(b) == 10 * spec_pow10((b - 1) as nat));
    }
}

/// `10^e` for exponents that fit a machine word.
fn pow10(e: u32) -> (r: i64)
    requires
        e <= 18,
    ensures
        r as int == spec_pow10(e as nat),
        1 <= r,
{
    let mut acc: i64 = 1;
    let mut i: u32 = 0;
    proof {
        lemma_pow10_bounds(e as nat);
    }
    while i < e
        invariant
            i <= e,
            e <= 18,
            acc as int == spec_pow10(i as nat),
            1 <= acc,
        decreases e - i,
    {
        proof {
            lemma_pow10_mono(i as nat, 17);
            lemma_pow10_bounds(17);
            reveal_with_fuel(spec_pow10, 19);
        }
        acc = acc * 10;
        i = i + 1;
    }
    acc
}

} // verus!
