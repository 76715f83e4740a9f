use vstd::prelude::*;

verus! {

/// An exact amplitude in the ring generated by 1 and sqrt(2): the pair
/// (a, b) denotes the real number a + b * sqrt(2).  Equality is exact
/// integer-pair equality; no floating point is involved anywhere.
#[derive(Clone, Copy, PartialEq, Eq, Structural, Debug)]
pub struct Ampl {
    pub a: i64,
    pub b: i64,
}

/// The sign of the real number a + b * sqrt(2), decided exactly from the
/// integer pair: on mixed signs the comparison  a ? -b * sqrt(2)  is settled
/// by comparing a * a with 2 * b * b.
pub open spec fn ring_pos(a: int, b: int) -> bool {
    if a >= 0 && b >= 0 {
        a > 0 || b > 0
    } else if a >= 0 {
        a * a > 2 * (b * b)
    } else if b >= 0 {
        2 * (b * b) > a * a
    } else {
        false
    }
}

impl Ampl {
    /// The ring zero.
    pub open spec fn spec_is_zero(self) -> bool {
        self.a == 0 && self.b == 0
    }

    /// True exactly of the ring zero (0, 0).
    pub fn is_zero(self) -> (r: bool)
        ensures
            r == self.spec_is_zero(),
    {
        self.a == 0 && self.b == 0
    }

    /// Division by sqrt(2) in the ring: (a, b) |-> (b, a / 2).
    pub open spec fn spec_div_sqrt2(self) -> Ampl {
        Ampl { a: self.b, b: (self.a as int / 2) as i64 }
    }

    /// Exact division by sqrt(2): (a + b * sqrt(2)) / sqrt(2)
    /// = b + (a / 2) * sqrt(2).  Exact only when a is even, which the
    /// engine guards before every call.
    pub fn div_sqrt2(self) -> (r: Ampl)
        requires
            self.a as int % 2 == 0,
        ensures
            r == self.spec_div_sqrt2(),
            2 * (r.b as int) == self.a as int,
    {
        let h: i64 = self.a.checked_div(2).unwrap();
        Ampl { a: self.b, b: h }
    }

    /// Exact ring addition, overflow reported as `None`.
    pub fn checked_add(self, rhs: Ampl) -> (r: Option<Ampl>)
        ensures
            r is Some <==> (i64::MIN <= self.a + rhs.a <= i64::MAX
                && i64::MIN <= self.b + rhs.b <= i64::MAX),
            r is Some ==> r->0 == (Ampl {
                a: (self.a + rhs.a) as i64,
                b: (self.b + rhs.b) as i64,
            }),
    {
        match (self.a.checked_add(rhs.a), self.b.checked_add(rhs.b)) {
            (Some(x), Some(y)) => Some(Ampl { a: x, b: y }),
            _ => None,
        }
    }

    /// Exact ring subtraction, overflow reported as `None`.
    pub fn checked_sub(self, rhs: Ampl) -> (r: Option<Ampl>)
        ensures
            r is Some <==> (i64::MIN <= self.a - rhs.a <= i64::MAX
                && i64::MIN <= self.b - rhs.b <= i64::MAX),
            r is Some ==> r->0 == (Ampl {
                a: (self.a - rhs.a) as i64,
                b: (self.b - rhs.b) as i64,
            }),
    {
        match (self.a.checked_sub(rhs.a), self.b.checked_sub(rhs.b)) {
            (Some(x), Some(y)) => Some(Ampl { a: x, b: y }),
            _ => None,
        }
    }

    /// Exact ring negation, overflow reported as `None`.
    pub fn checked_neg(self) -> (r: Option<Ampl>)
        ensures
            r is Some <==> self.a != i64::MIN && self.b != i64::MIN,
            r is Some ==> r->0 == (Ampl { a: (-self.a) as i64, b: (-self.b) as i64 }),
    {
        if self.a != i64::MIN && self.b != i64::MIN {
            Some(Ampl { a: -self.a, b: -self.b })
        } else {
            None
        }
    }

    /// Whether this amplitude is a strictly positive real number, decided
    /// exactly from the integer pair.
    pub fn is_pos(self) -> (r: bool)
        ensures
            r == ring_pos(self.a as int, self.b as int),
    {
        ring_pos_i64(self.a, self.b)
    }
}

/// Exact sign test for a + b * sqrt(2) > 0; the squares are computed in
/// i128, where they cannot overflow, and the doubling is written as a
/// subtraction so that even the squares of i64::MIN stay in range.
pub fn ring_pos_i64(a: i64, b: i64) -> (r: bool)
    ensures
        r == ring_pos(a as int, b as int),
{
    if a >= 0 && b >= 0 {
        a > 0 || b > 0
    } else if a >= 0 {
        let aw: i128 = a as i128;
        let bw: i128 = b as i128;
        proof {
            lemma_square_i64(aw);
            lemma_square_i64(bw);
            assert(aw * aw == (a as int) * (a as int)
                && bw * bw == (b as int) * (b as int)) by (nonlinear_arith)
                requires aw == a as int, bw == b as int;
        }
        let sa: i128 = aw * aw;
        let sb: i128 = bw * bw;
        let r2: bool = sa - sb > sb;
        proof {
            assert(sa == (a as int) * (a as int));
            assert(sb == (b as int) * (b as int));
            assert(r2 == ((a as int) * (a as int) > 2 * ((b as int) * (b as int))));
            assert(r2 == ring_pos(a as int, b as int));
        }
        r2
    } else if b >= 0 {
        let aw: i128 = a as i128;
        let bw: i128 = b as i128;
        proof {
            lemma_square_i64(aw);
            lemma_square_i64(bw);
            assert(aw * aw == (a as int) * (a as int)
                && bw * bw == (b as int) * (b as int)) by (nonlinear_arith)
                requires aw == a as int, bw == b as int;
        }
        let sa: i128 = aw * aw;
        let sb: i128 = bw * bw;
        let r3: bool = sb > sa - sb;
        proof {
            assert(sa == (a as int) * (a as int));
            assert(sb == (b as int) * (b as int));
            assert(r3 == (2 * ((b as int) * (b as int)) > (a as int) * (a as int)));
            assert(r3 == ring_pos(a as int, b as int));
        }
        r3
    } else {
        false
    }
}

/// The square of a value in i64 range fits comfortably in i128.
proof fn lemma_square_i64(x: i128)
    by (nonlinear_arith)
    requires
        i64::MIN as i128 <= x <= i64::MAX as i128,
    ensures
        0 <= x * x <= (i64::MIN as i128) * (i64::MIN as i128),
{
}

} // verus!
