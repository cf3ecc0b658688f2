//! Whole numbers of up to 384 bits, as far as comparing sums and products of machine
//! numbers takes.

use vstd::prelude::*;

verus! {

/// A number below 2^384, in six digits of 64 bits, the lowest first.
pub(crate) struct Wide {
    pub d0: u64,
    pub d1: u64,
    pub d2: u64,
    pub d3: u64,
    pub d4: u64,
    pub d5: u64,
}

/// 2^64: the base of the digits.
pub(crate) open spec fn base() -> int {
    0x1_0000_0000_0000_0000
}

/// 2^384: the bound of what a [`Wide`] holds.
pub(crate) open spec fn limit() -> int {
    base() * base() * base() * base() * base() * base()
}

/// The number that has the given digits.
pub(crate) open spec fn digits_value(d0: int, d1: int, d2: int, d3: int, d4: int, d5: int) -> int {
    d0 + base() * (d1 + base() * (d2 + base() * (d3 + base() * (d4 + base() * d5))))
}

proof fn lemma_digit_product(x: int, y: int)
    by (nonlinear_arith)
    requires
        0 <= x < 0x1_0000_0000_0000_0000,
        0 <= y < 0x1_0000_0000_0000_0000,
    ensures
        0 <= x * y <= 0xffff_ffff_ffff_fffe_0000_0000_0000_0001,
{
}

proof fn lemma_digits_times(d0: int, d1: int, d2: int, d3: int, d4: int, d5: int, x: int)
    by (nonlinear_arith)
    ensures
        (d0 + 0x1_0000_0000_0000_0000 * (d1 + 0x1_0000_0000_0000_0000 * (d2
            + 0x1_0000_0000_0000_0000 * (d3 + 0x1_0000_0000_0000_0000 * (d4
            + 0x1_0000_0000_0000_0000 * d5))))) * x == d0 * x + 0x1_0000_0000_0000_0000 * (d1 * x
            + 0x1_0000_0000_0000_0000 * (d2 * x + 0x1_0000_0000_0000_0000 * (d3 * x
            + 0x1_0000_0000_0000_0000 * (d4 * x + 0x1_0000_0000_0000_0000 * (d5 * x))))),
{
}

impl Wide {
    /// The number that the digits stand for.
    pub(crate) open spec fn value(self) -> int {
        digits_value(
            self.d0 as int,
            self.d1 as int,
            self.d2 as int,
            self.d3 as int,
            self.d4 as int,
            self.d5 as int,
        )
    }

    /// A number of 128 bits.
    pub(crate) fn narrow(x: u128) -> (wide: Wide)
        ensures
            wide.value() == x,
    {
        let b: u128 = 0x1_0000_0000_0000_0000;
        Wide { d0: (x % b) as u64, d1: (x / b) as u64, d2: 0, d3: 0, d4: 0, d5: 0 }
    }

    /// The product of two numbers of 128 bits.
    pub(crate) fn product(a: u128, b: u128) -> (wide: Wide)
        ensures
            wide.value() == a * b,
    {
        let base: u128 = 0x1_0000_0000_0000_0000;
        let a1: u128 = a / base;
        let a0: u128 = a % base;
        let b1: u128 = b / base;
        let b0: u128 = b % base;
        proof {
            lemma_digit_product(a0 as int, b0 as int);
            lemma_digit_product(a0 as int, b1 as int);
            lemma_digit_product(a1 as int, b0 as int);
            lemma_digit_product(a1 as int, b1 as int);
        }
        let p00: u128 = a0 * b0;
        let p01: u128 = a0 * b1;
        let p10: u128 = a1 * b0;
        let p11: u128 = a1 * b1;
        let middle: u128 = p00 / base + p01 % base + p10 % base;
        let high: u128 = p11 + p01 / base + p10 / base + middle / base;
        proof {
            assert(a * b == p11 * (base * base) + (p01 + p10) * base + p00) by (nonlinear_arith)
                requires
                    a == a1 * base + a0,
                    b == b1 * base + b0,
                    p00 == a0 * b0,
                    p01 == a0 * b1,
                    p10 == a1 * b0,
                    p11 == a1 * b1,
            ;
        }
        Wide {
            d0: (p00 % base) as u64,
            d1: (middle % base) as u64,
            d2: (high % base) as u64,
            d3: (high / base) as u64,
            d4: 0,
            d5: 0,
        }
    }

    /// This number `x` times over, where that stays below 2^384.
    pub(crate) fn times(&self, x: u64) -> (wide: Wide)
        requires
            self.value() * x < limit(),
        ensures
            wide.value() == self.value() * x,
    {
        let base: u128 = 0x1_0000_0000_0000_0000;
        let by: u128 = x as u128;
        proof {
            lemma_digit_product(self.d0 as int, x as int);
            lemma_digit_product(self.d1 as int, x as int);
            lemma_digit_product(self.d2 as int, x as int);
            lemma_digit_product(self.d3 as int, x as int);
            lemma_digit_product(self.d4 as int, x as int);
            lemma_digit_product(self.d5 as int, x as int);
            lemma_digits_times(
                self.d0 as int,
                self.d1 as int,
                self.d2 as int,
                self.d3 as int,
                self.d4 as int,
                self.d5 as int,
                x as int,
            );
        }
        let t0: u128 = (self.d0 as u128) * by;
        let t1: u128 = (self.d1 as u128) * by + t0 / base;
        let t2: u128 = (self.d2 as u128) * by + t1 / base;
        let t3: u128 = (self.d3 as u128) * by + t2 / base;
        let t4: u128 = (self.d4 as u128) * by + t3 / base;
        let t5: u128 = (self.d5 as u128) * by + t4 / base;
        proof {
            assert(self.value() * x == digits_value(
                (t0 % base) as int,
                (t1 % base) as int,
                (t2 % base) as int,
                (t3 % base) as int,
                (t4 % base) as int,
                t5 as int,
            ));
        }
        Wide {
            d0: (t0 % base) as u64,
            d1: (t1 % base) as u64,
            d2: (t2 % base) as u64,
            d3: (t3 % base) as u64,
            d4: (t4 % base) as u64,
            d5: t5 as u64,
        }
    }

    /// The sum of this number and another, where that stays below 2^384.
    pub(crate) fn plus(&self, other: &Wide) -> (wide: Wide)
        requires
            self.value() + other.value() < limit(),
        ensures
            wide.value() == self.value() + other.value(),
    {
        let base: u128 = 0x1_0000_0000_0000_0000;
        let t0: u128 = self.d0 as u128 + other.d0 as u128;
        let t1: u128 = self.d1 as u128 + other.d1 as u128 + t0 / base;
        let t2: u128 = self.d2 as u128 + other.d2 as u128 + t1 / base;
        let t3: u128 = self.d3 as u128 + other.d3 as u128 + t2 / base;
        let t4: u128 = self.d4 as u128 + other.d4 as u128 + t3 / base;
        let t5: u128 = self.d5 as u128 + other.d5 as u128 + t4 / base;
        proof {
            assert(self.value() + other.value() == digits_value(
                (t0 % base) as int,
                (t1 % base) as int,
                (t2 % base) as int,
                (t3 % base) as int,
                (t4 % base) as int,
                t5 as int,
            ));
        }
        Wide {
            d0: (t0 % base) as u64,
            d1: (t1 % base) as u64,
            d2: (t2 % base) as u64,
            d3: (t3 % base) as u64,
            d4: (t4 % base) as u64,
            d5: t5 as u64,
        }
    }

    /// Whether this number is at most `other`.
    pub(crate) fn at_most(&self, other: &Wide) -> (holds: bool)
        ensures
            holds == (self.value() <= other.value()),
    {
        if self.d5 != other.d5 {
            self.d5 < other.d5
        } else if self.d4 != other.d4 {
            self.d4 < other.d4
        } else if self.d3 != other.d3 {
            self.d3 < other.d3
        } else if self.d2 != other.d2 {
            self.d2 < other.d2
        } else if self.d1 != other.d1 {
            self.d1 < other.d1
        } else {
            self.d0 <= other.d0
        }
    }
}

} // verus!
