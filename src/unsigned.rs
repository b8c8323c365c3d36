//! The unsigned integer types the divisor functions work on.

use vstd::arithmetic::power2::{
    lemma2_to64_rest, lemma_pow2_adds, lemma_pow2_strictly_increases, pow2,
};
use vstd::bits::{
    lemma_u128_shr_is_div, lemma_u16_pow2_no_overflow, lemma_u16_shl_is_mul, lemma_u16_shr_is_div,
    lemma_u32_pow2_no_overflow, lemma_u32_shl_is_mul, lemma_u32_shr_is_div,
    lemma_u64_pow2_no_overflow, lemma_u64_shl_is_mul, lemma_u64_shr_is_div,
    lemma_u8_pow2_no_overflow, lemma_u8_shl_is_mul, lemma_u8_shr_is_div,
    lemma_usize_pow2_no_overflow, lemma_usize_shl_is_mul, lemma_usize_shr_is_div,
};
use vstd::layout::unsigned_int_max_values;
use vstd::prelude::*;

verus! {

/// An unsigned machine integer, seen as the natural number it holds.
///
/// Each operation states its result on that number; those that could
/// overflow require that the exact result fits.
pub trait Num: Copy + Sized {
    /// The value as a natural number.
    spec fn val(self) -> nat;

    /// The width of the type in bits.
    spec fn width() -> nat;

    /// The width is an even number of bits between 8 and 128.
    proof fn lemma_width()
        ensures
            8 <= Self::width() <= 128,
            Self::width() % 2 == 0,
    ;

    /// Every value lies below `2^width`.
    proof fn lemma_bounded(self)
        ensures
            self.val() < pow2(Self::width()),
    ;

    /// The width in bits.
    fn bit_width() -> (r: u32)
        ensures
            r as nat == Self::width(),
    ;

    /// A small constant of the type.
    fn from_u8(k: u8) -> (r: Self)
        ensures
            r.val() == k as nat,
    ;

    /// `2^k`, by shifting one to the left.
    fn power_of_two(k: u32) -> (r: Self)
        requires
            (k as nat) < Self::width(),
        ensures
            r.val() == pow2(k as nat),
    ;

    /// Bit `i` of the value, by shifting to the right and masking.
    fn bit(self, i: u32) -> (r: bool)
        requires
            (i as nat) < Self::width(),
        ensures
            r == (self.val() / pow2(i as nat) % 2 == 1),
    ;

    /// Whether the lowest bit is clear.
    fn is_even(self) -> (r: bool)
        ensures
            r == (self.val() % 2 == 0),
    ;

    /// The value shifted right by one bit.
    fn half(self) -> (r: Self)
        ensures
            r.val() == self.val() / 2,
    ;

    /// The sum, which must fit.
    fn plus(self, o: Self) -> (r: Self)
        requires
            self.val() + o.val() < pow2(Self::width()),
        ensures
            r.val() == self.val() + o.val(),
    ;

    /// The product, which must fit.
    fn times(self, o: Self) -> (r: Self)
        requires
            self.val() * o.val() < pow2(Self::width()),
        ensures
            r.val() == self.val() * o.val(),
    ;

    /// Division rounding down.
    fn quotient(self, d: Self) -> (r: Self)
        requires
            d.val() > 0,
        ensures
            r.val() == self.val() / d.val(),
    ;

    /// The remainder of division.
    fn remainder(self, d: Self) -> (r: Self)
        requires
            d.val() > 0,
        ensures
            r.val() == self.val() % d.val(),
    ;

    /// `<` on the values.
    fn less_than(self, o: Self) -> (r: bool)
        ensures
            r == (self.val() < o.val()),
    ;

    /// `==` on the values.
    fn equals(self, o: Self) -> (r: bool)
        ensures
            r == (self.val() == o.val()),
    ;
}

impl Num for u8 {
    open spec fn val(self) -> nat {
        self as nat
    }

    open spec fn width() -> nat {
        u8::BITS as nat
    }

    proof fn lemma_width() {
    }

    proof fn lemma_bounded(self) {
        unsigned_int_max_values();
    }

    fn bit_width() -> (r: u32) {
        u8::BITS
    }

    fn from_u8(k: u8) -> (r: Self) {
        k as u8
    }

    fn power_of_two(k: u32) -> (r: Self) {
        proof {
            lemma_u8_pow2_no_overflow(k as nat);
            lemma_u8_shl_is_mul(1, k as u8);
        }
        (1 as u8) << (k as u8)
    }

    fn bit(self, i: u32) -> (r: bool) {
        proof {
            lemma_u8_shr_is_div(self, i as u8);
        }
        let s = self >> (i as u8);
        assert((s & 1 == 1) == (s % 2 == 1)) by (bit_vector);
        s & 1 == 1
    }

    fn is_even(self) -> (r: bool) {
        let s = self;
        assert((s & 1 == 0) == (s % 2 == 0)) by (bit_vector);
        s & 1 == 0
    }

    fn half(self) -> (r: Self) {
        let s = self;
        assert(s >> 1 == s / 2) by (bit_vector);
        s >> 1
    }

    fn plus(self, o: Self) -> (r: Self) {
        proof {
            unsigned_int_max_values();
        }
        self + o
    }

    fn times(self, o: Self) -> (r: Self) {
        proof {
            unsigned_int_max_values();
        }
        self * o
    }

    fn quotient(self, d: Self) -> (r: Self) {
        self / d
    }

    fn remainder(self, d: Self) -> (r: Self) {
        self % d
    }

    fn less_than(self, o: Self) -> (r: bool) {
        self < o
    }

    fn equals(self, o: Self) -> (r: bool) {
        self == o
    }
}

impl Num for u16 {
    open spec fn val(self) -> nat {
        self as nat
    }

    open spec fn width() -> nat {
        u16::BITS as nat
    }

    proof fn lemma_width() {
    }

    proof fn lemma_bounded(self) {
        unsigned_int_max_values();
    }

    fn bit_width() -> (r: u32) {
        u16::BITS
    }

    fn from_u8(k: u8) -> (r: Self) {
        k as u16
    }

    fn power_of_two(k: u32) -> (r: Self) {
        proof {
            lemma_u16_pow2_no_overflow(k as nat);
            lemma_u16_shl_is_mul(1, k as u16);
        }
        (1 as u16) << (k as u16)
    }

    fn bit(self, i: u32) -> (r: bool) {
        proof {
            lemma_u16_shr_is_div(self, i as u16);
        }
        let s = self >> (i as u16);
        assert((s & 1 == 1) == (s % 2 == 1)) by (bit_vector);
        s & 1 == 1
    }

    fn is_even(self) -> (r: bool) {
        let s = self;
        assert((s & 1 == 0) == (s % 2 == 0)) by (bit_vector);
        s & 1 == 0
    }

    fn half(self) -> (r: Self) {
        let s = self;
        assert(s >> 1 == s / 2) by (bit_vector);
        s >> 1
    }

    fn plus(self, o: Self) -> (r: Self) {
        proof {
            unsigned_int_max_values();
        }
        self + o
    }

    fn times(self, o: Self) -> (r: Self) {
        proof {
            unsigned_int_max_values();
        }
        self * o
    }

    fn quotient(self, d: Self) -> (r: Self) {
        self / d
    }

    fn remainder(self, d: Self) -> (r: Self) {
        self % d
    }

    fn less_than(self, o: Self) -> (r: bool) {
        self < o
    }

    fn equals(self, o: Self) -> (r: bool) {
        self == o
    }
}

impl Num for u32 {
    open spec fn val(self) -> nat {
        self as nat
    }

    open spec fn width() -> nat {
        u32::BITS as nat
    }

    proof fn lemma_width() {
    }

    proof fn lemma_bounded(self) {
        unsigned_int_max_values();
    }

    fn bit_width() -> (r: u32) {
        u32::BITS
    }

    fn from_u8(k: u8) -> (r: Self) {
        k as u32
    }

    fn power_of_two(k: u32) -> (r: Self) {
        proof {
            lemma_u32_pow2_no_overflow(k as nat);
            lemma_u32_shl_is_mul(1, k as u32);
        }
        (1 as u32) << (k as u32)
    }

    fn bit(self, i: u32) -> (r: bool) {
        proof {
            lemma_u32_shr_is_div(self, i as u32);
        }
        let s = self >> (i as u32);
        assert((s & 1 == 1) == (s % 2 == 1)) by (bit_vector);
        s & 1 == 1
    }

    fn is_even(self) -> (r: bool) {
        let s = self;
        assert((s & 1 == 0) == (s % 2 == 0)) by (bit_vector);
        s & 1 == 0
    }

    fn half(self) -> (r: Self) {
        let s = self;
        assert(s >> 1 == s / 2) by (bit_vector);
        s >> 1
    }

    fn plus(self, o: Self) -> (r: Self) {
        proof {
            unsigned_int_max_values();
        }
        self + o
    }

    fn times(self, o: Self) -> (r: Self) {
        proof {
            unsigned_int_max_values();
        }
        self * o
    }

    fn quotient(self, d: Self) -> (r: Self) {
        self / d
    }

    fn remainder(self, d: Self) -> (r: Self) {
        self % d
    }

    fn less_than(self, o: Self) -> (r: bool) {
        self < o
    }

    fn equals(self, o: Self) -> (r: bool) {
        self == o
    }
}

impl Num for u64 {
    open spec fn val(self) -> nat {
        self as nat
    }

    open spec fn width() -> nat {
        u64::BITS as nat
    }

    proof fn lemma_width() {
    }

    proof fn lemma_bounded(self) {
        unsigned_int_max_values();
    }

    fn bit_width() -> (r: u32) {
        u64::BITS
    }

    fn from_u8(k: u8) -> (r: Self) {
        k as u64
    }

    fn power_of_two(k: u32) -> (r: Self) {
        proof {
            lemma_u64_pow2_no_overflow(k as nat);
            lemma_u64_shl_is_mul(1, k as u64);
        }
        (1 as u64) << (k as u64)
    }

    fn bit(self, i: u32) -> (r: bool) {
        proof {
            lemma_u64_shr_is_div(self, i as u64);
        }
        let s = self >> (i as u64);
        assert((s & 1 == 1) == (s % 2 == 1)) by (bit_vector);
        s & 1 == 1
    }

    fn is_even(self) -> (r: bool) {
        let s = self;
        assert((s & 1 == 0) == (s % 2 == 0)) by (bit_vector);
        s & 1 == 0
    }

    fn half(self) -> (r: Self) {
        let s = self;
        assert(s >> 1 == s / 2) by (bit_vector);
        s >> 1
    }

    fn plus(self, o: Self) -> (r: Self) {
        proof {
            unsigned_int_max_values();
        }
        self + o
    }

    fn times(self, o: Self) -> (r: Self) {
        proof {
            unsigned_int_max_values();
        }
        self * o
    }

    fn quotient(self, d: Self) -> (r: Self) {
        self / d
    }

    fn remainder(self, d: Self) -> (r: Self) {
        self % d
    }

    fn less_than(self, o: Self) -> (r: bool) {
        self < o
    }

    fn equals(self, o: Self) -> (r: bool) {
        self == o
    }
}

impl Num for u128 {
    open spec fn val(self) -> nat {
        self as nat
    }

    open spec fn width() -> nat {
        u128::BITS as nat
    }

    proof fn lemma_width() {
    }

    proof fn lemma_bounded(self) {
        unsigned_int_max_values();
    }

    fn bit_width() -> (r: u32) {
        u128::BITS
    }

    fn from_u8(k: u8) -> (r: Self) {
        k as u128
    }

    fn power_of_two(k: u32) -> (r: Self) {
        if k < 64 {
            proof {
                lemma_u64_pow2_no_overflow(k as nat);
                lemma_u64_shl_is_mul(1, k as u64);
            }
            ((1u64 << (k as u64)) as u128)
        } else {
            let high = k - 64;
            proof {
                lemma_u64_pow2_no_overflow(high as nat);
                lemma_u64_shl_is_mul(1, high as u64);
                lemma_pow2_adds(high as nat, 64);
                lemma2_to64_rest();
                unsigned_int_max_values();
                lemma_pow2_strictly_increases(k as nat, 128);
            }
            ((1u64 << (high as u64)) as u128) * 0x1_0000_0000_0000_0000u128
        }
    }

    fn bit(self, i: u32) -> (r: bool) {
        proof {
            lemma_u128_shr_is_div(self, i as u128);
        }
        let s = self >> (i as u128);
        assert((s & 1 == 1) == (s % 2 == 1)) by (bit_vector);
        s & 1 == 1
    }

    fn is_even(self) -> (r: bool) {
        let s = self;
        assert((s & 1 == 0) == (s % 2 == 0)) by (bit_vector);
        s & 1 == 0
    }

    fn half(self) -> (r: Self) {
        let s = self;
        assert(s >> 1 == s / 2) by (bit_vector);
        s >> 1
    }

    fn plus(self, o: Self) -> (r: Self) {
        proof {
            unsigned_int_max_values();
        }
        self + o
    }

    fn times(self, o: Self) -> (r: Self) {
        proof {
            unsigned_int_max_values();
        }
        self * o
    }

    fn quotient(self, d: Self) -> (r: Self) {
        self / d
    }

    fn remainder(self, d: Self) -> (r: Self) {
        self % d
    }

    fn less_than(self, o: Self) -> (r: bool) {
        self < o
    }

    fn equals(self, o: Self) -> (r: bool) {
        self == o
    }
}

impl Num for usize {
    open spec fn val(self) -> nat {
        self as nat
    }

    open spec fn width() -> nat {
        usize::BITS as nat
    }

    proof fn lemma_width() {
        assert(usize::BITS == 32 || usize::BITS == 64);
    }

    proof fn lemma_bounded(self) {
        unsigned_int_max_values();
    }

    fn bit_width() -> (r: u32) {
        usize::BITS
    }

    fn from_u8(k: u8) -> (r: Self) {
        k as usize
    }

    fn power_of_two(k: u32) -> (r: Self) {
        proof {
            lemma_usize_pow2_no_overflow(k as nat);
            lemma_usize_shl_is_mul(1, k as usize);
        }
        (1 as usize) << (k as usize)
    }

    fn bit(self, i: u32) -> (r: bool) {
        proof {
            lemma_usize_shr_is_div(self, i as usize);
        }
        let s = self >> (i as usize);
        assert((s & 1 == 1) == (s % 2 == 1)) by (bit_vector);
        s & 1 == 1
    }

    fn is_even(self) -> (r: bool) {
        let s = self;
        assert((s & 1 == 0) == (s % 2 == 0)) by (bit_vector);
        s & 1 == 0
    }

    fn half(self) -> (r: Self) {
        let s = self;
        assert(s >> 1 == s / 2) by (bit_vector);
        s >> 1
    }

    fn plus(self, o: Self) -> (r: Self) {
        proof {
            unsigned_int_max_values();
        }
        self + o
    }

    fn times(self, o: Self) -> (r: Self) {
        proof {
            unsigned_int_max_values();
        }
        self * o
    }

    fn quotient(self, d: Self) -> (r: Self) {
        self / d
    }

    fn remainder(self, d: Self) -> (r: Self) {
        self % d
    }

    fn less_than(self, o: Self) -> (r: bool) {
        self < o
    }

    fn equals(self, o: Self) -> (r: bool) {
        self == o
    }
}

} // verus!
