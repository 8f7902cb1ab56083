//! Codecs and the two basic ones: uniform and log-uniform integers.

use crate::message::Message;
use vstd::arithmetic::div_mod::{
    lemma_div_pos_is_pos, lemma_fundamental_div_mod, lemma_fundamental_div_mod_converse,
    lemma_mod_bound,
};
use vstd::prelude::*;

verus! {

/// A way to push symbols onto a message and to pop them off again.
///
/// What a push or a pop does to the message depends on nothing but the message's number, so it is
/// written here as a function of that number.
pub trait Codec {
    /// What is coded.
    type Symbol: View;

    /// Whether the codec can push `x`.
    spec fn can_push(&self, x: <Self::Symbol as View>::V) -> bool;

    /// Whether the codec can pop from the message with number `m`.
    spec fn can_pop(&self, m: nat) -> bool;

    /// The message after `x` was pushed onto `m`.
    spec fn pushed(&self, m: nat, x: <Self::Symbol as View>::V) -> nat;

    /// The message after a symbol was popped off `m`, and the symbol.
    spec fn popped(&self, m: nat) -> (nat, <Self::Symbol as View>::V);

    /// Pushes `x` onto the message.
    fn push(&self, m: &mut Message, x: &Self::Symbol)
        requires
            self.can_push(x@),
        ensures
            final(m)@ == self.pushed(old(m)@, x@),
    ;

    /// Pops a symbol off the message.
    fn pop(&self, m: &mut Message) -> (x: Self::Symbol)
        requires
            self.can_pop(old(m)@),
        ensures
            (final(m)@, x@) == self.popped(old(m)@),
    ;
}

/// The message after pushing the interval of `width` numbers from `start` on, out of `total`.
pub open spec fn interval_pushed(m: nat, total: nat, start: nat, width: nat) -> nat {
    (m / width) * total + start + m % width
}

/// The message after popping the interval of `width` numbers from `start` on, out of `total`.
pub open spec fn interval_popped(m: nat, total: nat, start: nat, width: nat) -> nat {
    ((m / total) * width + m % total - start) as nat
}

/// Popping an interval undoes pushing it, and the pushed number points into the interval.
pub proof fn interval_push_then_pop(m: nat, total: nat, start: nat, width: nat)
    requires
        width > 0,
        start + width <= total,
    ensures
        start <= interval_pushed(m, total, start, width) % total < start + width,
        interval_popped(interval_pushed(m, total, start, width), total, start, width) == m,
{
    let q = (m / width) as int;
    let r = (m % width) as int;
    lemma_fundamental_div_mod(m as int, width as int);
    lemma_mod_bound(m as int, width as int);
    lemma_div_pos_is_pos(m as int, width as int);
    assert(q * total >= 0) by (nonlinear_arith)
        requires
            q >= 0,
    ;
    let p = interval_pushed(m, total, start, width) as int;
    assert(q * total == total * q) by (nonlinear_arith);
    lemma_fundamental_div_mod_converse(p, total as int, q, start + r);
    assert(q * width == width * q) by (nonlinear_arith);
}

/// Pushing an interval undoes popping it, where the message points into the interval.
pub proof fn interval_pop_then_push(m: nat, total: nat, start: nat, width: nat)
    requires
        width > 0,
        start <= m % total < start + width,
        start + width <= total,
    ensures
        interval_pushed(interval_popped(m, total, start, width), total, start, width) == m,
{
    let q = (m / total) as int;
    let r = m % total - start;
    lemma_fundamental_div_mod(m as int, total as int);
    lemma_div_pos_is_pos(m as int, total as int);
    assert(q * width >= 0) by (nonlinear_arith)
        requires
            q >= 0,
    ;
    let p = interval_popped(m, total, start, width) as int;
    assert(q * width == width * q) by (nonlinear_arith);
    lemma_fundamental_div_mod_converse(p, width as int, q, r);
    assert(q * total == total * q) by (nonlinear_arith);
}

/// Codec for integers below `size`, all equally likely.
#[derive(Clone, Copy, Debug, PartialEq, Eq)]
pub struct Uniform {
    /// The number of symbols.
    pub size: usize,
}

impl Uniform {
    /// The codec for integers below `size`.
    pub fn new(size: usize) -> (c: Self)
        ensures
            c.size == size,
    {
        Uniform { size }
    }
}

impl Codec for Uniform {
    type Symbol = usize;

    open spec fn can_push(&self, x: usize) -> bool {
        x < self.size
    }

    open spec fn can_pop(&self, m: nat) -> bool {
        self.size > 0
    }

    open spec fn pushed(&self, m: nat, x: usize) -> nat {
        m * self.size as nat + x as nat
    }

    open spec fn popped(&self, m: nat) -> (nat, usize) {
        (m / self.size as nat, (m % self.size as nat) as usize)
    }

    fn push(&self, m: &mut Message, x: &usize) {
        m.multiply(self.size as u64, *x as u64);
        assert(m@ == self.pushed(old(m)@, *x));
    }

    fn pop(&self, m: &mut Message) -> (x: usize) {
        let r: u64 = m.divide(self.size as u64);
        r as usize
    }
}

/// A uniform integer that was pushed is popped again, and the message is what it was.
pub proof fn uniform_push_then_pop(c: Uniform, m: nat, x: usize)
    requires
        c.can_push(x),
    ensures
        c.can_pop(c.pushed(m, x)),
        c.popped(c.pushed(m, x)) == (m, x),
{
    let s = c.size as int;
    assert(m * s == s * m) by (nonlinear_arith);
    lemma_fundamental_div_mod_converse(c.pushed(m, x) as int, s, m as int, x as int);
}

/// Pushing the uniform integer that was popped restores the message.
pub proof fn uniform_pop_then_push(c: Uniform, m: nat)
    requires
        c.can_pop(m),
    ensures
        c.can_push(c.popped(m).1),
        c.pushed(c.popped(m).0, c.popped(m).1) == m,
{
    let s = c.size as int;
    lemma_fundamental_div_mod(m as int, s);
    lemma_mod_bound(m as int, s);
    assert((m / c.size as nat) * s == s * (m / c.size as nat)) by (nonlinear_arith);
}

/// The number of binary digits of `x`, none for zero.
pub open spec fn bit_length(x: nat) -> nat
    decreases x,
{
    if x == 0 {
        0
    } else {
        1 + bit_length(x / 2)
    }
}

/// Two to the power of `e`.
pub open spec fn two_to(e: nat) -> nat
    decreases e,
{
    if e == 0 {
        1
    } else {
        2 * two_to((e - 1) as nat)
    }
}

/// A number with `b > 0` binary digits lies from the power `b - 1` of two up to the next one.
proof fn lemma_bit_length_bounds(x: nat)
    ensures
        x > 0 ==> two_to((bit_length(x) - 1) as nat) <= x,
        x < two_to(bit_length(x)),
    decreases x,
{
    if x > 0 {
        lemma_bit_length_bounds(x / 2);
        if x / 2 == 0 {
            reveal_with_fuel(two_to, 2);
            reveal_with_fuel(bit_length, 2);
        }
    }
}

/// The bounds determine the number of digits.
proof fn lemma_bit_length_from_bounds(x: nat, b: nat)
    requires
        b > 0,
        two_to((b - 1) as nat) <= x < two_to(b),
    ensures
        bit_length(x) == b,
    decreases b,
{
    if b == 1 {
        reveal_with_fuel(two_to, 2);
        reveal_with_fuel(bit_length, 2);
    } else {
        lemma_bit_length_from_bounds(x / 2, (b - 1) as nat);
    }
}

proof fn lemma_two_to_positive(e: nat)
    ensures
        two_to(e) > 0,
    decreases e,
{
    if e > 0 {
        lemma_two_to_positive((e - 1) as nat);
    }
}

proof fn lemma_two_to_monotone(a: nat, b: nat)
    requires
        a <= b,
    ensures
        two_to(a) <= two_to(b),
    decreases b,
{
    if a < b {
        lemma_two_to_monotone(a, (b - 1) as nat);
        lemma_two_to_positive((b - 1) as nat);
    }
}

proof fn lemma_usize_range()
    ensures
        two_to(usize::BITS as nat) == usize::MAX + 1,
{
    reveal_with_fuel(two_to, 65);
    if usize::BITS == 32 {
        assert(usize::MAX == 0xFFFF_FFFF);
    } else {
        assert(usize::BITS == 64);
        assert(usize::MAX == 0xFFFF_FFFF_FFFF_FFFF);
    }
}

proof fn lemma_usize_bit_length(x: usize)
    ensures
        bit_length(x as nat) <= usize::BITS,
{
    lemma_usize_range();
    lemma_bit_length_bounds(x as nat);
    if bit_length(x as nat) > usize::BITS {
        lemma_two_to_monotone(usize::BITS as nat, (bit_length(x as nat) - 1) as nat);
    }
}

/// Codec for integers of which every number of binary digits is equally likely, and every integer
/// with the same number of digits.
#[derive(Clone, Copy, Debug, PartialEq, Eq)]
pub struct LogUniform {
    /// The codec for the number of binary digits.
    lengths: Uniform,
}

impl LogUniform {
    /// Whether the codec codes lengths up to that of the largest integer.
    pub closed spec fn is_max(&self) -> bool {
        self.lengths.size == usize::BITS + 1
    }

    /// The codec for all integers.
    pub fn max() -> (c: Self)
        ensures
            c.is_max(),
    {
        LogUniform { lengths: Uniform::new(usize::BITS as usize + 1) }
    }

    /// The number of binary digits of `x`, none for zero.
    pub fn bit_length(x: usize) -> (b: usize)
        ensures
            b as nat == bit_length(x as nat),
            b <= usize::BITS,
    {
        let mut rest: usize = x;
        let mut b: usize = 0;
        proof {
            lemma_usize_bit_length(x);
        }
        while rest > 0
            invariant
                b + bit_length(rest as nat) == bit_length(x as nat),
                bit_length(x as nat) <= usize::BITS,
                usize::BITS <= 64,
            decreases rest,
        {
            rest = rest / 2;
            b = b + 1;
        }
        b
    }

    /// The smallest integer with `b` binary digits.
    fn smallest(b: usize) -> (p: usize)
        requires
            0 < b <= usize::BITS,
        ensures
            p as nat == two_to((b - 1) as nat),
    {
        let mut p: usize = 1;
        let mut i: usize = 1;
        while i < b
            invariant
                0 < i <= b <= usize::BITS,
                p as nat == two_to((i - 1) as nat),
            decreases b - i,
        {
            proof {
                lemma_usize_range();
                lemma_two_to_monotone(i as nat, (usize::BITS - 1) as nat);
                lemma_two_to_positive((usize::BITS - 1) as nat);
            }
            p = p * 2;
            i = i + 1;
        }
        p
    }
}

/// The message after `x` was pushed onto `m`: what is below the leading digit, out of as many
/// numbers as there are, then the number of digits.
pub open spec fn log_uniform_pushed(m: nat, x: nat) -> nat {
    let b = bit_length(x);
    let lower = if b == 0 {
        m
    } else {
        (m * two_to((b - 1) as nat) + x - two_to((b - 1) as nat)) as nat
    };
    lower * (usize::BITS + 1) as nat + b
}

/// The message and the integer after one was popped off `m`.
pub open spec fn log_uniform_popped(m: nat) -> (nat, nat) {
    let b = m % (usize::BITS + 1) as nat;
    let lower = m / (usize::BITS + 1) as nat;
    if b == 0 {
        (lower, 0)
    } else {
        let p = two_to((b - 1) as nat);
        (lower / p, p + lower % p)
    }
}

/// What is popped is an integer that fits.
proof fn lemma_log_uniform_fits(m: nat)
    ensures
        log_uniform_popped(m).1 <= usize::MAX,
{
    let b = m % (usize::BITS + 1) as nat;
    if b > 0 {
        let lower = m / (usize::BITS + 1) as nat;
        let p = two_to((b - 1) as nat);
        lemma_two_to_positive((b - 1) as nat);
        lemma_mod_bound(lower as int, p as int);
        lemma_two_to_monotone(b, usize::BITS as nat);
        lemma_usize_range();
    }
}

impl Codec for LogUniform {
    type Symbol = usize;

    open spec fn can_push(&self, x: usize) -> bool {
        self.is_max()
    }

    open spec fn can_pop(&self, m: nat) -> bool {
        self.is_max()
    }

    open spec fn pushed(&self, m: nat, x: usize) -> nat {
        log_uniform_pushed(m, x as nat)
    }

    open spec fn popped(&self, m: nat) -> (nat, usize) {
        (log_uniform_popped(m).0, log_uniform_popped(m).1 as usize)
    }

    fn push(&self, m: &mut Message, x: &usize) {
        assert(self.can_push(*x));
        let b = Self::bit_length(*x);
        if b > 0 {
            let p = Self::smallest(b);
            proof {
                lemma_bit_length_bounds(*x as nat);
            }
            Uniform::new(p).push(m, &(*x - p));
        }
        self.lengths.push(m, &b);
        assert(m@ == self.pushed(old(m)@, *x));
    }

    fn pop(&self, m: &mut Message) -> (x: usize) {
        proof {
            lemma_mod_bound(m@ as int, usize::BITS + 1);
            lemma_log_uniform_fits(m@);
        }
        let b = self.lengths.pop(m);
        if b == 0 {
            0
        } else {
            let p = Self::smallest(b);
            proof {
                lemma_two_to_positive((b - 1) as nat);
                lemma_mod_bound(m@ as int, p as int);
            }
            p + Uniform::new(p).pop(m)
        }
    }
}

/// A log-uniform integer that was pushed is popped again, and the message is what it was.
pub proof fn log_uniform_push_then_pop(m: nat, x: usize)
    ensures
        log_uniform_popped(log_uniform_pushed(m, x as nat)) == (m, x as nat),
{
    lemma_usize_bit_length(x);
    lemma_bit_length_bounds(x as nat);
    let b = bit_length(x as nat);
    let lengths = Uniform { size: (usize::BITS + 1) as usize };
    if b == 0 {
        uniform_push_then_pop(lengths, m, 0);
    } else {
        let p = two_to((b - 1) as nat);
        lemma_two_to_positive((b - 1) as nat);
        let offsets = Uniform { size: p as usize };
        uniform_push_then_pop(offsets, m, (x - p) as usize);
        uniform_push_then_pop(lengths, offsets.pushed(m, (x - p) as usize), b as usize);
    }
}

/// What is popped is an integer that fits, and pushing it restores the message.
pub proof fn log_uniform_pop_then_push(m: nat)
    ensures
        log_uniform_popped(m).1 <= usize::MAX,
        log_uniform_pushed(log_uniform_popped(m).0, log_uniform_popped(m).1) == m,
{
    let lengths = Uniform { size: (usize::BITS + 1) as usize };
    uniform_pop_then_push(lengths, m);
    lemma_log_uniform_fits(m);
    let (lower, b) = lengths.popped(m);
    if b > 0 {
        let p = two_to((b - 1) as nat);
        lemma_usize_range();
        lemma_two_to_positive((b - 1) as nat);
        lemma_two_to_monotone((b - 1) as nat, (usize::BITS - 1) as nat);
        lemma_two_to_positive((usize::BITS - 1) as nat);
        uniform_pop_then_push(Uniform { size: p as usize }, lower);
        lemma_mod_bound(lower as int, p as int);
        lemma_bit_length_from_bounds(log_uniform_popped(m).1, b as nat);
    }
}

/// Pushing an interval keeps the quotient and moves the remainder into the interval.
pub proof fn interval_pushed_digits(m: nat, total: nat, start: nat, width: nat)
    requires
        width > 0,
        start + width <= total,
    ensures
        interval_pushed(m, total, start, width) / total == m / width,
        interval_pushed(m, total, start, width) % total == start + m % width,
{
    let q = (m / width) as int;
    lemma_mod_bound(m as int, width as int);
    lemma_div_pos_is_pos(m as int, width as int);
    assert(q * total == total * q) by (nonlinear_arith);
    assert(q * total >= 0) by (nonlinear_arith)
        requires
            q >= 0,
    ;
    lemma_fundamental_div_mod_converse(
        interval_pushed(m, total, start, width) as int,
        total as int,
        q,
        (start + m % width) as int,
    );
}

/// Popping an interval keeps the quotient and counts the remainder from the start of the interval.
pub proof fn interval_popped_digits(m: nat, total: nat, start: nat, width: nat)
    requires
        width > 0,
        start <= m % total < start + width,
        start + width <= total,
    ensures
        interval_popped(m, total, start, width) / width == m / total,
        interval_popped(m, total, start, width) % width == m % total - start,
{
    let q = (m / total) as int;
    lemma_div_pos_is_pos(m as int, total as int);
    assert(q * width == width * q) by (nonlinear_arith);
    assert(q * width >= 0) by (nonlinear_arith)
        requires
            q >= 0,
    ;
    lemma_fundamental_div_mod_converse(
        interval_popped(m, total, start, width) as int,
        width as int,
        q,
        m % total - start,
    );
}

/// A uniform integer is the lowest digit of the message in a number system with as many digits as
/// there are symbols.
pub proof fn uniform_is_lowest_digit(size: usize, m: nat, x: usize)
    ensures
        (Uniform { size }).can_push(x) <==> x < size,
        (Uniform { size }).can_pop(m) <==> size > 0,
        (Uniform { size }).pushed(m, x) == m * (size as nat) + (x as nat),
        x < size ==> (Uniform { size }).pushed(m, x) / (size as nat) == m,
        x < size ==> (Uniform { size }).pushed(m, x) % (size as nat) == x as nat,
        size > 0 ==> (Uniform { size }).popped(m).0 == m / (size as nat),
        size > 0 ==> (Uniform { size }).popped(m).1 as nat == m % (size as nat),
{
    if size > 0 {
        lemma_mod_bound(m as int, size as int);
    }
    if x < size {
        uniform_push_then_pop(Uniform { size }, m, x);
        assert(m * (size as int) == (size as int) * m) by (nonlinear_arith);
        lemma_fundamental_div_mod_converse(
            m * (size as int) + x,
            size as int,
            m as int,
            x as int,
        );
    }
}

proof fn lemma_two_to_is_power(e: nat)
    ensures
        two_to(e) == vstd::arithmetic::power2::pow2(e),
    decreases e,
{
    if e > 0 {
        lemma_two_to_is_power((e - 1) as nat);
        vstd::arithmetic::power2::lemma_pow2_unfold(e);
    } else {
        vstd::arithmetic::power2::lemma2_to64();
    }
}

/// A number has `b` binary digits if it lies from the power `b - 1` of two up to the next one, and
/// zero has none.
pub proof fn bit_length_by_powers(x: nat, b: nat)
    ensures
        b > 0 ==> (bit_length(x) == b <==> vstd::arithmetic::power2::pow2((b - 1) as nat) <= x
            < vstd::arithmetic::power2::pow2(b)),
        bit_length(x) == 0 <==> x == 0,
{
    lemma_bit_length_bounds(x);
    lemma_two_to_is_power(b);
    if b > 0 {
        lemma_two_to_is_power((b - 1) as nat);
        if two_to((b - 1) as nat) <= x < two_to(b) {
            lemma_bit_length_from_bounds(x, b);
        }
        if bit_length(x) == b && x == 0 {
            assert(bit_length(0) == 0);
        }
    }
}

/// A log-uniform integer with `b` digits is pushed as what is below its leading digit, and then
/// `b`; zero is pushed as the number of its digits only.
pub proof fn log_uniform_pushed_digits(m: nat, x: nat, b: nat)
    ensures
        x == 0 ==> log_uniform_pushed(m, x) == m * (usize::BITS as nat + 1),
        b > 0 && vstd::arithmetic::power2::pow2((b - 1) as nat) <= x
            < vstd::arithmetic::power2::pow2(b) ==> log_uniform_pushed(m, x) == (m
            * vstd::arithmetic::power2::pow2((b - 1) as nat) + (x
            - vstd::arithmetic::power2::pow2((b - 1) as nat))) * (usize::BITS as nat + 1) + b,
{
    bit_length_by_powers(x, b);
    if b > 0 {
        lemma_two_to_is_power((b - 1) as nat);
    }
}

/// A log-uniform integer is popped as the number of its digits, and then what is below the leading
/// one.
pub proof fn log_uniform_popped_digits(m: nat)
    ensures
        ({
            let b = m % (usize::BITS as nat + 1);
            let lower = m / (usize::BITS as nat + 1);
            let p = vstd::arithmetic::power2::pow2((b - 1) as nat);
            &&& b == 0 ==> log_uniform_popped(m) == (lower, 0nat)
            &&& b > 0 ==> log_uniform_popped(m) == (lower / p, p + lower % p)
        }),
{
    let b = m % (usize::BITS as nat + 1);
    if b > 0 {
        lemma_two_to_is_power((b - 1) as nat);
    }
}

/// The codec for all integers pushes and pops every integer, each in the log-uniform way.
pub proof fn log_uniform_codec(c: LogUniform, m: nat, x: usize)
    requires
        c.is_max(),
    ensures
        c.can_push(x),
        c.can_pop(m),
        c.pushed(m, x) == log_uniform_pushed(m, x as nat),
        c.popped(m).0 == log_uniform_popped(m).0,
        c.popped(m).1 as nat == log_uniform_popped(m).1,
{
    lemma_log_uniform_fits(m);
}

} // verus!
