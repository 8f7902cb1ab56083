//! The message that codecs push onto and pop from.
//!
//! A message is a natural number of any size. Pushing a symbol makes the number larger, popping
//! one makes it smaller, and whatever was pushed last is popped first. The empty message is zero,
//! from which any number of symbols can be popped.

use vstd::arithmetic::div_mod::{lemma_fundamental_div_mod, lemma_fundamental_div_mod_converse};
use vstd::arithmetic::power::{lemma_pow0, lemma_pow1, lemma_pow_adds, pow};
use vstd::prelude::*;

verus! {

/// One more than the largest limb.
pub const LIMB_BASE: u128 = 0x1_0000_0000_0000_0000;

/// The number whose low limbs are `limbs`, least significant first, with `top` above them.
pub open spec fn with_top(limbs: Seq<u64>, top: nat) -> nat
    decreases limbs.len(),
{
    if limbs.len() == 0 {
        top
    } else {
        limbs[0] as nat + LIMB_BASE as nat * with_top(limbs.drop_first(), top)
    }
}

/// The number that `limbs` stand for.
pub open spec fn number(limbs: Seq<u64>) -> nat {
    with_top(limbs, 0)
}

/// Whether `limbs` are the shortest sequence for their number.
pub open spec fn trimmed(limbs: Seq<u64>) -> bool {
    limbs.len() > 0 ==> limbs.last() != 0
}

proof fn lemma_with_top_push(limbs: Seq<u64>, x: u64, top: nat)
    ensures
        with_top(limbs.push(x), top) == with_top(limbs, x as nat + LIMB_BASE as nat * top),
    decreases limbs.len(),
{
    if limbs.len() == 0 {
        assert(limbs.push(x).drop_first() =~= limbs);
        reveal_with_fuel(with_top, 2);
    } else {
        assert(limbs.push(x).drop_first() =~= limbs.drop_first().push(x));
        lemma_with_top_push(limbs.drop_first(), x, top);
    }
}

proof fn lemma_with_top_positive(limbs: Seq<u64>, top: nat)
    requires
        top > 0,
    ensures
        with_top(limbs, top) > 0,
    decreases limbs.len(),
{
    if limbs.len() > 0 {
        lemma_with_top_positive(limbs.drop_first(), top);
    }
}

/// Two shortest limb sequences for the same number are the same sequence.
pub proof fn number_determines_limbs(a: Seq<u64>, b: Seq<u64>)
    requires
        trimmed(a),
        trimmed(b),
        number(a) == number(b),
    ensures
        a == b,
    decreases a.len() + b.len(),
{
    if a.len() == 0 || b.len() == 0 {
        let (short, long) = if a.len() == 0 {
            (a, b)
        } else {
            (b, a)
        };
        if long.len() > 0 {
            lemma_with_top_push(long.drop_last(), long.last(), 0);
            assert(long.drop_last().push(long.last()) =~= long);
            lemma_with_top_positive(long.drop_last(), long.last() as nat);
        }
        assert(a =~= b);
    } else {
        let x = number(a.drop_first());
        let y = number(b.drop_first());
        lemma_fundamental_div_mod_converse(
            number(a) as int,
            LIMB_BASE as int,
            x as int,
            a[0] as int,
        );
        lemma_fundamental_div_mod_converse(
            number(b) as int,
            LIMB_BASE as int,
            y as int,
            b[0] as int,
        );
        number_determines_limbs(a.drop_first(), b.drop_first());
        assert(a =~= seq![a[0]] + a.drop_first());
        assert(b =~= seq![b[0]] + b.drop_first());
    }
}

/// A message: a natural number that codecs use as a stack.
#[derive(Debug, Eq)]
pub struct Message {
    limbs: Vec<u64>,
}

impl View for Message {
    type V = nat;

    closed spec fn view(&self) -> nat {
        number(self.limbs@)
    }
}

impl Clone for Message {
    fn clone(&self) -> (m: Self)
        ensures
            m@ == self@,
            m.digits() == self.digits(),
    {
        proof {
            use_type_invariant(self);
        }
        Message { limbs: self.limbs.clone() }
    }
}

impl vstd::std_specs::cmp::PartialEqSpecImpl for Message {
    open spec fn obeys_eq_spec() -> bool {
        true
    }

    open spec fn eq_spec(&self, other: &Self) -> bool {
        self@ == other@
    }
}

impl PartialEq for Message {
    fn eq(&self, other: &Self) -> (same: bool) {
        proof {
            use_type_invariant(self);
            use_type_invariant(other);
            if self@ == other@ {
                number_determines_limbs(self.limbs@, other.limbs@);
            }
        }
        if self.limbs.len() != other.limbs.len() {
            return false;
        }
        let mut i: usize = 0;
        while i < self.limbs.len()
            invariant
                i <= self.limbs.len(),
                self.limbs.len() == other.limbs.len(),
                self@ == other@ ==> self.limbs@ == other.limbs@,
                self.limbs@.take(i as int) == other.limbs@.take(i as int),
            decreases self.limbs.len() - i,
        {
            if self.limbs[i] != other.limbs[i] {
                return false;
            }
            assert(self.limbs@.take(i + 1) =~= self.limbs@.take(i as int).push(
                self.limbs@[i as int],
            ));
            assert(other.limbs@.take(i + 1) =~= other.limbs@.take(i as int).push(
                other.limbs@[i as int],
            ));
            i = i + 1;
        }
        assert(self.limbs@.take(i as int) =~= self.limbs@);
        assert(other.limbs@.take(i as int) =~= other.limbs@);
        true
    }
}

/// Drops the zero limbs at the top.
fn trim(limbs: &mut Vec<u64>)
    ensures
        number(final(limbs)@) == number(old(limbs)@),
        trimmed(final(limbs)@),
{
    while limbs.len() > 0 && limbs[limbs.len() - 1] == 0
        invariant
            number(limbs@) == number(old(limbs)@),
        ensures
            number(limbs@) == number(old(limbs)@),
            trimmed(limbs@),
        decreases limbs.len(),
    {
        let ghost before = limbs@;
        limbs.pop();
        proof {
            lemma_with_top_push(limbs@, 0, 0);
            assert(limbs@.push(0) =~= before);
        }
    }
}

impl Message {
    /// The limbs are the shortest for the number.
    #[verifier::type_invariant]
    spec fn inv(self) -> bool {
        trimmed(self.limbs@)
    }

    /// The limbs of the message's number, least significant first.
    pub closed spec fn digits(&self) -> Seq<u64> {
        self.limbs@
    }

    /// The empty message.
    pub fn new() -> (m: Self)
        ensures
            m@ == 0,
            m.digits() == Seq::<u64>::empty(),
    {
        Message { limbs: Vec::new() }
    }

    /// The message whose number has the given limbs, least significant first.
    pub fn from_limbs(limbs: Vec<u64>) -> (m: Self)
        ensures
            m@ == number(limbs@),
            number(m.digits()) == m@,
            trimmed(m.digits()),
    {
        let mut shortest = limbs;
        trim(&mut shortest);
        Message { limbs: shortest }
    }

    /// The shortest limbs of the message's number, least significant first.
    pub fn limbs(&self) -> (limbs: Vec<u64>)
        ensures
            limbs@ == self.digits(),
            number(limbs@) == self@,
            trimmed(limbs@),
    {
        proof {
            use_type_invariant(self);
        }
        self.limbs.clone()
    }

    /// Divides the message's number by `divisor` and returns the remainder.
    pub fn divide(&mut self, divisor: u64) -> (remainder: u64)
        requires
            divisor > 0,
        ensures
            final(self)@ == old(self)@ / divisor as nat,
            remainder as nat == old(self)@ % divisor as nat,
            trimmed(final(self).digits()),
    {
        proof {
            use_type_invariant(&*self);
        }
        let mut limbs: Vec<u64> = Vec::new();
        std::mem::swap(&mut limbs, &mut self.limbs);
        let ghost start = limbs@;
        let mut rest: u64 = 0;
        let mut i: usize = limbs.len();
        assert(0 * divisor as nat == 0) by (nonlinear_arith);
        while i > 0
            invariant
                i <= limbs.len(),
                limbs@.len() == start.len(),
                limbs@.take(i as int) == start.take(i as int),
                number(start.skip(i as int)) == number(limbs@.skip(i as int)) * divisor as nat
                    + rest as nat,
                rest < divisor,
            decreases i,
        {
            i = i - 1;
            let ghost before = limbs@;
            let ghost q = number(before.skip(i + 1));
            let part: u128 = rest as u128 * LIMB_BASE + limbs[i] as u128;
            let ghost old_rest = rest;
            proof {
                lemma_fundamental_div_mod(part as int, divisor as int);
                assert(part < divisor as u128 * LIMB_BASE);
                assert(part / (divisor as u128) < LIMB_BASE) by (nonlinear_arith)
                    requires
                        part < divisor as u128 * LIMB_BASE,
                        divisor > 0,
                ;
                assert(start[i as int] == before[i as int]) by {
                    assert(start.take(i + 1)[i as int] == before.take(i + 1)[i as int]);
                }
            }
            let digit: u64 = (part / divisor as u128) as u64;
            rest = (part % divisor as u128) as u64;
            limbs.set(i, digit);
            proof {
                assert(start.skip(i as int).drop_first() =~= start.skip(i + 1));
                assert(limbs@.skip(i as int).drop_first() =~= before.skip(i + 1));
                assert(limbs@.take(i as int) =~= start.take(i as int)) by {
                    assert forall|j: int| 0 <= j < i implies limbs@[j] == start[j] by {
                        assert(start.take(i + 1)[j] == before.take(i + 1)[j]);
                    }
                }
                let b = LIMB_BASE as int;
                let d = divisor as int;
                assert(b * (q * d + old_rest) + start[i as int] == (digit + b * q) * d + rest)
                    by (nonlinear_arith)
                    requires
                        old_rest * b + start[i as int] == d * digit + rest,
                ;
            }
        }
        proof {
            assert(start.skip(0) =~= start);
            assert(limbs@.skip(0) =~= limbs@);
            let q = number(limbs@) as int;
            assert(q * divisor as int == divisor as int * q) by (nonlinear_arith);
            lemma_fundamental_div_mod_converse(
                number(start) as int,
                divisor as int,
                q,
                rest as int,
            );
        }
        trim(&mut limbs);
        self.limbs = limbs;
        rest
    }

    /// Multiplies the message's number by `factor` and adds `addend`.
    pub fn multiply(&mut self, factor: u64, addend: u64)
        ensures
            final(self)@ == old(self)@ * factor as nat + addend as nat,
            trimmed(final(self).digits()),
    {
        proof {
            use_type_invariant(&*self);
        }
        let mut limbs: Vec<u64> = Vec::new();
        std::mem::swap(&mut limbs, &mut self.limbs);
        let ghost start = limbs@;
        let mut carry: u64 = addend;
        let mut i: usize = 0;
        proof {
            assert(start.skip(0) =~= start);
        }
        while i < limbs.len()
            invariant
                i <= limbs.len(),
                limbs@.len() == start.len(),
                limbs@.skip(i as int) == start.skip(i as int),
                with_top(
                    limbs@.take(i as int),
                    number(start.skip(i as int)) * factor as nat + carry as nat,
                ) == number(start) * factor as nat + addend as nat,
            decreases limbs.len() - i,
        {
            let ghost before = limbs@;
            let ghost old_carry = carry;
            proof {
                assert(start[i as int] == before[i as int]) by {
                    assert(start.skip(i as int)[0] == before.skip(i as int)[0]);
                }
                let x = before[i as int] as int;
                let f = factor as int;
                assert(x * f <= 0xFFFF_FFFF_FFFF_FFFF * 0xFFFF_FFFF_FFFF_FFFF) by (nonlinear_arith)
                    requires
                        0 <= x <= 0xFFFF_FFFF_FFFF_FFFF,
                        0 <= f <= 0xFFFF_FFFF_FFFF_FFFF,
                ;
            }
            let part: u128 = limbs[i] as u128 * factor as u128 + carry as u128;
            let digit: u64 = (part % LIMB_BASE) as u64;
            carry = (part / LIMB_BASE) as u64;
            limbs.set(i, digit);
            proof {
                let n = number(start.skip(i + 1)) as int;
                let x = before[i as int] as int;
                let f = factor as int;
                let b = LIMB_BASE as int;
                assert(start.skip(i as int).drop_first() =~= start.skip(i + 1));
                assert((x + b * n) * f + old_carry == digit + b * (n * f + carry))
                    by (nonlinear_arith)
                    requires
                        x * f + old_carry == digit + b * carry,
                ;
                lemma_with_top_push(
                    before.take(i as int),
                    digit,
                    (n * f + carry) as nat,
                );
                assert(limbs@.take(i + 1) =~= before.take(i as int).push(digit));
                assert(limbs@.skip(i + 1) =~= start.skip(i + 1)) by {
                    assert forall|j: int| i < j < start.len() implies before[j] == start[j] by {
                        assert(start.skip(i as int)[j - i] == before.skip(i as int)[j - i]);
                    }
                }
            }
            i = i + 1;
        }
        let ghost low = limbs@;
        limbs.push(carry);
        proof {
            assert(low.take(i as int) =~= low);
            assert(number(start.skip(i as int)) == 0);
            assert(0 * factor as nat == 0) by (nonlinear_arith);
            lemma_with_top_push(low, carry, 0);
        }
        trim(&mut limbs);
        self.limbs = limbs;
    }
}

proof fn lemma_with_top_sum(limbs: Seq<u64>, top: nat)
    ensures
        with_top(limbs, top) == number(limbs) + top * pow(
            0x1_0000_0000_0000_0000,
            limbs.len(),
        ),
    decreases limbs.len(),
{
    let b = 0x1_0000_0000_0000_0000int;
    if limbs.len() == 0 {
        lemma_pow0(b);
    } else {
        let rest = limbs.drop_first();
        lemma_with_top_sum(rest, top);
        let p = pow(b, rest.len());
        assert(pow(b, limbs.len()) == b * p) by {
            lemma_pow_adds(b, 1, rest.len());
            lemma_pow1(b);
            assert(1 + rest.len() == limbs.len());
        }
        let n = number(rest) as int;
        assert(b * (n + top * p) == b * n + top * (b * p)) by (nonlinear_arith);
    }
}

/// The limb at place `i` counts that power of the base: no limbs make zero, and one more limb at the
/// top adds its multiple of the power.
pub proof fn number_is_positional(limbs: Seq<u64>, x: u64)
    ensures
        number(Seq::empty()) == 0,
        number(limbs.push(x)) == number(limbs) + x * pow(0x1_0000_0000_0000_0000, limbs.len()),
{
    lemma_with_top_push(limbs, x, 0);
    lemma_with_top_sum(limbs, x as nat);
}

/// Limbs are the shortest for their number if the topmost is not zero.
pub proof fn shortest_limbs(limbs: Seq<u64>)
    ensures
        trimmed(limbs) <==> limbs.len() == 0 || limbs[limbs.len() - 1] != 0,
{
}

/// Messages are equal if and only if their numbers are.
pub proof fn equal_messages(a: Message, b: Message)
    ensures
        vstd::std_specs::cmp::PartialEqSpec::eq_spec(&a, &b) <==> a@ == b@,
{
}

} // verus!
