//! The Halton sequence: a low-discrepancy sampler.
//!
//! The radical inverse of a counter in a base mirrors the counter's digits at
//! the point: the counter `d0 + d1 * b + d2 * b^2 ..` gives
//! `d0 / b + d1 / b^2 + d2 / b^3 ..`. It is returned exactly, as a fraction
//! whose denominator is the power of the base with as many factors as the
//! counter has digits.

use vstd::arithmetic::div_mod::{lemma_div_decreases, lemma_fundamental_div_mod};
use vstd::prelude::*;

verus! {

/// A fraction of two whole numbers.
#[derive(Clone, Copy, Debug, PartialEq, Eq, Structural)]
pub struct Fraction {
    pub numerator: u64,
    pub denominator: u64,
}

/// The denominator of the radical inverse: `base` to the number of digits of
/// `index`.
pub open spec fn radical_denominator(index: nat, base: nat) -> nat
    decreases index,
{
    if index == 0 || base < 2 {
        1
    } else {
        proof {
            lemma_div_decreases(index as int, base as int);
        }
        base * radical_denominator(index / base, base)
    }
}

/// The numerator of the radical inverse: the digits of `index` in reverse
/// order, read as a number.
pub open spec fn radical_numerator(index: nat, base: nat) -> nat
    decreases index,
{
    if index == 0 || base < 2 {
        0
    } else {
        proof {
            lemma_div_decreases(index as int, base as int);
        }
        (index % base) * radical_denominator(index / base, base) + radical_numerator(
            index / base,
            base,
        )
    }
}

/// The radical inverse of `index` in `base`.
pub open spec fn radical_inverse(index: nat, base: nat) -> Fraction {
    Fraction {
        numerator: radical_numerator(index, base) as u64,
        denominator: radical_denominator(index, base) as u64,
    }
}

/// The denominator of the radical inverse of a counter is at most the counter
/// times the base.
pub proof fn lemma_denominator_bound(index: nat, base: nat)
    requires
        base >= 2,
        index >= 1,
    ensures
        base <= radical_denominator(index, base) <= index * base,
    decreases index,
{
    let rest = index / base;
    lemma_fundamental_div_mod(index as int, base as int);
    lemma_div_decreases(index as int, base as int);
    let inner = radical_denominator(rest, base);
    assert(radical_denominator(index, base) == base * inner);
    if rest == 0 {
        assert(base * inner == base && base <= index * base) by (nonlinear_arith)
            requires
                inner == 1,
                index >= 1,
                base >= 0,
        ;
    } else {
        lemma_denominator_bound(rest, base);
        assert(rest * base <= index) by (nonlinear_arith)
            requires
                index == base * rest + (index % base),
                0 <= index % base,
        ;
        assert(base <= base * inner <= index * base) by (nonlinear_arith)
            requires
                1 <= base <= inner <= rest * base,
                rest * base <= index,
        ;
    }
}

/// The radical inverse lies in the unit interval: it is at least zero and
/// less than one.
pub proof fn lemma_radical_inverse_in_unit_interval(index: nat, base: nat)
    requires
        base >= 2,
    ensures
        radical_numerator(index, base) < radical_denominator(index, base),
    decreases index,
{
    if index > 0 {
        let rest = index / base;
        lemma_div_decreases(index as int, base as int);
        lemma_radical_inverse_in_unit_interval(rest, base);
        let digit = index % base;
        let inner = radical_denominator(rest, base);
        assert(digit * inner + radical_numerator(rest, base) < base * inner) by (nonlinear_arith)
            requires
                0 <= digit < base,
                radical_numerator(rest, base) < inner,
        ;
    }
}

/// The radical inverse sequence of one base.
#[derive(Clone, Copy, Debug)]
pub struct Halton {
    base: u32,
    index: u32,
}

impl Halton {
    #[verifier::type_invariant]
    spec fn well_formed(self) -> bool {
        self.base >= 2
    }

    /// The base of the sequence.
    pub closed spec fn base(self) -> nat {
        self.base as nat
    }

    /// The counter whose radical inverse comes next.
    pub closed spec fn counter(self) -> nat {
        self.index as nat
    }

    /// The sequence of `base`, at its start: the counter is one.
    pub fn new(base: u32) -> (r: Self)
        requires
            base >= 2,
        ensures
            r.base() == base,
            r.counter() == 1,
    {
        Self { base, index: 1 }
    }

    /// The sequence of `base` after its first `base` terms.
    #[allow(dead_code)]
    pub fn one_d(base: u32) -> (r: Halton)
        requires
            2 <= base < u32::MAX,
        ensures
            r.base() == base,
            r.counter() == 1 + base,
    {
        let mut iter = Self::new(base);
        let mut burnt: u32 = 0;
        while burnt < base
            invariant
                burnt <= base < u32::MAX,
                iter.base() == base,
                iter.counter() == 1 + burnt,
            decreases base - burnt,
        {
            let _ = iter.next();
            burnt += 1;
        }
        iter
    }

    /// The pair of the sequences of two bases, each after its first
    /// `base1 * base2` terms.
    pub fn two_d(bases: (u32, u32)) -> (r: Halton2)
        requires
            bases.0 >= 2,
            bases.1 >= 2,
            bases.0 * bases.1 < u32::MAX,
        ensures
            r.first().base() == bases.0,
            r.second().base() == bases.1,
            r.first().counter() == 1 + bases.0 * bases.1,
            r.second().counter() == 1 + bases.0 * bases.1,
    {
        let (base1, base2) = bases;
        let mut iter = Halton2(Self::new(base1), Self::new(base2));
        let count: u32 = base1 * base2;
        let mut burnt: u32 = 0;
        while burnt < count
            invariant
                burnt <= count < u32::MAX,
                iter.first().base() == base1,
                iter.second().base() == base2,
                iter.first().counter() == 1 + burnt,
                iter.second().counter() == 1 + burnt,
            decreases count - burnt,
        {
            let _ = iter.next();
            burnt += 1;
        }
        iter
    }

    /// The next term: the radical inverse of the counter, which then goes up
    /// by one. A sequence whose counter has reached the last number it can
    /// hold is at its end and stays there.
    pub fn next(&mut self) -> (r: Option<Fraction>)
        ensures
            final(self).base() == old(self).base(),
            old(self).counter() < u32::MAX ==> r == Some(
                radical_inverse(old(self).counter(), old(self).base()),
            ) && final(self).counter() == old(self).counter() + 1,
            old(self).counter() >= u32::MAX ==> r is None && final(self).counter()
                == old(self).counter(),
            r matches Some(term) ==> term.numerator < term.denominator,
    {
        proof {
            use_type_invariant(&*self);
        }
        if self.index == u32::MAX {
            return None;
        }
        let b: u32 = self.base;
        let ghost index = self.index as nat;
        let ghost base = b as nat;
        let mut numerator: u64 = 0;
        let mut denominator: u64 = 1;
        let mut i: u32 = self.index;
        proof {
            if index >= 1 {
                lemma_denominator_bound(index, base);
                assert(index * base <= 0xffff_ffff * 0xffff_ffff) by (nonlinear_arith)
                    requires
                        index <= 0xffff_ffff,
                        base <= 0xffff_ffff,
                ;
            }
        }
        while i > 0
            invariant
                b >= 2,
                base == b,
                numerator * radical_denominator(i as nat, base) + radical_numerator(i as nat, base)
                    == radical_numerator(index, base),
                denominator * radical_denominator(i as nat, base) == radical_denominator(
                    index,
                    base,
                ),
                numerator < denominator,
                radical_denominator(index, base) <= 0xffff_ffff * 0xffff_ffff,
            decreases i,
        {
            let digit: u32 = i % b;
            proof {
                lemma_div_decreases(i as int, b as int);
                let rest = (i / b) as nat;
                let inner = radical_denominator(rest, base);
                let outer = radical_denominator(i as nat, base);
                assert(outer == base * inner);
                assert(inner >= 1) by {
                    if rest >= 1 {
                        lemma_denominator_bound(rest, base);
                    }
                }
                assert(denominator * base <= denominator * outer) by (nonlinear_arith)
                    requires
                        outer == base * inner,
                        inner >= 1,
                        denominator >= 0,
                        base >= 0,
                ;
                assert(numerator * base + digit < denominator * base) by (nonlinear_arith)
                    requires
                        numerator < denominator,
                        0 <= digit < base,
                ;
                assert((numerator * base + digit) * inner + radical_numerator(rest, base)
                    == numerator * outer + (digit * inner + radical_numerator(rest, base)))
                    by (nonlinear_arith)
                    requires
                        outer == base * inner,
                ;
                assert((denominator * base) * inner == denominator * outer) by (nonlinear_arith)
                    requires
                        outer == base * inner,
                ;
            }
            numerator = numerator * (b as u64) + digit as u64;
            denominator = denominator * (b as u64);
            i = i / b;
        }
        proof {
            assert(radical_denominator(0, base) == 1);
            assert(radical_numerator(0, base) == 0);
            assert(numerator * 1 == numerator && denominator * 1 == denominator);
        }
        self.index += 1;
        Some(Fraction { numerator, denominator })
    }
}

/// A pair of radical inverse sequences, for points in the plane.
#[derive(Clone, Copy, Debug)]
pub struct Halton2(Halton, Halton);

impl Halton2 {
    /// The sequence of the first coordinate.
    pub closed spec fn first(self) -> Halton {
        self.0
    }

    /// The sequence of the second coordinate.
    pub closed spec fn second(self) -> Halton {
        self.1
    }

    /// The next point: the next term of either sequence. Where one of them is
    /// at its end there is no point, though the other may have moved on.
    pub fn next(&mut self) -> (r: Option<(Fraction, Fraction)>)
        ensures
            final(self).first().base() == old(self).first().base(),
            final(self).second().base() == old(self).second().base(),
            old(self).first().counter() < u32::MAX && old(self).second().counter() < u32::MAX
                ==> r == Some(
                (
                    radical_inverse(old(self).first().counter(), old(self).first().base()),
                    radical_inverse(old(self).second().counter(), old(self).second().base()),
                ),
            ),
            old(self).first().counter() >= u32::MAX || old(self).second().counter() >= u32::MAX
                ==> r is None,
            final(self).first().counter() == if old(self).first().counter() < u32::MAX {
                old(self).first().counter() + 1
            } else {
                old(self).first().counter()
            },
            final(self).second().counter() == if old(self).second().counter() < u32::MAX {
                old(self).second().counter() + 1
            } else {
                old(self).second().counter()
            },
            r matches Some(point) ==> point.0.numerator < point.0.denominator && point.1.numerator
                < point.1.denominator,
    {
        match (self.0.next(), self.1.next()) {
            (Some(h1), Some(h2)) => Some((h1, h2)),
            _ => None,
        }
    }
}

} // verus!
