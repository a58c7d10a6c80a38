use vstd::prelude::*;

use crate::equation::Equation;

verus! {

/// The numeric categories that operands may be drawn from.
#[derive(Debug, Clone, Copy, PartialEq, Eq, Structural, Hash)]
pub enum NumberType {
    Whole,
    Negative,
}

/// One operand of an equation: a literal, or a nested equation that stands for
/// its answer.
#[derive(Debug, PartialEq, Eq)]
pub enum Value {
    Number(i16),
    Equation(Equation),
}

/// How many decimal digits a natural number has (zero has one).
pub open spec fn digit_count(n: nat) -> nat
    decreases n,
{
    if n < 10 {
        1
    } else {
        1 + digit_count(n / 10)
    }
}

/// The difficulty of a literal: its digit count, ten times over when negative.
pub open spec fn literal_difficulty(n: int) -> nat {
    if n < 0 {
        digit_count((-n) as nat) * 10
    } else {
        digit_count(n as nat)
    }
}

impl Value {
    /// The number this operand resolves to.
    pub open spec fn value(self) -> int {
        match self {
            Value::Number(n) => n as int,
            Value::Equation(e) => e.answer as int,
        }
    }

    /// The difficulty score of this operand.
    pub open spec fn difficulty_spec(self) -> nat {
        match self {
            Value::Number(n) => literal_difficulty(n as int),
            Value::Equation(e) => e.difficulty_spec(),
        }
    }

    pub fn to_i16(&self) -> (r: i16)
        ensures
            r as int == self.value(),
    {
        match self {
            Value::Number(v) => *v,
            Value::Equation(e) => e.answer,
        }
    }

    pub fn difficulty(&self) -> (r: u16)
        requires
            self.difficulty_spec() <= u16::MAX,
        ensures
            r as nat == self.difficulty_spec(),
    {
        match self {
            Value::Number(n) => number_difficulty(*n),
            Value::Equation(e) => e.difficulty(),
        }
    }
}

proof fn lemma_digit_count_bound(n: nat)
    requires
        n <= 32768,
    ensures
        1 <= digit_count(n) <= 5,
{
    reveal_with_fuel(digit_count, 6);
}

/// A literal of `i16` scores between 1 and 50.
pub(crate) proof fn lemma_literal_difficulty_bound(n: int)
    requires
        -32768 <= n <= 32767,
    ensures
        1 <= literal_difficulty(n) <= 50,
{
    if n < 0 {
        lemma_digit_count_bound((-n) as nat);
    } else {
        lemma_digit_count_bound(n as nat);
    }
}

/// The difficulty of a literal operand.
pub(crate) fn number_difficulty(n: i16) -> (r: u16)
    ensures
        r as nat == literal_difficulty(n as int),
{
    let magnitude: u32 = if n < 0 { (-(n as i32)) as u32 } else { n as u32 };
    let mut rest: u32 = magnitude;
    let mut digits: u16 = 1;
    proof {
        lemma_digit_count_bound(magnitude as nat);
    }
    while rest >= 10
        invariant
            rest <= magnitude,
            magnitude <= 32768,
            1 <= digits,
            digits + digit_count(rest as nat) == 1 + digit_count(magnitude as nat),
            digit_count(magnitude as nat) <= 5,
        decreases rest,
    {
        rest = rest / 10;
        digits = digits + 1;
    }
    if n < 0 {
        digits * 10
    } else {
        digits
    }
}

} // verus!
