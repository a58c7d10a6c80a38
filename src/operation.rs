use rand_chacha::ChaCha8Rng;
use vstd::prelude::*;

use crate::rng::{choose_between, coin_flip};
use crate::values::{NumberType, Value};

verus! {

/// The four arithmetic operations an equation node may carry.
#[derive(Debug, Clone, Copy, PartialEq, Eq, Structural, Hash)]
pub enum OperationType {
    Add,
    Subtract,
    Multiply,
    Divide,
}

impl OperationType {
    /// The glyph this operation is displayed with.
    pub open spec fn glyph(self) -> Seq<char> {
        match self {
            OperationType::Add => seq!['+'],
            OperationType::Subtract => seq!['-'],
            OperationType::Multiply => seq!['\u{d7}'],
            OperationType::Divide => seq!['\u{f7}'],
        }
    }

    /// Whether `left <op> right` comes out at exactly `answer`; a division
    /// only counts when it leaves no remainder.
    pub open spec fn holds(self, left: int, right: int, answer: int) -> bool {
        match self {
            OperationType::Add => left + right == answer,
            OperationType::Subtract => left - right == answer,
            OperationType::Multiply => left * right == answer,
            OperationType::Divide => right != 0 && left == answer * right,
        }
    }

    /// The weight this operation gives to the difficulty of its operands.
    pub open spec fn weight(self) -> nat {
        match self {
            OperationType::Add => 1,
            OperationType::Subtract => 2,
            OperationType::Multiply => 4,
            OperationType::Divide => 4,
        }
    }

    pub fn to_string(&self) -> (r: String)
        ensures
            r@ == self.glyph(),
    {
        let mut s = String::new();
        match self {
            OperationType::Add => s.append("+"),
            OperationType::Subtract => s.append("-"),
            OperationType::Multiply => s.append("\u{d7}"),
            OperationType::Divide => s.append("\u{f7}"),
        }
        proof {
            reveal_strlit("+");
            reveal_strlit("-");
            reveal_strlit("\u{d7}");
            reveal_strlit("\u{f7}");
        }
        s
    }
}

/// The constraints that govern generation: the range of answers, the range of
/// operand values, and which numeric kinds and operations may be used.
pub struct OperationConfig {
    pub answer_min: i16,
    pub answer_max: i16,
    pub value_min: i16,
    pub value_max: i16,
    pub allowed_numerics: Vec<NumberType>,
    pub allowed_operations: Vec<OperationType>,
}

pub open spec fn max_int(a: int, b: int) -> int {
    if a >= b { a } else { b }
}

pub open spec fn min_int(a: int, b: int) -> int {
    if a <= b { a } else { b }
}

impl OperationConfig {
    /// Both ranges are non-empty, and each allowed kind is listed once.
    pub open spec fn wf(self) -> bool {
        &&& self.answer_min <= self.answer_max
        &&& self.value_min <= self.value_max
        &&& self.allowed_numerics@.no_duplicates()
        &&& self.allowed_operations@.no_duplicates()
    }

    pub open spec fn allows_negative(self) -> bool {
        self.allowed_numerics@.contains(NumberType::Negative)
    }

    /// Whether `v` lies within the operand range.
    pub open spec fn in_value_range(self, v: int) -> bool {
        self.value_min <= v <= self.value_max
    }

    /// The non-negative sampling range is `[positive_lo, positive_hi]`.
    pub open spec fn positive_lo(self) -> int {
        max_int(0, self.value_min as int)
    }

    pub open spec fn positive_hi(self) -> int {
        max_int(0, self.value_max as int)
    }

    /// The negative-leaning sampling range is `[negative_lo, positive_hi]`.
    pub open spec fn negative_lo(self) -> int {
        min_int(self.value_min as int, 0)
    }

    /// What a draw on the non-negative path may give: a member of its range,
    /// or 1 when that range is empty.
    pub open spec fn positive_outcome(self, v: int) -> bool {
        if self.positive_lo() <= self.positive_hi() {
            self.positive_lo() <= v <= self.positive_hi()
        } else {
            v == 1
        }
    }

    /// What a draw on the negative-leaning path may give.
    pub open spec fn negative_outcome(self, v: int) -> bool {
        if self.negative_lo() <= self.positive_hi() {
            self.negative_lo() <= v <= self.positive_hi()
        } else {
            v == -1
        }
    }

    /// What a sampled operand may be: the negative-leaning path is open only
    /// when negatives are allowed.
    pub open spec fn sample_outcome(self, v: int) -> bool {
        ||| self.positive_outcome(v)
        ||| (self.allows_negative() && self.negative_outcome(v))
    }

    pub fn rnd_value(&self, rng: &mut ChaCha8Rng) -> (r: Value)
        ensures
            r is Number,
            self.sample_outcome(r.value()),
    {
        Value::Number(self.rnd_number(rng))
    }

    pub fn rnd_number(&self, rng: &mut ChaCha8Rng) -> (r: i16)
        ensures
            self.sample_outcome(r as int),
    {
        if self.allows_negative_exec() && coin_flip(rng) {
            self.rnd_negative(rng)
        } else {
            self.rnd_positive(rng)
        }
    }

    pub fn rnd_positive(&self, rng: &mut ChaCha8Rng) -> (r: i16)
        ensures
            self.positive_outcome(r as int),
    {
        let min: i16 = if self.value_min > 0 { self.value_min } else { 0 };
        let max: i16 = if self.value_max > 0 { self.value_max } else { 0 };
        match choose_between(rng, min, max) {
            Some(v) => v,
            None => 1,
        }
    }

    pub fn rnd_negative(&self, rng: &mut ChaCha8Rng) -> (r: i16)
        ensures
            self.negative_outcome(r as int),
    {
        let min: i16 = if self.value_min < 0 { self.value_min } else { 0 };
        let max: i16 = if self.value_max > 0 { self.value_max } else { 0 };
        match choose_between(rng, min, max) {
            Some(v) => v,
            None => -1,
        }
    }

    fn allows_negative_exec(&self) -> (r: bool)
        ensures
            r == self.allows_negative(),
    {
        let mut i: usize = 0;
        while i < self.allowed_numerics.len()
            invariant
                i <= self.allowed_numerics@.len(),
                forall|j: int| 0 <= j < i ==> self.allowed_numerics@[j] != NumberType::Negative,
            decreases self.allowed_numerics@.len() - i,
        {
            if let NumberType::Negative = self.allowed_numerics[i] {
                return true;
            }
            i = i + 1;
        }
        false
    }
}

} // verus!
