use rand_chacha::ChaCha8Rng;
use vstd::prelude::*;

use crate::operation::{OperationConfig, OperationType};
use crate::rng::{choose_between, choose_operation, coin_flip};
use crate::text::{decimal, int_text};
use crate::values::{lemma_literal_difficulty_bound, literal_difficulty, number_difficulty, Value};

verus! {

/// A binary operation node: `left <op> right`, which comes to `answer`.
#[derive(Debug, PartialEq, Eq)]
pub struct Equation {
    pub left: Box<Value>,
    pub right: Box<Value>,
    pub op: OperationType,
    pub answer: i16,
}

/// Whether `n` is a prime number.
pub open spec fn is_prime_number(n: int) -> bool {
    n > 1 && forall|d: int| 2 <= d < n ==> #[trigger] (n % d) != 0
}

/// Relies on `primes::is_prime`: it reports whether `n` is prime. Its trial
/// division squares candidates in `u64`, so inputs stay within `i16`'s range.
#[verifier::external_body]
fn prime_check(n: u64) -> (r: bool)
    requires
        n <= 32767,
    ensures
        r == is_prime_number(n as int),
{
    primes::is_prime(n)
}

/// Whether `op` may be chosen for a node whose answer is `answer`: it must be
/// allowed, never a product or quotient for zero, never a product for a prime.
pub open spec fn eligible(cfg: OperationConfig, answer: int, op: OperationType) -> bool {
    &&& cfg.allowed_operations@.contains(op)
    &&& answer == 0 ==> (op == OperationType::Add || op == OperationType::Subtract)
    &&& (answer > 0 && is_prime_number(answer)) ==> op != OperationType::Multiply
}

/// Whether some allowed operation is eligible for `answer`.
pub open spec fn has_eligible(cfg: OperationConfig, answer: int) -> bool {
    exists|op: OperationType| eligible(cfg, answer, op)
}

/// A run of `n` copies of one character.
pub open spec fn repeat_char(c: char, n: nat) -> Seq<char> {
    Seq::new(n, |i: int| c)
}

/// How `v` is written inside an expression at nesting depth `d`: a literal in
/// decimal, a sub-equation wrapped in `d + 1` pairs of parentheses.
pub open spec fn value_text(v: Value, d: nat) -> Seq<char>
    decreases v, 1nat,
{
    match v {
        Value::Number(n) => decimal(n as int),
        Value::Equation(e) => repeat_char('(', d + 1) + e.expr_text(d + 1) + repeat_char(
            ')',
            d + 1,
        ),
    }
}

/// The absolute value of `n`.
pub open spec fn abs_int(n: int) -> int {
    if n < 0 { -n } else { n }
}

/// Whether `d` is a non-zero divisor of `n`, leaving no remainder.
pub open spec fn divides(d: int, n: int) -> bool {
    d != 0 && abs_int(n) % abs_int(d) == 0
}

/// `a / b` rounded towards zero.
pub open spec fn trunc_div(a: int, b: int) -> int {
    if (a < 0) != (b < 0) {
        -(abs_int(a) / abs_int(b))
    } else {
        abs_int(a) / abs_int(b)
    }
}

/// The operands `(left, right)` that a drawn number gives for `op`: it is the
/// left operand of a sum, a difference or a product, and the divisor of a
/// quotient. A product's right operand is `draw / answer`, rounded towards zero.
pub open spec fn operands_for(op: OperationType, answer: int, draw: int) -> (int, int) {
    match op {
        OperationType::Add => (draw, answer - draw),
        OperationType::Subtract => (draw, draw - answer),
        OperationType::Multiply => (draw, trunc_div(draw, answer)),
        OperationType::Divide => (answer * draw, draw),
    }
}

/// Whether the operands that `draw` gives are kept: both lie in the value
/// range, and a product or quotient has no zero operand.
pub open spec fn operands_accepted(
    cfg: OperationConfig,
    op: OperationType,
    answer: int,
    draw: int,
) -> bool {
    let (l, r) = operands_for(op, answer, draw);
    &&& cfg.in_value_range(l)
    &&& cfg.in_value_range(r)
    &&& (op == OperationType::Multiply ==> r != 0)
    &&& (op == OperationType::Divide ==> l != 0 && r != 0)
}

/// Whether `e` is a single operation on two in-range literals that comes to
/// `answer`, as the leaf builder hands out.
pub open spec fn single_for(e: Equation, cfg: OperationConfig, answer: int) -> bool {
    &&& e.answer == answer
    &&& e.is_single()
    &&& e.generated_under(cfg)
    &&& exists|d: int| operands_for(e.op, answer, d) == (e.left.value(), e.right.value())
}

/// A root slot after expansion: a literal, or a single operation on two
/// literals.
pub open spec fn slot_shallow(v: Value) -> bool {
    match v {
        Value::Number(_) => true,
        Value::Equation(e) => e.is_single(),
    }
}

impl Equation {
    /// Each slot of this node is a literal or a single operation.
    pub open spec fn is_shallow(self) -> bool {
        slot_shallow(*self.left) && slot_shallow(*self.right)
    }

    /// The number of operation nodes in the tree.
    pub open spec fn node_count(self) -> nat
        decreases self,
    {
        let l = match *self.left {
            Value::Number(_) => 0,
            Value::Equation(e) => e.node_count(),
        };
        let r = match *self.right {
            Value::Number(_) => 0,
            Value::Equation(e) => e.node_count(),
        };
        1 + l + r
    }

    /// This node with each slot replaced by the literal it resolves to.
    pub open spec fn root_operands(self) -> Equation {
        Equation {
            left: Box::new(Value::Number(self.left.value() as i16)),
            right: Box::new(Value::Number(self.right.value() as i16)),
            ..self
        }
    }

    /// The node's own relation holds between its operands and its answer.
    pub open spec fn node_holds(self) -> bool {
        self.op.holds(self.left.value(), self.right.value(), self.answer as int)
    }

    /// Every node of the tree comes out at its answer.
    pub open spec fn is_correct(self) -> bool
        decreases self,
    {
        &&& self.node_holds()
        &&& match *self.left {
            Value::Number(_) => true,
            Value::Equation(e) => e.is_correct(),
        }
        &&& match *self.right {
            Value::Number(_) => true,
            Value::Equation(e) => e.is_correct(),
        }
    }

    /// Every literal of the tree lies in `[lo, hi]`.
    pub open spec fn literals_within(self, lo: int, hi: int) -> bool
        decreases self,
    {
        &&& match *self.left {
            Value::Number(n) => lo <= n <= hi,
            Value::Equation(e) => e.literals_within(lo, hi),
        }
        &&& match *self.right {
            Value::Number(n) => lo <= n <= hi,
            Value::Equation(e) => e.literals_within(lo, hi),
        }
    }

    /// No product or quotient in the tree has a zero operand.
    pub open spec fn non_degenerate(self) -> bool
        decreases self,
    {
        &&& (self.op == OperationType::Multiply || self.op == OperationType::Divide) ==> (
        self.left.value() != 0 && self.right.value() != 0)
        &&& match *self.left {
            Value::Number(_) => true,
            Value::Equation(e) => e.non_degenerate(),
        }
        &&& match *self.right {
            Value::Number(_) => true,
            Value::Equation(e) => e.non_degenerate(),
        }
    }

    /// Every node's operation was eligible for that node's answer under `cfg`.
    pub open spec fn ops_eligible(self, cfg: OperationConfig) -> bool
        decreases self,
    {
        &&& eligible(cfg, self.answer as int, self.op)
        &&& match *self.left {
            Value::Number(_) => true,
            Value::Equation(e) => e.ops_eligible(cfg),
        }
        &&& match *self.right {
            Value::Number(_) => true,
            Value::Equation(e) => e.ops_eligible(cfg),
        }
    }

    /// What every equation that the generator hands out satisfies.
    pub open spec fn generated_under(self, cfg: OperationConfig) -> bool {
        &&& self.is_correct()
        &&& self.literals_within(cfg.value_min as int, cfg.value_max as int)
        &&& self.non_degenerate()
        &&& self.ops_eligible(cfg)
    }

    /// A single operation between two literals.
    pub open spec fn is_single(self) -> bool {
        *self.left is Number && *self.right is Number
    }

    /// The difficulty score: the operands' scores summed, times the
    /// operation's weight.
    pub open spec fn difficulty_spec(self) -> nat
        decreases self,
    {
        let l = match *self.left {
            Value::Number(n) => literal_difficulty(n as int),
            Value::Equation(e) => e.difficulty_spec(),
        };
        let r = match *self.right {
            Value::Number(n) => literal_difficulty(n as int),
            Value::Equation(e) => e.difficulty_spec(),
        };
        (l + r) * self.op.weight()
    }

    /// The number of operation levels from this node down to its deepest leaf.
    pub open spec fn height(self) -> nat
        decreases self,
    {
        let l = match *self.left {
            Value::Number(_) => 0,
            Value::Equation(e) => e.height(),
        };
        let r = match *self.right {
            Value::Number(_) => 0,
            Value::Equation(e) => e.height(),
        };
        1 + if l >= r { l } else { r }
    }

    /// The expression text of this node at nesting depth `d`.
    pub open spec fn expr_text(self, d: nat) -> Seq<char>
        decreases self, 0nat,
    {
        value_text(*self.left, d) + seq![' '] + self.op.glyph() + seq![' '] + value_text(
            *self.right,
            d,
        )
    }

    /// The full rendering: `<expression> = <answer>`.
    pub open spec fn text(self) -> Seq<char> {
        self.expr_text(0) + seq![' ', '=', ' '] + decimal(self.answer as int)
    }

    pub fn new(left: Value, op: OperationType, right: Value, answer: i16) -> (r: Self)
        ensures
            *r.left == left,
            *r.right == right,
            r.op == op,
            r.answer == answer,
    {
        Self { left: Box::new(left), right: Box::new(right), op, answer }
    }

    pub fn difficulty(&self) -> (r: u16)
        requires
            self.difficulty_spec() <= u16::MAX,
        ensures
            r as nat == self.difficulty_spec(),
        decreases self,
    {
        let ghost l = self.left.difficulty_spec();
        let ghost rt = self.right.difficulty_spec();
        let ghost w = self.op.weight();
        proof {
            assert((l + rt) * w >= l + rt) by (nonlinear_arith)
                requires
                    w >= 1,
            ;
        }
        let left: u16 = match &*self.left {
            Value::Number(n) => number_difficulty(*n),
            Value::Equation(e) => e.difficulty(),
        };
        let right: u16 = match &*self.right {
            Value::Number(n) => number_difficulty(*n),
            Value::Equation(e) => e.difficulty(),
        };
        let op: u16 = match self.op {
            OperationType::Add => 1,
            OperationType::Subtract => 2,
            OperationType::Multiply => 4,
            OperationType::Divide => 4,
        };
        (left + right) * op
    }

    pub fn to_string(&self) -> (r: String)
        requires
            self.height() <= 256,
        ensures
            r@ == self.text(),
    {
        let mut s = fmt_rec(self, 0);
        s.append(" = ");
        let answer = int_text(self.answer);
        s.append(answer.as_str());
        proof {
            reveal_strlit(" = ");
            assert(s@ =~= self.text());
        }
        s
    }
}

/// The expression text of `eq` at nesting depth `d`.
fn fmt_rec(eq: &Equation, d: u8) -> (r: String)
    requires
        d + eq.height() <= 256,
    ensures
        r@ == eq.expr_text(d as nat),
    decreases eq,
{
    let mut starting_parens = String::new();
    let mut ending_parens = String::new();
    let mut i: u16 = 0;
    while i <= d as u16
        invariant
            i <= d + 1,
            starting_parens@ == repeat_char('(', i as nat),
            ending_parens@ == repeat_char(')', i as nat),
        decreases d + 1 - i,
    {
        starting_parens.append("(");
        ending_parens.append(")");
        proof {
            reveal_strlit("(");
            reveal_strlit(")");
            assert(starting_parens@ =~= repeat_char('(', (i + 1) as nat));
            assert(ending_parens@ =~= repeat_char(')', (i + 1) as nat));
        }
        i = i + 1;
    }
    let mut s = String::new();
    match &*eq.left {
        Value::Number(n) => {
            let t = int_text(*n);
            s.append(t.as_str());
        },
        Value::Equation(left) => {
            assert(left.height() + 1 <= eq.height());
            let inner = fmt_rec(left, d + 1);
            s.append(starting_parens.as_str());
            s.append(inner.as_str());
            s.append(ending_parens.as_str());
        },
    }
    assert(s@ =~= value_text(*eq.left, d as nat));
    s.append(" ");
    let glyph = eq.op.to_string();
    s.append(glyph.as_str());
    s.append(" ");
    let ghost before_right = s@;
    match &*eq.right {
        Value::Number(n) => {
            let t = int_text(*n);
            s.append(t.as_str());
        },
        Value::Equation(right) => {
            assert(right.height() + 1 <= eq.height());
            let inner = fmt_rec(right, d + 1);
            s.append(starting_parens.as_str());
            s.append(inner.as_str());
            s.append(ending_parens.as_str());
        },
    }
    proof {
        reveal_strlit(" ");
        assert(s@ =~= before_right + value_text(*eq.right, d as nat));
        assert(s@ =~= eq.expr_text(d as nat));
    }
    s
}


/// Whether both operands lie in the configured value range.
fn valid_range(left: i32, right: i32, op_config: &OperationConfig) -> (r: bool)
    ensures
        r == (op_config.in_value_range(left as int) && op_config.in_value_range(right as int)),
{
    left >= op_config.value_min as i32 && left <= op_config.value_max as i32 && right
        >= op_config.value_min as i32 && right <= op_config.value_max as i32
}

fn magnitude(n: i16) -> (r: u32)
    ensures
        r as int == abs_int(n as int),
{
    if n < 0 {
        (-(n as i32)) as u32
    } else {
        n as u32
    }
}

/// Whether `d` divides `n` with no remainder.
fn divides_exec(d: i16, n: i16) -> (r: bool)
    ensures
        r == divides(d as int, n as int),
{
    d != 0 && magnitude(n) % magnitude(d) == 0
}

/// The first of `draws` that divides `n`, or 1 when none does.
pub open spec fn first_dividing(draws: Seq<i16>, n: int) -> i16
    decreases draws.len(),
{
    if draws.len() == 0 {
        1
    } else if divides(draws[0] as int, n) {
        draws[0]
    } else {
        first_dividing(draws.drop_first(), n)
    }
}

proof fn lemma_first_dividing_push(draws: Seq<i16>, c: i16, n: int)
    requires
        forall|k: int| 0 <= k < draws.len() ==> !divides(#[trigger] draws[k] as int, n),
    ensures
        first_dividing(draws.push(c), n) == if divides(c as int, n) { c } else { 1i16 },
    decreases draws.len(),
{
    if draws.len() > 0 {
        assert(!divides(draws[0] as int, n));
        assert(draws.push(c)[0] == draws[0]);
        assert(draws.push(c).drop_first() =~= draws.drop_first().push(c));
        assert forall|k: int| 0 <= k < draws.drop_first().len() implies !divides(
            #[trigger] draws.drop_first()[k] as int,
            n,
        ) by {
            assert(draws.drop_first()[k] == draws[k + 1]);
        }
        lemma_first_dividing_push(draws.drop_first(), c, n);
    } else {
        assert(draws.push(c)[0] == c);
        if !divides(c as int, n) {
            assert(draws.push(c).drop_first().len() == 0);
            assert(first_dividing(draws.push(c).drop_first(), n) == 1);
        }
    }
}

/// One step of the divisor search: a candidate that divides `start` is taken;
/// otherwise, once ten resamples have been spent, the search settles on 1, which
/// divides everything; otherwise it goes on (`None`).
pub fn divisor_step(start: i16, attempts: u8, candidate: i16) -> (r: Option<i16>)
    ensures
        r == if divides(candidate as int, start as int) {
            Some(candidate)
        } else if attempts == 10 {
            Some(1i16)
        } else {
            None::<i16>
        },
{
    if divides_exec(candidate, start) {
        Some(candidate)
    } else if attempts == 10 {
        Some(1)
    } else {
        None
    }
}

/// Samples operands until one divides `start`, resampling at most ten times
/// before settling on 1: the result is the first dividing draw of at most
/// eleven, or 1.
fn find_divisible(start: i16, op_config: &OperationConfig, rng: &mut ChaCha8Rng) -> (r: i16)
    ensures
        divides(r as int, start as int),
        r == 1 || op_config.sample_outcome(r as int),
        exists|draws: Seq<i16>|
            {
                &&& 1 <= draws.len() <= 11
                &&& forall|k: int| 0 <= k < draws.len() ==> op_config.sample_outcome(#[trigger] draws[k] as int)
                &&& r == first_dividing(draws, start as int)
            },
{
    let mut attempts: u8 = 0;
    let mut candidate = op_config.rnd_number(rng);
    let ghost mut failed: Seq<i16> = Seq::empty();
    loop
        invariant
            attempts <= 10,
            failed.len() == attempts,
            op_config.sample_outcome(candidate as int),
            forall|k: int| 0 <= k < failed.len() ==> op_config.sample_outcome(#[trigger] failed[k] as int),
            forall|k: int| 0 <= k < failed.len() ==> !divides(#[trigger] failed[k] as int, start as int),
        decreases 10 - attempts,
    {
        match divisor_step(start, attempts, candidate) {
            Some(d) => {
                proof {
                    lemma_first_dividing_push(failed, candidate, start as int);
                    let draws = failed.push(candidate);
                    assert(forall|k: int| 0 <= k < draws.len() ==> op_config.sample_outcome(#[trigger] draws[k] as int));
                    assert(d == first_dividing(draws, start as int));
                    assert(divides(1, start as int));
                }
                return d;
            },
            None => {
                proof {
                    failed = failed.push(candidate);
                }
                candidate = op_config.rnd_number(rng);
                attempts = attempts + 1;
            },
        }
    }
}

proof fn lemma_divisor_not_larger(d: nat, n: nat)
    requires
        d > 0,
        n > 0,
        n % d == 0,
    ensures
        d <= n,
{
    vstd::arithmetic::div_mod::lemma_fundamental_div_mod(n as int, d as int);
    let k = n as int / d as int;
    assert(n == d * k);
    assert(k >= 1) by (nonlinear_arith)
        requires
            n == d * k,
            n > 0,
            d > 0,
    ;
    assert(d * k >= d) by (nonlinear_arith)
        requires
            k >= 1,
            d > 0,
    ;
}

/// `left / answer`, rounded towards zero, for a divisor `left` of `answer`;
/// whenever it is not zero it is the cofactor that gives back `answer`.
fn cofactor(left: i16, answer: i16) -> (r: i32)
    requires
        answer != 0,
        divides(left as int, answer as int),
    ensures
        r as int == trunc_div(left as int, answer as int),
        r != 0 ==> left * r == answer,
{
    let q: u32 = magnitude(left) / magnitude(answer);
    proof {
        let a = abs_int(answer as int);
        let l = abs_int(left as int);
        lemma_divisor_not_larger(l as nat, a as nat);
        if l < a {
            vstd::arithmetic::div_mod::lemma_basic_div(l, a);
        } else {
            assert(l == a);
            assert(q == 1) by (nonlinear_arith)
                requires
                    l == a,
                    a > 0,
                    q == l / a,
            ;
        }
    }
    let r: i32 = if (left < 0) != (answer < 0) {
        -(q as i32)
    } else {
        q as i32
    };
    proof {
        if r != 0 {
            assert(abs_int(left as int) == abs_int(answer as int));
            if r == 1 {
                assert(left * r == left);
            } else {
                assert(r == -1);
                assert(left * r == -left);
            }
        }
    }
    r
}

/// The operations that may be chosen for `answer`, in configured order.
fn eligible_operations(answer: i16, op_config: &OperationConfig) -> (r: Vec<OperationType>)
    ensures
        forall|op: OperationType| r@.contains(op) <==> eligible(*op_config, answer as int, op),
{
    let prime = answer > 0 && prime_check(answer as u64);
    let ops = &op_config.allowed_operations;
    let mut r: Vec<OperationType> = Vec::new();
    let mut i: usize = 0;
    while i < ops.len()
        invariant
            i <= ops@.len(),
            ops == &op_config.allowed_operations,
            prime == (answer > 0 && is_prime_number(answer as int)),
            forall|k: int| 0 <= k < r@.len() ==> eligible(*op_config, answer as int, #[trigger] r@[k]),
            forall|j: int|
                0 <= j < i && eligible(*op_config, answer as int, #[trigger] ops@[j])
                    ==> r@.contains(ops@[j]),
        decreases ops@.len() - i,
    {
        let op = ops[i];
        let keep = if answer == 0 {
            match op {
                OperationType::Add | OperationType::Subtract => true,
                _ => false,
            }
        } else if prime {
            match op {
                OperationType::Multiply => false,
                _ => true,
            }
        } else {
            true
        };
        proof {
            assert(ops@.contains(op));
        }
        let ghost old_r = r@;
        if keep {
            r.push(op);
        }
        proof {
            assert(keep == eligible(*op_config, answer as int, op));
            assert forall|x: OperationType| old_r.contains(x) implies r@.contains(x) by {
                let w = choose|w: int| 0 <= w < old_r.len() && old_r[w] == x;
                assert(r@[w] == x);
            }
            if keep {
                assert(r@[r@.len() - 1] == op);
            }
        }
        i = i + 1;
    }
    r
}


proof fn lemma_single_bounds(e: Equation)
    requires
        e.is_single(),
    ensures
        e.height() == 1,
        e.node_count() == 1,
        e.difficulty_spec() <= 400,
{
    let a = e.left.difficulty_spec();
    let b = e.right.difficulty_spec();
    lemma_literal_difficulty_bound(e.left.value());
    lemma_literal_difficulty_bound(e.right.value());
    let w = e.op.weight();
    assert((a + b) * w <= 400) by (nonlinear_arith)
        requires
            a <= 50,
            b <= 50,
            w <= 4,
    ;
}

proof fn lemma_shallow_bounds(e: Equation)
    requires
        e.is_shallow(),
    ensures
        e.height() <= 2,
        e.node_count() <= 3,
        e.difficulty_spec() <= 3200,
{
    match *e.left {
        Value::Number(n) => lemma_literal_difficulty_bound(n as int),
        Value::Equation(s) => lemma_single_bounds(s),
    }
    match *e.right {
        Value::Number(n) => lemma_literal_difficulty_bound(n as int),
        Value::Equation(s) => lemma_single_bounds(s),
    }
    let a = e.left.difficulty_spec();
    let b = e.right.difficulty_spec();
    let w = e.op.weight();
    assert((a + b) * w <= 3200) by (nonlinear_arith)
        requires
            a <= 400,
            b <= 400,
            w <= 4,
    ;
}

impl Equation {
    /// One expansion step: a built sub-equation takes the chosen slot (the
    /// left one when `on_left`); without one the equation stays as it was.
    pub fn expand(eq: Equation, on_left: bool, sub: Option<Equation>) -> (r: Equation)
        ensures
            sub is None ==> r == eq,
            sub is Some && on_left ==> r == (Equation {
                left: Box::new(Value::Equation(sub.unwrap())),
                ..eq
            }),
            sub is Some && !on_left ==> r == (Equation {
                right: Box::new(Value::Equation(sub.unwrap())),
                ..eq
            }),
    {
        match sub {
            Some(next) => {
                let mut eq = eq;
                if on_left {
                    eq.left = Box::new(Value::Equation(next));
                } else {
                    eq.right = Box::new(Value::Equation(next));
                }
                eq
            },
            None => eq,
        }
    }

    /// Builds the single operation that `draw` gives for `op` and `answer`
    /// (see `operands_for`), or nothing when those operands are not accepted.
    /// A product's draw must divide the (non-zero) answer.
    pub fn from_operands(answer: i16, op: OperationType, draw: i16, op_config: &OperationConfig) -> (r:
        Option<Self>)
        requires
            op == OperationType::Multiply ==> answer != 0 && divides(draw as int, answer as int),
        ensures
            r is Some <==> operands_accepted(*op_config, op, answer as int, draw as int),
            r is Some ==> ({
                let (l, rt) = operands_for(op, answer as int, draw as int);
                let e = r.unwrap();
                &&& e.answer == answer
                &&& e.op == op
                &&& *e.left == Value::Number(l as i16)
                &&& *e.right == Value::Number(rt as i16)
                &&& e.left.value() == l
                &&& e.right.value() == rt
            }),
            r is Some ==> r.unwrap().is_correct() && r.unwrap().non_degenerate()
                && r.unwrap().literals_within(op_config.value_min as int, op_config.value_max as int),
    {
        match op {
            OperationType::Add => {
                let right: i32 = answer as i32 - draw as i32;
                if valid_range(draw as i32, right, op_config) {
                    Some(Equation::new(Value::Number(draw), op, Value::Number(right as i16), answer))
                } else {
                    None
                }
            },
            OperationType::Subtract => {
                let right: i32 = draw as i32 - answer as i32;
                if valid_range(draw as i32, right, op_config) {
                    Some(Equation::new(Value::Number(draw), op, Value::Number(right as i16), answer))
                } else {
                    None
                }
            },
            OperationType::Multiply => {
                let right = cofactor(draw, answer);
                if right != 0 && valid_range(draw as i32, right, op_config) {
                    Some(Equation::new(Value::Number(draw), op, Value::Number(right as i16), answer))
                } else {
                    None
                }
            },
            OperationType::Divide => {
                proof {
                    let a = answer as int;
                    let b = draw as int;
                    assert(-1073741824 <= a * b <= 1073741824) by (nonlinear_arith)
                        requires
                            -32768 <= a <= 32767,
                            -32768 <= b <= 32767,
                    ;
                }
                let left: i32 = answer as i32 * draw as i32;
                if left != 0 && draw != 0 && valid_range(draw as i32, left, op_config) {
                    Some(Equation::new(Value::Number(left as i16), op, Value::Number(draw), answer))
                } else {
                    None
                }
            },
        }
    }

    /// Builds an equation with up to `op_count` operations whose answer is
    /// drawn from the configured answer range, by growing a single operation
    /// one operand at a time; an expansion that fails leaves the tree as it was.
    pub fn rnd_compound(op_config: &OperationConfig, op_count: u8, rng: &mut ChaCha8Rng) -> (r:
        Option<Self>)
        requires
            op_config.wf(),
        ensures
            r is Some ==> r.unwrap().generated_under(*op_config),
            r is Some ==> op_config.answer_min <= r.unwrap().answer <= op_config.answer_max,
            r is Some ==> single_for(
                r.unwrap().root_operands(),
                *op_config,
                r.unwrap().answer as int,
            ),
            r is Some ==> r.unwrap().is_shallow(),
            r is Some ==> r.unwrap().node_count() <= if op_count <= 1 {
                1
            } else if op_count >= 3 {
                3
            } else {
                op_count as int
            },
            r is Some && op_count <= 1 ==> r.unwrap().is_single(),
            r is Some ==> r.unwrap().height() <= 2 && r.unwrap().difficulty_spec() <= 3200,
            (forall|a: int|
                op_config.answer_min <= a <= op_config.answer_max ==> !#[trigger] has_eligible(
                    *op_config,
                    a,
                )) ==> r is None,
    {
        let answer = choose_between(rng, op_config.answer_min, op_config.answer_max).unwrap();
        match Self::rnd_single(answer, op_config, rng) {
            Some(mut eq) => {
                proof {
                    lemma_single_bounds(eq);
                    assert(eq.root_operands() == eq);
                }
                let mut i: u8 = 1;
                while i < op_count
                    invariant
                        1 <= i,
                        op_count >= 1 ==> i <= op_count,
                        op_count <= 1 ==> i == 1,
                        eq.generated_under(*op_config),
                        eq.answer == answer,
                        single_for(eq.root_operands(), *op_config, answer as int),
                        eq.is_shallow(),
                        eq.node_count() <= i,
                        op_count <= 1 ==> eq.is_single(),
                    decreases op_count - i,
                {
                    let on_left = coin_flip(rng);
                    let slot = if on_left {
                        eq.left.to_i16()
                    } else {
                        eq.right.to_i16()
                    };
                    let sub = Self::rnd_single(slot, op_config, rng);
                    let ghost before = eq;
                    eq = Self::expand(eq, on_left, sub);
                    proof {
                        if sub is Some {
                            let s = sub.unwrap();
                            lemma_single_bounds(s);
                            assert(eq.root_operands() == before.root_operands());
                            if on_left {
                                match *before.left {
                                    Value::Number(_) => {},
                                    Value::Equation(old) => lemma_single_bounds(old),
                                }
                            } else {
                                match *before.right {
                                    Value::Number(_) => {},
                                    Value::Equation(old) => lemma_single_bounds(old),
                                }
                            }
                        }
                    }
                    i = i + 1;
                }
                proof {
                    lemma_shallow_bounds(eq);
                }
                Some(eq)
            },
            _ => None,
        }
    }

    /// Builds a single operation that comes to `answer`, making up to twenty
    /// attempts.
    pub fn rnd_single(answer: i16, op_config: &OperationConfig, rng: &mut ChaCha8Rng) -> (r:
        Option<Self>)
        ensures
            r is Some ==> single_for(r.unwrap(), *op_config, answer as int),
            !has_eligible(*op_config, answer as int) ==> r is None,
    {
        let mut attempts: u8 = 0;
        let mut eq: Option<Self> = None;
        while attempts < 20 && eq.is_none()
            invariant
                attempts <= 20,
                eq is Some ==> single_for(eq.unwrap(), *op_config, answer as int),
                !has_eligible(*op_config, answer as int) ==> eq is None,
            decreases 20 - attempts,
        {
            eq = Self::rnd_from(answer, op_config, rng);
            attempts = attempts + 1;
        }
        eq
    }

    /// One attempt at a single operation for `answer`: picks an eligible
    /// operation, then tries up to ten operand draws for it.
    fn rnd_from(answer: i16, op_config: &OperationConfig, rng: &mut ChaCha8Rng) -> (r: Option<
        Equation,
    >)
        ensures
            r is Some ==> single_for(r.unwrap(), *op_config, answer as int),
            !has_eligible(*op_config, answer as int) ==> r is None,
    {
        let candidates = eligible_operations(answer, op_config);
        let op = choose_operation(rng, &candidates);
        proof {
            if op is Some {
                assert(candidates@.contains(op.unwrap()));
            } else if has_eligible(*op_config, answer as int) {
                let w = choose|w: OperationType| eligible(*op_config, answer as int, w);
                assert(candidates@.contains(w));
            }
        }
        match op {
            Some(op) => {
                let mut attempts: u8 = 10;
                while attempts > 0
                    invariant
                        eligible(*op_config, answer as int, op),
                    decreases attempts,
                {
                    let draw = match op {
                        OperationType::Multiply => find_divisible(answer, op_config, rng),
                        _ => op_config.rnd_number(rng),
                    };
                    if let Some(eq) = Self::from_operands(answer, op, draw, op_config) {
                        assert(operands_for(op, answer as int, draw as int) == (
                        eq.left.value(), eq.right.value()));
                        return Some(eq);
                    }
                    attempts = attempts - 1;
                }
                None
            },
            None => None,
        }
    }
}


/// Replacing a literal operand of an equation with a nested sub-equation that
/// scores at least as much as that literal never lowers the equation's
/// difficulty, whichever side the literal stood on.
pub proof fn lemma_difficulty_monotone(e: Equation, sub: Equation, on_left: bool)
    requires
        on_left ==> *e.left is Number,
        !on_left ==> *e.right is Number,
        on_left ==> sub.difficulty_spec() >= e.left.difficulty_spec(),
        !on_left ==> sub.difficulty_spec() >= e.right.difficulty_spec(),
    ensures
        on_left ==> (Equation { left: Box::new(Value::Equation(sub)), ..e }).difficulty_spec()
            >= e.difficulty_spec(),
        !on_left ==> (Equation { right: Box::new(Value::Equation(sub)), ..e }).difficulty_spec()
            >= e.difficulty_spec(),
{
    let w = e.op.weight();
    let l = e.left.difficulty_spec();
    let r = e.right.difficulty_spec();
    let s = sub.difficulty_spec();
    if on_left {
        let grown = Equation { left: Box::new(Value::Equation(sub)), ..e };
        assert(grown.difficulty_spec() == (s + r) * w);
        assert(e.difficulty_spec() == (l + r) * w);
        assert((s + r) * w >= (l + r) * w) by (nonlinear_arith)
            requires
                s >= l,
        ;
    } else {
        let grown = Equation { right: Box::new(Value::Equation(sub)), ..e };
        assert(grown.difficulty_spec() == (l + s) * w);
        assert(e.difficulty_spec() == (l + r) * w);
        assert((l + s) * w >= (l + r) * w) by (nonlinear_arith)
            requires
                s >= r,
        ;
    }
}


/// What every single operation the leaf builder hands out satisfies: its
/// operands come exactly to the answer and lie in the value range; a product or
/// quotient has no zero operand; a prime answer is never a product, and a zero
/// answer is only a sum or a difference; a product's right operand is its left
/// one divided by the answer, so the pair is `(answer, 1)` or `(-answer, -1)`.
pub proof fn lemma_single_laws(e: Equation, cfg: OperationConfig, answer: int)
    requires
        single_for(e, cfg, answer),
    ensures
        e.op.holds(e.left.value(), e.right.value(), answer),
        cfg.in_value_range(e.left.value()),
        cfg.in_value_range(e.right.value()),
        (e.op == OperationType::Multiply || e.op == OperationType::Divide) ==> e.left.value() != 0
            && e.right.value() != 0,
        answer > 0 && is_prime_number(answer) ==> e.op != OperationType::Multiply,
        answer == 0 ==> e.op != OperationType::Multiply && e.op != OperationType::Divide,
        e.op == OperationType::Multiply ==> e.right.value() == trunc_div(e.left.value(), answer),
        e.op == OperationType::Multiply ==> (e.left.value() == answer && e.right.value() == 1) || (
        e.left.value() == -answer && e.right.value() == -1),
{
    let l = e.left.value();
    let r = e.right.value();
    let d = choose|d: int| operands_for(e.op, answer, d) == (l, r);
    if e.op == OperationType::Multiply {
        assert(r == trunc_div(l, answer));
        assert(l * r == answer);
        assert(answer != 0);
        let al = abs_int(l);
        let aa = abs_int(answer);
        let q = al / aa;
        assert(abs_int(r) == q);
        assert(al * q == aa) by (nonlinear_arith)
            requires
                l * r == answer,
                al == abs_int(l),
                aa == abs_int(answer),
                q == abs_int(r),
        ;
        assert(q >= 1);
        assert(al <= aa) by (nonlinear_arith)
            requires
                al * q == aa,
                q >= 1,
                al >= 0,
        ;
        if al < aa {
            vstd::arithmetic::div_mod::lemma_basic_div(al, aa);
        }
        assert(al == aa);
        assert(q == 1) by (nonlinear_arith)
            requires
                al * q == aa,
                al == aa,
                aa > 0,
        ;
        if r == 1 {
            assert(l * r == l);
        } else {
            assert(r == -1);
            assert(l * r == -l);
        }
    }
}

} // verus!
