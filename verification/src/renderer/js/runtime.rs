//! The evaluator: a walk over the syntax tree.

use crate::renderer::js::ast::{
    parse_additive, parse_primary, parse_program, parse_source_element, Node, Parsed, Program,
};
use crate::renderer::js::token::{
    decimal_value, lemma_lex_one_number, lex, lex_one, skip_whitespace, wrap_u64, Lexed, Token,
};
use crate::text::{all_digits, spec_is_ascii_digit};
use std::rc::Rc;
use vstd::prelude::*;

verus! {

/// A value that an expression evaluates to.
#[derive(Debug, Clone, Copy, PartialEq, Eq)]
pub enum RuntimeValue {
    Number(u64),
}

impl RuntimeValue {
    /// The number that the value holds.
    pub open spec fn number(self) -> u64 {
        match self {
            RuntimeValue::Number(n) => n,
        }
    }

    /// The sum of two numbers, modulo 2^64.
    pub fn add(self, rhs: RuntimeValue) -> (r: RuntimeValue)
        ensures
            r == RuntimeValue::Number(wrap_u64(self.number() + rhs.number())),
    {
        let RuntimeValue::Number(a) = self;
        let RuntimeValue::Number(b) = rhs;
        proof {
            lemma_wrap_add(a, b);
        }
        RuntimeValue::Number(a.wrapping_add(b))
    }

    /// The difference of two numbers, modulo 2^64.
    pub fn sub(self, rhs: RuntimeValue) -> (r: RuntimeValue)
        ensures
            r == RuntimeValue::Number(wrap_u64(self.number() - rhs.number())),
    {
        let RuntimeValue::Number(a) = self;
        let RuntimeValue::Number(b) = rhs;
        proof {
            lemma_wrap_sub(a, b);
        }
        RuntimeValue::Number(a.wrapping_sub(b))
    }
}

/// Wrapping addition is addition modulo 2^64.
pub proof fn lemma_wrap_add(a: u64, b: u64)
    ensures
        a.wrapping_add(b) == wrap_u64(a + b),
{
    let m = 0x1_0000_0000_0000_0000int;
    if a + b > u64::MAX {
        vstd::arithmetic::div_mod::lemma_mod_sub_multiples_vanish(a + b, m);
        vstd::arithmetic::div_mod::lemma_small_mod((a + b - m) as nat, m as nat);
    } else {
        vstd::arithmetic::div_mod::lemma_small_mod((a + b) as nat, m as nat);
    }
}

/// Wrapping subtraction is subtraction modulo 2^64.
pub proof fn lemma_wrap_sub(a: u64, b: u64)
    ensures
        a.wrapping_sub(b) == wrap_u64(a - b),
{
    let m = 0x1_0000_0000_0000_0000int;
    if a - b < 0 {
        vstd::arithmetic::div_mod::lemma_mod_add_multiples_vanish(a - b, m);
        vstd::arithmetic::div_mod::lemma_small_mod((a - b + m) as nat, m as nat);
    } else {
        vstd::arithmetic::div_mod::lemma_small_mod((a - b) as nat, m as nat);
    }
}

/// The value of a node. A statement has the value of its expression; a
/// sum or difference has a value when both operands have one and the
/// operator is `+` or `-`; assignments and member accesses have none; a
/// literal has its number.
pub open spec fn value_of(node: Option<Rc<Node>>) -> Option<RuntimeValue>
    decreases node,
{
    match node {
        None => None,
        Some(n) => match *n {
            Node::ExpressionStatement(expr) => value_of(expr),
            Node::AdditiveExpression { operator, left, right } => match (
                value_of(left),
                value_of(right),
            ) {
                (Some(l), Some(r)) => if operator == '+' {
                    Some(RuntimeValue::Number(wrap_u64(l.number() + r.number())))
                } else if operator == '-' {
                    Some(RuntimeValue::Number(wrap_u64(l.number() - r.number())))
                } else {
                    None
                },
                _ => None,
            },
            Node::AssignmentExpression { .. } => None,
            Node::MemberExpression { .. } => None,
            Node::NumericLiteral(value) => Some(RuntimeValue::Number(value)),
        },
    }
}

/// The evaluator. It holds no state.
#[derive(Debug, Clone)]
pub struct JsRuntime {}

impl JsRuntime {
    /// An evaluator.
    pub fn new() -> (r: JsRuntime) {
        JsRuntime {  }
    }

    /// Evaluates every top-level node of `program`, in order, and returns
    /// the value of each.
    pub fn execute(&mut self, program: &Program) -> (values: Vec<Option<RuntimeValue>>)
        ensures
            values.len() == program@.len(),
            forall|i: int|
                0 <= i < program@.len() ==> #[trigger] values[i] == value_of(Some(program@[i])),
    {
        let body = program.body();
        let mut values: Vec<Option<RuntimeValue>> = Vec::new();
        let mut i: usize = 0;
        while i < body.len()
            invariant
                i <= body.len(),
                body@ == program@,
                values.len() == i,
                forall|k: int| 0 <= k < i ==> #[trigger] values[k] == value_of(Some(body@[k])),
            decreases body.len() - i,
        {
            let node = Some(body[i].clone());
            let value = self.evaluate(&node);
            values.push(value);
            i += 1;
        }
        values
    }

    /// The value of `node`, if it has one.
    pub fn evaluate(&mut self, node: &Option<Rc<Node>>) -> (v: Option<RuntimeValue>)
        ensures
            v == value_of(*node),
        decreases *node,
    {
        let node = match node {
            Some(node) => node,
            None => return None,
        };
        match &**node {
            Node::ExpressionStatement(expr) => self.evaluate(expr),
            Node::AdditiveExpression { operator, left, right } => {
                let left_value = match self.evaluate(left) {
                    Some(value) => value,
                    None => return None,
                };
                let right_value = match self.evaluate(right) {
                    Some(value) => value,
                    None => return None,
                };
                if *operator == '+' {
                    Some(left_value.add(right_value))
                } else if *operator == '-' {
                    Some(left_value.sub(right_value))
                } else {
                    None
                }
            },
            Node::AssignmentExpression { .. } => None,
            Node::MemberExpression { .. } => None,
            Node::NumericLiteral(value) => Some(RuntimeValue::Number(*value)),
        }
    }
}

/// The source text `a op b`: the digits `a`, a space, the operator, a space
/// and the digits `b`.
pub open spec fn binary_source(a: Seq<char>, op: char, b: Seq<char>) -> Seq<char> {
    a + seq![' ', op, ' '] + b
}

/// Arithmetic on literals: for numbers `a` and `b` written out in digits,
/// the program `a + b` is one statement whose value is the sum of the two
/// numbers modulo 2^64, and the program `a - b` one whose value is their
/// difference modulo 2^64. A literal stands for the value of its digits
/// modulo 2^64, which is that value itself when it fits in 64 bits.
pub proof fn lemma_arithmetic_on_literals(a: Seq<char>, op: char, b: Seq<char>)
    requires
        a.len() > 0,
        b.len() > 0,
        all_digits(a),
        all_digits(b),
        op == '+' || op == '-',
    ensures
        ({
            let program = parse_program(lex(binary_source(a, op, b), 0));
            let x = wrap_u64(decimal_value(a) as int);
            let y = wrap_u64(decimal_value(b) as int);
            &&& decimal_value(a) <= u64::MAX ==> x == decimal_value(a)
            &&& decimal_value(b) <= u64::MAX ==> y == decimal_value(b)
            &&& program.len() == 1
            &&& op == '+' ==> value_of(Some(program[0])) == Some(
                RuntimeValue::Number(wrap_u64(x + y)),
            )
            &&& op == '-' ==> value_of(Some(program[0])) == Some(
                RuntimeValue::Number(wrap_u64(x - y)),
            )
        }),
{
    let src = binary_source(a, op, b);
    let n = a.len() as int;
    let len = src.len() as int;
    let x = wrap_u64(decimal_value(a) as int);
    let y = wrap_u64(decimal_value(b) as int);
    assert(len == n + 3 + b.len());
    assert(forall|i: int| 0 <= i < n ==> src[i] == a[i]);
    assert(src[n] == ' ');
    assert(src[n + 1] == op);
    assert(src[n + 2] == ' ');
    assert(forall|i: int| n + 3 <= i < len ==> src[i] == b[i - n - 3]);
    assert(src.subrange(0, n) =~= a);
    assert(src.subrange(n + 3, len) =~= b);

    // The three tokens.
    assert(skip_whitespace(src, 0) == 0) by {
        assert(spec_is_ascii_digit(src[0]));
    }
    lemma_lex_one_number(src, 0, n as nat);
    assert(lex_one(src, 0) == Lexed { token: Some(Token::Number(x)), pos: n as nat });
    assert(skip_whitespace(src, n as nat) == n + 1) by {
        assert(skip_whitespace(src, (n + 1) as nat) == n + 1);
    }
    assert(lex_one(src, n as nat) == Lexed {
        token: Some(Token::Punctuator(op)),
        pos: (n + 2) as nat,
    });
    assert(skip_whitespace(src, (n + 2) as nat) == n + 3) by {
        assert(spec_is_ascii_digit(src[n + 3]));
        assert(skip_whitespace(src, (n + 3) as nat) == n + 3);
    }
    lemma_lex_one_number(src, (n + 3) as nat, len as nat);
    assert(lex_one(src, (n + 2) as nat) == lex_one(src, (n + 3) as nat));
    assert(lex_one(src, (n + 2) as nat) == Lexed {
        token: Some(Token::Number(y)),
        pos: len as nat,
    });
    assert(lex_one(src, len as nat).token is None);
    assert(lex(src, len as nat) =~= Seq::<Token>::empty());
    assert(lex(src, (n + 2) as nat) =~= seq![Token::Number(y)]);
    assert(lex(src, n as nat) =~= seq![Token::Punctuator(op), Token::Number(y)]);
    let ts = lex(src, 0);
    assert(ts =~= seq![Token::Number(x), Token::Punctuator(op), Token::Number(y)]);

    // The statement.
    let right = Some(Rc::new(Node::NumericLiteral(y)));
    let left = Some(Rc::new(Node::NumericLiteral(x)));
    assert(ts.skip(1).skip(1) =~= seq![Token::Number(y)]);
    assert(ts.skip(1).skip(1).skip(1) =~= Seq::<Token>::empty());
    assert(parse_primary(ts.skip(1).skip(1)) == Parsed { node: right, rest: Seq::empty() });
    assert(parse_additive(ts.skip(1).skip(1)) == Parsed { node: right, rest: Seq::empty() });
    assert(parse_primary(ts) == Parsed { node: left, rest: ts.skip(1) });
    let sum = Some(Rc::new(Node::AdditiveExpression { operator: op, left, right }));
    assert(parse_additive(ts) == Parsed { node: sum, rest: Seq::empty() });
    let statement = Rc::new(Node::ExpressionStatement(sum));
    assert(parse_source_element(ts) == Parsed { node: Some(statement), rest: Seq::empty() });
    assert(parse_program(Seq::<Token>::empty()) =~= Seq::<Rc<Node>>::empty());
    assert(parse_program(ts) =~= seq![statement]);

    // Its value.
    assert(value_of(left) == Some(RuntimeValue::Number(x)));
    assert(value_of(right) == Some(RuntimeValue::Number(y)));
    assert(value_of(sum) == Some(
        RuntimeValue::Number(
            if op == '+' {
                wrap_u64(x + y)
            } else {
                wrap_u64(x - y)
            },
        ),
    ));
    assert(value_of(Some(statement)) == value_of(sum));
    if decimal_value(a) <= u64::MAX {
        vstd::arithmetic::div_mod::lemma_small_mod(decimal_value(a), 0x1_0000_0000_0000_0000);
    }
    if decimal_value(b) <= u64::MAX {
        vstd::arithmetic::div_mod::lemma_small_mod(decimal_value(b), 0x1_0000_0000_0000_0000);
    }
}

} // verus!
