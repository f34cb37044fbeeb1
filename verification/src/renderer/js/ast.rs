//! The syntax tree of the JavaScript subset and the recursive-descent
//! parser that builds it.
//!
//! The grammar is stated by spec functions over sequences of tokens
//! ([`parse_primary`] up to [`parse_program`]); the methods of [`JsParser`]
//! are proved to compute them.

use crate::renderer::js::token::{lemma_lex_one_bounds, JsLexer, Token};
use std::rc::Rc;
use vstd::prelude::*;

verus! {

/// A node of the syntax tree.
#[derive(Debug, Clone, PartialEq, Eq)]
pub enum Node {
    ExpressionStatement(Option<Rc<Node>>),
    AdditiveExpression { operator: char, left: Option<Rc<Node>>, right: Option<Rc<Node>> },
    AssignmentExpression { operator: char, left: Option<Rc<Node>>, right: Option<Rc<Node>> },
    MemberExpression { object: Option<Rc<Node>>, property: Option<Rc<Node>> },
    NumericLiteral(u64),
}

impl Node {
    /// A statement that holds `expr`.
    pub fn new_expression_statement(expr: Option<Rc<Node>>) -> (n: Option<Rc<Node>>)
        ensures
            n == Some(Rc::new(Node::ExpressionStatement(expr))),
    {
        Some(Rc::new(Node::ExpressionStatement(expr)))
    }

    /// `left operator right`, for `+` and `-`.
    pub fn new_additive_expression(
        operator: char,
        left: Option<Rc<Node>>,
        right: Option<Rc<Node>>,
    ) -> (n: Option<Rc<Node>>)
        ensures
            n == Some(Rc::new(Node::AdditiveExpression { operator, left, right })),
    {
        Some(Rc::new(Node::AdditiveExpression { operator, left, right }))
    }

    /// `left operator right`, for an assignment.
    pub fn new_assignment_expression(
        operator: char,
        left: Option<Rc<Node>>,
        right: Option<Rc<Node>>,
    ) -> (n: Option<Rc<Node>>)
        ensures
            n == Some(Rc::new(Node::AssignmentExpression { operator, left, right })),
    {
        Some(Rc::new(Node::AssignmentExpression { operator, left, right }))
    }

    /// `object.property`.
    pub fn new_member_expression(object: Option<Rc<Node>>, property: Option<Rc<Node>>) -> (n:
        Option<Rc<Node>>)
        ensures
            n == Some(Rc::new(Node::MemberExpression { object, property })),
    {
        Some(Rc::new(Node::MemberExpression { object, property }))
    }

    /// The number `value`.
    pub fn new_numeric_literal(value: u64) -> (n: Option<Rc<Node>>)
        ensures
            n == Some(Rc::new(Node::NumericLiteral(value))),
    {
        Some(Rc::new(Node::NumericLiteral(value)))
    }
}

/// A program: its top-level nodes, in source order.
#[derive(Debug, Clone, PartialEq, Eq)]
pub struct Program {
    body: Vec<Rc<Node>>,
}

impl View for Program {
    type V = Seq<Rc<Node>>;

    closed spec fn view(&self) -> Seq<Rc<Node>> {
        self.body@
    }
}

impl Program {
    /// The empty program.
    pub fn new() -> (p: Program)
        ensures
            p@ == Seq::<Rc<Node>>::empty(),
    {
        Program { body: Vec::new() }
    }

    /// Replaces the top-level nodes.
    pub fn set_body(&mut self, body: Vec<Rc<Node>>)
        ensures
            final(self)@ == body@,
    {
        self.body = body;
    }

    /// The top-level nodes.
    pub fn body(&self) -> (b: &Vec<Rc<Node>>)
        ensures
            b@ == self@,
    {
        &self.body
    }
}

/// What a grammar rule produced, and the tokens behind it.
pub struct Parsed {
    pub node: Option<Rc<Node>>,
    pub rest: Seq<Token>,
}

/// `+` or `-`.
pub open spec fn is_additive_operator(t: Token) -> bool {
    t == Token::Punctuator('+') || t == Token::Punctuator('-')
}

/// `primary_expression := NUMBER`. The rule takes one token, whatever it
/// is, and produces a literal only from a number.
pub open spec fn parse_primary(ts: Seq<Token>) -> Parsed {
    if ts.len() == 0 {
        Parsed { node: None, rest: ts }
    } else {
        Parsed {
            node: match ts[0] {
                Token::Number(value) => Some(Rc::new(Node::NumericLiteral(value))),
                _ => None,
            },
            rest: ts.skip(1),
        }
    }
}

/// `member_expression := primary_expression`.
pub open spec fn parse_member(ts: Seq<Token>) -> Parsed {
    parse_primary(ts)
}

/// `left_hand_side_expression := member_expression`.
pub open spec fn parse_left_hand_side(ts: Seq<Token>) -> Parsed {
    parse_member(ts)
}

/// `additive_expression := left_hand_side_expression (('+'|'-')
/// assignment_expression)?`. The right operand is a whole expression, so
/// operators group to the right.
pub open spec fn parse_additive(ts: Seq<Token>) -> Parsed
    decreases ts.len(), 0nat,
{
    let left = parse_left_hand_side(ts);
    if left.rest.len() > 0 && is_additive_operator(left.rest[0]) {
        let right = parse_assignment(left.rest.skip(1));
        Parsed {
            node: Some(
                Rc::new(
                    Node::AdditiveExpression {
                        operator: left.rest[0]->Punctuator_0,
                        left: left.node,
                        right: right.node,
                    },
                ),
            ),
            rest: right.rest,
        }
    } else {
        left
    }
}

/// `assignment_expression := additive_expression`.
pub open spec fn parse_assignment(ts: Seq<Token>) -> Parsed
    decreases ts.len(), 1nat,
{
    parse_additive(ts)
}

/// `statement := expression_statement ';'?`.
pub open spec fn parse_statement(ts: Seq<Token>) -> Parsed {
    let e = parse_assignment(ts);
    Parsed {
        node: Some(Rc::new(Node::ExpressionStatement(e.node))),
        rest: if e.rest.len() > 0 && e.rest[0] == Token::Punctuator(';') {
            e.rest.skip(1)
        } else {
            e.rest
        },
    }
}

/// `source_element := statement`, or nothing when no token is left.
pub open spec fn parse_source_element(ts: Seq<Token>) -> Parsed {
    if ts.len() == 0 {
        Parsed { node: None, rest: ts }
    } else {
        parse_statement(ts)
    }
}

/// An expression never leaves more tokens than it was given, and takes at
/// least one if there is any.
pub proof fn lemma_parse_additive_consumes(ts: Seq<Token>)
    ensures
        parse_additive(ts).rest.len() <= ts.len(),
        ts.len() > 0 ==> parse_additive(ts).rest.len() < ts.len(),
    decreases ts.len(),
{
    let left = parse_left_hand_side(ts);
    if left.rest.len() > 0 && is_additive_operator(left.rest[0]) {
        lemma_parse_additive_consumes(left.rest.skip(1));
    }
}

/// `program := source_element*`: the statements of `ts`, in order.
pub open spec fn parse_program(ts: Seq<Token>) -> Seq<Rc<Node>>
    decreases ts.len(),
{
    let s = parse_source_element(ts);
    match s.node {
        None => Seq::empty(),
        Some(n) => {
            proof {
                lemma_parse_additive_consumes(ts);
            }
            if s.rest.len() < ts.len() {
                seq![n] + parse_program(s.rest)
            } else {
                seq![n]
            }
        },
    }
}

/// The parser: a lexer and one token of lookahead.
pub struct JsParser {
    t: JsLexer,
    lookahead: Option<Token>,
}

impl JsParser {
    /// The tokens that the parser has not taken yet.
    pub closed spec fn remaining(&self) -> Seq<Token> {
        match self.lookahead {
            Some(t) => seq![t] + self.t@.remaining(),
            None => Seq::empty(),
        }
    }

    /// The lexer is within its input.
    pub closed spec fn wf(&self) -> bool {
        self.t@.wf()
    }

    /// A parser over the tokens that `t` has left.
    pub fn new(t: JsLexer) -> (p: JsParser)
        requires
            t@.wf(),
        ensures
            p.wf(),
            p.remaining() == t@.remaining(),
    {
        let mut t = t;
        let ghost before = t@;
        let lookahead = t.next();
        proof {
            lemma_lex_one_bounds(before.input, before.pos);
        }
        JsParser { t, lookahead }
    }

    /// The next token, without taking it.
    fn peek(&self) -> (t: Option<Token>)
        ensures
            self.remaining().len() == 0 ==> t is None,
            self.remaining().len() > 0 ==> t == Some(self.remaining()[0]),
    {
        self.lookahead
    }

    /// Takes the next token.
    fn advance(&mut self) -> (t: Option<Token>)
        requires
            old(self).wf(),
        ensures
            final(self).wf(),
            old(self).remaining().len() == 0 ==> t is None && final(self).remaining()
                == old(self).remaining(),
            old(self).remaining().len() > 0 ==> t == Some(old(self).remaining()[0])
                && final(self).remaining() == old(self).remaining().skip(1),
    {
        let t = self.lookahead;
        if t.is_some() {
            let ghost before = self.t@;
            self.lookahead = self.t.next();
            proof {
                lemma_lex_one_bounds(before.input, before.pos);
                assert(old(self).remaining().skip(1) =~= before.remaining());
            }
        }
        t
    }

    /// Parses a whole program: every statement up to the end of the input.
    pub fn parse_ast(&mut self) -> (program: Program)
        requires
            old(self).wf(),
        ensures
            program@ == parse_program(old(self).remaining()),
            final(self).remaining().len() == 0,
            final(self).wf(),
    {
        let mut program = Program::new();
        let mut body: Vec<Rc<Node>> = Vec::new();
        loop
            invariant
                self.wf(),
                body@ + parse_program(self.remaining()) == parse_program(old(self).remaining()),
            decreases self.remaining().len(),
        {
            let ghost before = self.remaining();
            let node = self.source_element();
            proof {
                lemma_parse_additive_consumes(before);
            }
            match node {
                Some(n) => {
                    proof {
                        assert((body@.push(n)) + parse_program(self.remaining()) =~= body@ + (
                        seq![n] + parse_program(self.remaining())));
                    }
                    body.push(n);
                },
                None => {
                    assert(body@ + Seq::<Rc<Node>>::empty() =~= body@);
                    program.set_body(body);
                    return program;
                },
            }
        }
    }

    fn source_element(&mut self) -> (n: Option<Rc<Node>>)
        requires
            old(self).wf(),
        ensures
            final(self).wf(),
            n == parse_source_element(old(self).remaining()).node,
            final(self).remaining() == parse_source_element(old(self).remaining()).rest,
    {
        match self.peek() {
            Some(_) => {},
            None => return None,
        };
        self.statement()
    }

    fn statement(&mut self) -> (n: Option<Rc<Node>>)
        requires
            old(self).wf(),
        ensures
            final(self).wf(),
            n == parse_statement(old(self).remaining()).node,
            final(self).remaining() == parse_statement(old(self).remaining()).rest,
    {
        let node = Node::new_expression_statement(self.assignment_expression());
        if let Some(Token::Punctuator(c)) = self.peek() {
            if c == ';' {
                self.advance();
            }
        }
        node
    }

    fn assignment_expression(&mut self) -> (n: Option<Rc<Node>>)
        requires
            old(self).wf(),
        ensures
            final(self).wf(),
            n == parse_assignment(old(self).remaining()).node,
            final(self).remaining() == parse_assignment(old(self).remaining()).rest,
        decreases old(self).remaining().len(), 1nat,
    {
        self.additive_expression()
    }

    fn additive_expression(&mut self) -> (n: Option<Rc<Node>>)
        requires
            old(self).wf(),
        ensures
            final(self).wf(),
            n == parse_additive(old(self).remaining()).node,
            final(self).remaining() == parse_additive(old(self).remaining()).rest,
        decreases old(self).remaining().len(), 0nat,
    {
        let left = self.left_hand_side_expression();
        let t = match self.peek() {
            Some(t) => t,
            None => return left,
        };
        match t {
            Token::Punctuator(c) => {
                if c == '+' || c == '-' {
                    self.advance();
                    Node::new_additive_expression(c, left, self.assignment_expression())
                } else {
                    left
                }
            },
            _ => left,
        }
    }

    fn left_hand_side_expression(&mut self) -> (n: Option<Rc<Node>>)
        requires
            old(self).wf(),
        ensures
            final(self).wf(),
            n == parse_left_hand_side(old(self).remaining()).node,
            final(self).remaining() == parse_left_hand_side(old(self).remaining()).rest,
    {
        self.member_expression()
    }

    fn member_expression(&mut self) -> (n: Option<Rc<Node>>)
        requires
            old(self).wf(),
        ensures
            final(self).wf(),
            n == parse_member(old(self).remaining()).node,
            final(self).remaining() == parse_member(old(self).remaining()).rest,
    {
        self.primary_expression()
    }

    fn primary_expression(&mut self) -> (n: Option<Rc<Node>>)
        requires
            old(self).wf(),
        ensures
            final(self).wf(),
            n == parse_primary(old(self).remaining()).node,
            final(self).remaining() == parse_primary(old(self).remaining()).rest,
    {
        let t = match self.advance() {
            Some(t) => t,
            None => return None,
        };
        match t {
            Token::Number(value) => Node::new_numeric_literal(value),
            _ => None,
        }
    }
}

} // verus!
