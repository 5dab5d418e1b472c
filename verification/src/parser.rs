//! From a postfix stream to the expression tree.

use crate::error::{Error, Fault};
use crate::lexer::{postfix_of, Lexer, LexerToken, LexerTokenView};
use crate::number::Number;
use crate::tokenizer::{tokens_of, Op, Tokenizer};
use std::collections::VecDeque;
use vstd::prelude::*;

verus! {

/// An expression: a number, or an operator between two expressions.
#[derive(Debug, PartialEq, Eq)]
pub enum Expr {
    /// Left operand, operator, right operand.
    Inner(Box<Expr>, Op, Box<Expr>),
    /// A number.
    Digit(Number),
}

/// What an [`Expr`] is, with its numbers as text.
pub enum ExprView {
    Inner(Box<ExprView>, Op, Box<ExprView>),
    Digit(Seq<char>),
}

impl Expr {
    /// This tree, with its numbers as text.
    pub open spec fn tree(&self) -> ExprView
        decreases self,
    {
        match self {
            Expr::Inner(left, op, right) => ExprView::Inner(
                Box::new(left.tree()),
                *op,
                Box::new(right.tree()),
            ),
            Expr::Digit(n) => ExprView::Digit(n@),
        }
    }

    /// Whether `r` is a value of this expression in the arithmetic that
    /// `literal` and `apply` make up: a number has the values `literal` gives
    /// it; an operator between two expressions has the values `apply` gives it
    /// on a value of the left one and a value of the right one, in this order.
    pub open spec fn evaluates_to<T, L: Fn(&Number) -> T, A: Fn(Op, T, T) -> T>(
        &self,
        literal: &L,
        apply: &A,
        r: T,
    ) -> bool
        decreases self,
    {
        match self {
            Expr::Inner(left, op, right) => exists|x: T, y: T|
                {
                    &&& left.evaluates_to(literal, apply, x)
                    &&& right.evaluates_to(literal, apply, y)
                    &&& #[trigger] call_ensures(*apply, (*op, x, y), r)
                },
            Expr::Digit(n) => call_ensures(*literal, (n,), r),
        }
    }

    /// Evaluates this expression from the leaves up, in the arithmetic that
    /// `literal` and `apply` make up: `literal` gives the value of a number,
    /// `apply` the value of an operator on the values of its left and right
    /// operands.
    ///
    /// The result is a value of the expression in the sense of
    /// [`Expr::evaluates_to`]; the second clause spells that out one level
    /// deep.
    pub fn calc<T, L: Fn(&Number) -> T, A: Fn(Op, T, T) -> T>(
        &self,
        literal: &L,
        apply: &A,
    ) -> (r: T)
        requires
            forall|n: &Number| call_requires(*literal, (n,)),
            forall|op: Op, x: T, y: T| call_requires(*apply, (op, x, y)),
        ensures
            self.evaluates_to(literal, apply, r),
            match self {
                Expr::Inner(left, op, right) => exists|x: T, y: T|
                    left.evaluates_to(literal, apply, x) && right.evaluates_to(literal, apply, y)
                        && #[trigger] call_ensures(*apply, (*op, x, y), r),
                Expr::Digit(n) => call_ensures(*literal, (n,), r),
            },
        decreases self,
    {
        match self {
            Expr::Inner(left, op, right) => {
                let x = left.calc(literal, apply);
                let y = right.calc(literal, apply);
                let ghost operands = (x, y);
                let r = apply(*op, x, y);
                assert(call_ensures(*apply, (*op, operands.0, operands.1), r));
                r
            },
            Expr::Digit(n) => literal(n),
        }
    }
}

impl View for Expr {
    type V = ExprView;

    open spec fn view(&self) -> ExprView {
        self.tree()
    }
}

impl DeepView for Expr {
    type V = ExprView;

    open spec fn deep_view(&self) -> ExprView {
        self@
    }
}

/// The failure of an operator that stands at `position` of the postfix stream
/// with fewer than two operands before it.
pub open spec fn unexpected(op: Op, position: int) -> Error {
    Error {
        fault: Fault::UnexpectedOperation,
        character: Some(op.symbol_of()),
        position: Some(position as usize),
    }
}

/// The failure of a postfix stream that leaves no tree, or more than one.
pub open spec fn malformed() -> Error {
    Error { fault: Fault::MalformedExpression, character: None, position: None }
}

/// The stack of trees after `token`: a number is pushed as a leaf; an
/// operator replaces the two trees on top by their combination, the upper one
/// as its right operand. `None` where an operator finds fewer than two trees.
pub open spec fn pushed(stack: Seq<ExprView>, token: LexerTokenView) -> Option<Seq<ExprView>> {
    match token {
        LexerTokenView::Digit(text) => Some(stack.push(ExprView::Digit(text))),
        LexerTokenView::Op(op) => if stack.len() < 2 {
            None
        } else {
            let left = stack[stack.len() - 2];
            let right = stack[stack.len() - 1];
            Some(
                stack.take(stack.len() - 2).push(
                    ExprView::Inner(Box::new(left), op, Box::new(right)),
                ),
            )
        },
    }
}

/// The stack of trees after the tokens from `i` on, or the first failure.
pub open spec fn folded(stack: Seq<ExprView>, tokens: Seq<LexerTokenView>, i: int) -> Result<
    Seq<ExprView>,
    Error,
>
    decreases tokens.len() - i,
{
    if 0 <= i < tokens.len() {
        match pushed(stack, tokens[i]) {
            Some(next) => folded(next, tokens, i + 1),
            None => Err(unexpected(tokens[i]->Op_0, i + 1)),
        }
    } else {
        Ok(stack)
    }
}

/// The tree that the postfix stream `tokens` denotes: the single tree left
/// when all tokens are taken.
pub open spec fn tree_of(tokens: Seq<LexerTokenView>) -> Result<ExprView, Error> {
    match folded(seq![], tokens, 0) {
        Ok(stack) => if stack.len() == 1 {
            Ok(stack[0])
        } else {
            Err(malformed())
        },
        Err(e) => Err(e),
    }
}

/// The tree of the text `s`: its tokens, put in postfix order, folded into a
/// tree; or the failure of the first stage that fails.
pub open spec fn parsed(s: Seq<char>) -> Result<ExprView, Error> {
    match tokens_of(s) {
        Ok(tokens) => match postfix_of(tokens) {
            Ok(postfix) => tree_of(postfix),
            Err(e) => Err(e),
        },
        Err(e) => Err(e),
    }
}

/// What a call of the builder returned, over views.
pub open spec fn outcome(r: Result<Expr, Error>) -> Result<ExprView, Error> {
    match r {
        Ok(tree) => Ok(tree@),
        Err(e) => Err(e),
    }
}

/// The builder: the trees completed so far, and the count of postfix tokens
/// taken.
#[derive(Debug)]
pub struct Parser {
    stack: VecDeque<Expr>,
    pointer: usize,
}

impl Default for Parser {
    fn default() -> (p: Parser)
        ensures
            p.trees() == Seq::<ExprView>::empty(),
            p.taken() == 0,
    {
        let p = Parser { stack: VecDeque::new(), pointer: 0 };
        assert(p.stack.deep_view() =~= Seq::<ExprView>::empty());
        p
    }
}

impl Parser {
    /// The trees completed so far, the latest last.
    pub closed spec fn trees(&self) -> Seq<ExprView> {
        self.stack.deep_view()
    }

    /// How many postfix tokens have been taken.
    pub closed spec fn taken(&self) -> int {
        self.pointer as int
    }

    /// The tree of the expression that `s` writes, or the failure of the
    /// first stage that fails.
    pub fn parse(s: &str) -> (r: Result<Expr, Error>)
        ensures
            outcome(r) == parsed(s@),
    {
        let mut tokens = match Tokenizer::tokenize(s) {
            Ok(tokens) => tokens,
            Err(e) => {
                return Err(e);
            },
        };
        let posfix_tokens = match Lexer::analyze(&mut tokens) {
            Ok(posfix_tokens) => posfix_tokens,
            Err(e) => {
                return Err(e);
            },
        };
        Parser::build(&posfix_tokens)
    }

    /// The tree that the postfix stream `tokens` denotes.
    ///
    /// Fails at the first operator that has fewer than two operands before
    /// it, and on a stream that leaves no tree or more than one.
    pub fn build(tokens: &Vec<LexerToken>) -> (r: Result<Expr, Error>)
        ensures
            outcome(r) == tree_of(tokens.deep_view()),
    {
        let mut p = Parser::default();
        let len: usize = tokens.len();
        while p.pointer < len
            invariant
                len == tokens@.len(),
                p.pointer <= len,
                folded(seq![], tokens.deep_view(), 0) == folded(
                    p.trees(),
                    tokens.deep_view(),
                    p.taken(),
                ),
            decreases len - p.pointer,
        {
            match p.read(&tokens[p.pointer]) {
                Ok(()) => {},
                Err(e) => {
                    return Err(e);
                },
            }
        }
        if p.stack.len() != 1 {
            return Err(Error { fault: Fault::MalformedExpression, character: None, position: None });
        }
        Ok(p.stack.pop_front().unwrap())
    }

    /// Takes one postfix token. On failure the builder is as it was.
    fn read(&mut self, token: &LexerToken) -> (r: Result<(), Error>)
        requires
            old(self).pointer < usize::MAX,
        ensures
            match r {
                Ok(()) => {
                    &&& pushed(old(self).trees(), token@) == Some(final(self).trees())
                    &&& final(self).taken() == old(self).taken() + 1
                },
                Err(e) => {
                    &&& pushed(old(self).trees(), token@) is None
                    &&& token@ matches LexerTokenView::Op(op)
                    &&& e == unexpected(op, old(self).taken() + 1)
                    &&& *final(self) == *old(self)
                },
            },
    {
        match token {
            LexerToken::Digit(d) => {
                let leaf = Expr::Digit(d.clone());
                self.stack.push_back(leaf);
                assert(self.stack.deep_view() =~= old(self).stack.deep_view().push(
                    ExprView::Digit(d@),
                ));
            },
            LexerToken::Op(op) => {
                let len: usize = self.stack.len();
                if len < 2 {
                    return Err(
                        Error {
                            fault: Fault::UnexpectedOperation,
                            character: Some(op.symbol()),
                            position: Some(self.pointer + 1),
                        },
                    );
                }
                let ghost before = self.stack.deep_view();
                let exp2 = self.stack.pop_back().unwrap();
                let exp1 = self.stack.pop_back().unwrap();
                proof {
                    assert(exp2@ == before[len - 1]);
                    assert(exp1@ == before[len - 2]);
                    assert(self.stack.deep_view() =~= before.take(len - 2));
                }
                let ghost left = exp1@;
                let ghost right = exp2@;
                self.stack.push_back(Expr::Inner(Box::new(exp1), *op, Box::new(exp2)));
                assert(self.stack.deep_view() =~= before.take(len - 2).push(
                    ExprView::Inner(Box::new(left), *op, Box::new(right)),
                ));
            },
        }
        self.pointer = self.pointer + 1;
        Ok(())
    }
}

/// Whether `r` is an outcome of evaluating the text `s` in the arithmetic
/// that `literal` and `apply` make up: a value of the tree of `s`, or the
/// failure for which `s` has no tree.
pub open spec fn evaluated<T, L: Fn(&Number) -> T, A: Fn(Op, T, T) -> T>(
    s: Seq<char>,
    literal: &L,
    apply: &A,
    r: Result<T, Error>,
) -> bool {
    &&& r matches Ok(v) ==> exists|tree: Expr|
        parsed(s) == Ok::<ExprView, Error>(tree@) && #[trigger] tree.evaluates_to(literal, apply, v)
    &&& r matches Err(e) ==> parsed(s) == Err::<ExprView, Error>(e)
}

/// Evaluates the expression that `s` writes, in the arithmetic that `literal`
/// and `apply` make up: the text is parsed, and its tree evaluated from the
/// leaves up. Fails exactly when `s` has no tree, with the failure of the
/// first stage that fails.
///
/// The outcome is one in the sense of [`evaluated`], which the first two
/// clauses spell out.
pub fn evaluate<T, L: Fn(&Number) -> T, A: Fn(Op, T, T) -> T>(
    s: &str,
    literal: &L,
    apply: &A,
) -> (r: Result<T, Error>)
    requires
        forall|n: &Number| call_requires(*literal, (n,)),
        forall|op: Op, x: T, y: T| call_requires(*apply, (op, x, y)),
    ensures
        r matches Ok(v) ==> exists|tree: Expr|
            parsed(s@) == Ok::<ExprView, Error>(tree@) && #[trigger] tree.evaluates_to(
                literal,
                apply,
                v,
            ),
        r matches Err(e) ==> parsed(s@) == Err::<ExprView, Error>(e),
        evaluated(s@, literal, apply, r),
{
    let tree = match Parser::parse(s) {
        Ok(tree) => tree,
        Err(e) => {
            return Err(e);
        },
    };
    let v = tree.calc(literal, apply);
    let ghost value = v;
    assert(parsed(s@) == Ok::<ExprView, Error>(tree@) && tree.evaluates_to(literal, apply, value));
    let r: Result<T, Error> = Ok(v);
    assert(r matches Ok(w) ==> w == value);
    assert(r matches Ok(w) ==> exists|t: Expr|
        parsed(s@) == Ok::<ExprView, Error>(t@) && #[trigger] t.evaluates_to(literal, apply, w));
    r
}

} // verus!
