//! From tokens in source order to postfix order, by operator priority.

use crate::error::{Error, Fault};
use crate::number::Number;
use crate::tokenizer::{Op, Token, TokenView};
use std::collections::VecDeque;
use vstd::prelude::*;

verus! {

/// How tightly an operator binds.
pub open spec fn priority(op: Op) -> u8 {
    match op {
        Op::Add | Op::Sub => 3,
        Op::Mul | Op::Div => 4,
        Op::Pow => 5,
    }
}

/// How tightly `op` binds.
pub fn op_priority(op: Op) -> (p: u8)
    ensures
        p == priority(op),
{
    match op {
        Op::Add | Op::Sub => 3,
        Op::Mul | Op::Div => 4,
        Op::Pow => 5,
    }
}

/// One item of a postfix stream: brackets are gone.
#[derive(Debug, PartialEq, Eq)]
pub enum LexerToken {
    /// A number.
    Digit(Number),
    /// An operator, which applies to the two operands before it.
    Op(Op),
}

/// What a [`LexerToken`] is, with its number as text.
pub enum LexerTokenView {
    Digit(Seq<char>),
    Op(Op),
}

impl View for LexerToken {
    type V = LexerTokenView;

    open spec fn view(&self) -> LexerTokenView {
        match self {
            LexerToken::Digit(n) => LexerTokenView::Digit(n@),
            LexerToken::Op(op) => LexerTokenView::Op(*op),
        }
    }
}

impl DeepView for LexerToken {
    type V = LexerTokenView;

    open spec fn deep_view(&self) -> LexerTokenView {
        self@
    }
}

impl Clone for LexerToken {
    fn clone(&self) -> (t: LexerToken)
        ensures
            t@ == self@,
    {
        match self {
            LexerToken::Digit(n) => LexerToken::Digit(n.clone()),
            LexerToken::Op(op) => LexerToken::Op(*op),
        }
    }
}

/// The operators among `stack`, from its top (its last entry) down.
pub open spec fn unwound(stack: Seq<TokenView>) -> Seq<LexerTokenView>
    decreases stack.len(),
{
    if stack.len() == 0 {
        seq![]
    } else {
        match stack.last() {
            TokenView::Op(op) => seq![LexerTokenView::Op(op)] + unwound(stack.drop_last()),
            _ => unwound(stack.drop_last()),
        }
    }
}

/// Whether the stack entry `t` gives way to an operator of priority `p`: it
/// is an operator that binds at least as tightly.
pub open spec fn yields(t: TokenView, p: u8) -> bool {
    t matches TokenView::Op(op) && priority(op) >= p
}

/// How much of `stack` stays when an operator of priority `p` arrives: all
/// but the entries at the top that give way to it.
pub open spec fn kept(stack: Seq<TokenView>, p: u8) -> nat
    decreases stack.len(),
{
    if stack.len() > 0 && yields(stack.last(), p) {
        kept(stack.drop_last(), p)
    } else {
        stack.len()
    }
}

/// Where the topmost opening bracket of `stack` lies, if it holds one.
pub open spec fn open_at(stack: Seq<TokenView>) -> Option<int>
    decreases stack.len(),
{
    if stack.len() == 0 {
        None
    } else if stack.last() == TokenView::Bracket(true) {
        Some(stack.len() - 1)
    } else {
        open_at(stack.drop_last())
    }
}

/// A conversion in progress: the operators and opening brackets that wait,
/// the postfix stream so far, and how many tokens have been taken.
#[verifier::ext_equal]
pub struct LexerView {
    pub stack: Seq<TokenView>,
    pub output: Seq<LexerTokenView>,
    pub pointer: nat,
}

/// A bracket without its partner, noticed after `pointer` tokens.
pub open spec fn unmatched(bracket: char, pointer: nat) -> Error {
    Error {
        fault: Fault::UnmatchedBracket,
        character: Some(bracket),
        position: Some(pointer as usize),
    }
}

/// A conversion that has taken nothing yet.
pub open spec fn start() -> LexerView {
    LexerView { stack: seq![], output: seq![], pointer: 0 }
}

/// The conversion `st` after it has taken `token`.
///
/// * A number goes to the output.
/// * An opening bracket waits on the stack.
/// * A closing bracket sends the operators above the topmost opening bracket
///   to the output, top first, and removes that bracket; without one it is
///   unmatched.
/// * An operator first sends to the output, top first, the operators at the
///   top of the stack that bind at least as tightly, then waits on the stack.
///   Operators of equal priority so group from the left.
pub open spec fn handled(st: LexerView, token: TokenView) -> Result<LexerView, Error> {
    let pointer = st.pointer + 1;
    match token {
        TokenView::Digit(text) => Ok(
            LexerView {
                stack: st.stack,
                output: st.output.push(LexerTokenView::Digit(text)),
                pointer,
            },
        ),
        TokenView::Bracket(true) => Ok(
            LexerView { stack: st.stack.push(token), output: st.output, pointer },
        ),
        TokenView::Bracket(false) => match open_at(st.stack) {
            Some(k) => Ok(
                LexerView {
                    stack: st.stack.take(k),
                    output: st.output + unwound(st.stack.skip(k + 1)),
                    pointer,
                },
            ),
            None => Err(unmatched(')', pointer)),
        },
        TokenView::Op(op) => {
            let k = kept(st.stack, priority(op)) as int;
            Ok(
                LexerView {
                    stack: st.stack.take(k).push(token),
                    output: st.output + unwound(st.stack.skip(k)),
                    pointer,
                },
            )
        },
    }
}

/// The conversion `st` after it has taken `tokens` one by one, or the first
/// failure.
pub open spec fn consumed(st: LexerView, tokens: Seq<TokenView>) -> Result<LexerView, Error>
    decreases tokens.len(),
{
    if tokens.len() == 0 {
        Ok(st)
    } else {
        match handled(st, tokens[0]) {
            Ok(next) => consumed(next, tokens.drop_first()),
            Err(e) => Err(e),
        }
    }
}

/// The postfix stream of `tokens`, or the first failure.
///
/// When all tokens are taken, an opening bracket that still waits is
/// unmatched; otherwise the operators that wait follow the output, top first.
pub open spec fn postfix_of(tokens: Seq<TokenView>) -> Result<Seq<LexerTokenView>, Error> {
    match consumed(start(), tokens) {
        Ok(st) => if open_at(st.stack) is Some {
            Err(unmatched('(', st.pointer))
        } else {
            Ok(st.output + unwound(st.stack))
        },
        Err(e) => Err(e),
    }
}

/// What a call of the converter returned, over token views.
pub open spec fn outcome(r: Result<Vec<LexerToken>, Error>) -> Result<Seq<LexerTokenView>, Error> {
    match r {
        Ok(tokens) => Ok(tokens.deep_view()),
        Err(e) => Err(e),
    }
}

/// Unwinding a stack with one more entry at the bottom.
pub proof fn lemma_unwound_bottom(t: TokenView, stack: Seq<TokenView>)
    ensures
        unwound(seq![t] + stack) == unwound(stack) + unwound(seq![t]),
    decreases stack.len(),
{
    let whole = seq![t] + stack;
    if stack.len() == 0 {
        assert(whole =~= seq![t]);
        assert(unwound(stack) + unwound(seq![t]) =~= unwound(seq![t]));
    } else {
        lemma_unwound_bottom(t, stack.drop_last());
        assert(whole.drop_last() =~= seq![t] + stack.drop_last());
        assert(whole.last() == stack.last());
        match stack.last() {
            TokenView::Op(op) => {
                assert(unwound(whole) =~= unwound(stack) + unwound(seq![t]));
            },
            _ => {},
        }
    }
}

/// Unwinding the part of a stack from `k - 1` up, given the part from `k` up.
pub proof fn lemma_unwound_skip(stack: Seq<TokenView>, k: int)
    requires
        0 < k <= stack.len(),
    ensures
        unwound(stack.skip(k - 1)) == unwound(stack.skip(k)) + unwound(seq![stack[k - 1]]),
{
    assert(stack.skip(k - 1) =~= seq![stack[k - 1]] + stack.skip(k));
    lemma_unwound_bottom(stack[k - 1], stack.skip(k));
}

/// Unwinding a single entry.
pub proof fn lemma_unwound_one(t: TokenView)
    ensures
        unwound(seq![t]) == match t {
            TokenView::Op(op) => seq![LexerTokenView::Op(op)],
            _ => seq![],
        },
{
    reveal_with_fuel(unwound, 2);
    assert(seq![t].drop_last() =~= Seq::<TokenView>::empty());
    match t {
        TokenView::Op(op) => {
            assert(seq![LexerTokenView::Op(op)] + Seq::<LexerTokenView>::empty() =~= seq![
                LexerTokenView::Op(op),
            ]);
        },
        _ => {},
    }
}

/// `ops` as items of a postfix stream.
pub open spec fn ops_of(ops: Seq<Op>) -> Seq<LexerTokenView> {
    ops.map_values(|op: Op| LexerTokenView::Op(op))
}

/// The converter: a stack of operators and opening brackets that wait, the
/// postfix stream so far, and the count of tokens taken.
#[derive(Debug)]
pub struct Lexer {
    stack: VecDeque<Token>,
    output: Vec<LexerToken>,
    pointer: usize,
}

impl View for Lexer {
    type V = LexerView;

    closed spec fn view(&self) -> LexerView {
        LexerView {
            stack: self.stack.deep_view(),
            output: self.output.deep_view(),
            pointer: self.pointer as nat,
        }
    }
}

impl Default for Lexer {
    fn default() -> (lexer: Lexer)
        ensures
            lexer@ == start(),
    {
        let lexer = Lexer { stack: VecDeque::new(), output: Vec::new(), pointer: 0 };
        assert(lexer@ =~= start());
        lexer
    }
}

impl Lexer {
    /// Takes the tokens from the front of `tokens` and gives them back in
    /// postfix order, or the first failure.
    ///
    /// On success `tokens` is left empty. On failure the tokens behind the
    /// reported position are left in it.
    pub fn analyze(tokens: &mut VecDeque<Token>) -> (r: Result<Vec<LexerToken>, Error>)
        ensures
            outcome(r) == postfix_of(old(tokens).deep_view()),
            match r {
                Ok(_) => final(tokens)@.len() == 0,
                Err(e) => {
                    &&& e.position matches Some(p)
                    &&& p <= old(tokens)@.len()
                    &&& final(tokens)@ == old(tokens)@.skip(p as int)
                },
            },
    {
        let mut lexer = Lexer::default();
        let ghost all = tokens.deep_view();
        proof {
            assert(tokens@.skip(0) =~= tokens@);
            assert(tokens@.len() == tokens.len());
        }
        loop
            invariant
                all == old(tokens).deep_view(),
                old(tokens)@.len() <= usize::MAX,
                lexer.pointer + tokens@.len() == old(tokens)@.len(),
                tokens@ == old(tokens)@.skip(lexer.pointer as int),
                consumed(start(), all) == consumed(lexer@, tokens.deep_view()),
            ensures
                tokens@.len() == 0,
                lexer.pointer == old(tokens)@.len(),
                tokens@ == old(tokens)@.skip(lexer.pointer as int),
                consumed(start(), all) == Ok::<LexerView, Error>(lexer@),
            decreases tokens@.len(),
        {
            let ghost before = tokens.deep_view();
            let ghost taken = lexer.pointer;
            match tokens.pop_front() {
                Some(t) => {
                    proof {
                        assert(tokens.deep_view() =~= before.drop_first());
                        assert(before[0] == t@);
                        assert(tokens@ =~= old(tokens)@.skip(taken + 1));
                    }
                    match lexer.handle(t) {
                        Ok(()) => {},
                        Err(e) => {
                            return Err(e);
                        },
                    }
                },
                None => {
                    break ;
                },
            }
        }
        if lexer.holds_bracket() {
            return Err(
                Error {
                    fault: Fault::UnmatchedBracket,
                    character: Some('('),
                    position: Some(lexer.pointer),
                },
            );
        }
        lexer.clear_stack();
        Ok(lexer.output)
    }

    /// Takes one token. A closing bracket without its partner leaves the
    /// stack empty and the output as it was.
    fn handle(&mut self, token: Token) -> (r: Result<(), Error>)
        requires
            old(self).pointer < usize::MAX,
        ensures
            match r {
                Ok(()) => handled(old(self)@, token@) == Ok::<LexerView, Error>(final(self)@),
                Err(e) => {
                    &&& handled(old(self)@, token@) == Err::<LexerView, Error>(e)
                    &&& e.position == Some((old(self).pointer + 1) as usize)
                    &&& final(self)@ == (LexerView {
                        stack: seq![],
                        output: old(self)@.output,
                        pointer: old(self)@.pointer + 1,
                    })
                },
            },
    {
        self.pointer = self.pointer + 1;
        match token {
            Token::Digit(d) => {
                let ghost text = d@;
                self.output.push(LexerToken::Digit(d));
                assert(self@ =~= (LexerView {
                    stack: old(self)@.stack,
                    output: old(self)@.output.push(LexerTokenView::Digit(text)),
                    pointer: old(self)@.pointer + 1,
                }));
            },
            Token::Bracket(is_opening) => {
                if is_opening {
                    self.stack.push_back(token);
                    assert(self@ =~= (LexerView {
                        stack: old(self)@.stack.push(TokenView::Bracket(true)),
                        output: old(self)@.output,
                        pointer: old(self)@.pointer + 1,
                    }));
                } else {
                    return self.move_brackets_from_stack();
                }
            },
            Token::Op(op) => {
                self.push_operation(op);
            },
        }
        Ok(())
    }

    /// Lets the operators that bind at least as tightly as `op` go to the
    /// output, then puts `op` on the stack.
    fn push_operation(&mut self, op: Op)
        ensures
            final(self)@ == ({
                let st = old(self)@;
                let k = kept(st.stack, priority(op)) as int;
                LexerView {
                    stack: st.stack.take(k).push(TokenView::Op(op)),
                    output: st.output + unwound(st.stack.skip(k)),
                    pointer: st.pointer,
                }
            }),
    {
        let pushing_priority: u8 = op_priority(op);
        let ghost st = self@;
        proof {
            assert(st.stack.take(st.stack.len() as int) =~= st.stack);
            assert(st.stack.skip(st.stack.len() as int) =~= Seq::<TokenView>::empty());
            assert(st.output + unwound(Seq::<TokenView>::empty()) =~= st.output);
        }
        loop
            invariant
                self.pointer == old(self).pointer,
                st == old(self)@,
                pushing_priority == priority(op),
                self@.stack.len() <= st.stack.len(),
                self@.stack == st.stack.take(self@.stack.len() as int),
                kept(st.stack, pushing_priority) == kept(self@.stack, pushing_priority),
                self@.output == st.output + unwound(st.stack.skip(self@.stack.len() as int)),
            ensures
                self.pointer == old(self).pointer,
                self@.stack.len() == kept(st.stack, pushing_priority),
                self@.stack == st.stack.take(self@.stack.len() as int),
                self@.output == st.output + unwound(st.stack.skip(self@.stack.len() as int)),
            decreases self.stack@.len(),
        {
            let n: usize = self.stack.len();
            if n == 0 {
                break ;
            }
            let ghost cur = self@;
            let top_op = match &self.stack[n - 1] {
                Token::Op(top_op) => *top_op,
                _ => {
                    break ;
                },
            };
            if op_priority(top_op) >= pushing_priority {
                self.output.push(LexerToken::Op(top_op));
                self.stack.pop_back();
                proof {
                    assert(cur.stack.last() == TokenView::Op(top_op));
                    assert(self@.stack =~= cur.stack.drop_last());
                    assert(self@.stack =~= st.stack.take(n - 1));
                    lemma_unwound_skip(st.stack, n as int);
                    lemma_unwound_one(st.stack[n - 1]);
                    assert(self@.output =~= cur.output.push(LexerTokenView::Op(top_op)));
                    assert(self@.output =~= st.output + unwound(st.stack.skip(n - 1)));
                }
            } else {
                break ;
            }
        }
        let ghost mid = self@;
        self.stack.push_back(Token::Op(op));
        assert(self@.stack =~= mid.stack.push(TokenView::Op(op)));
        assert(self@.output =~= mid.output);
    }

    /// Whether an opening bracket waits on the stack.
    fn holds_bracket(&self) -> (b: bool)
        ensures
            b == (open_at(self@.stack) is Some),
    {
        let mut i: usize = self.stack.len();
        proof {
            assert(self@.stack.take(i as int) =~= self@.stack);
        }
        while i > 0
            invariant
                i <= self.stack@.len(),
                open_at(self@.stack) == open_at(self@.stack.take(i as int)),
            decreases i,
        {
            i = i - 1;
            proof {
                assert(self@.stack.take(i + 1).drop_last() =~= self@.stack.take(i as int));
                assert(self@.stack.take(i + 1).last() == self.stack@[i as int]@);
            }
            if let Token::Bracket(is_opening) = &self.stack[i] {
                if *is_opening {
                    return true;
                }
            }
        }
        false
    }

    /// Sends every operator that waits to the output, top first, and empties
    /// the stack. Brackets are passed over.
    fn clear_stack(&mut self)
        ensures
            final(self)@ == (LexerView {
                stack: seq![],
                output: old(self)@.output + unwound(old(self)@.stack),
                pointer: old(self)@.pointer,
            }),
    {
        let ghost st = self@;
        proof {
            assert(st.stack.take(st.stack.len() as int) =~= st.stack);
            assert(st.stack.skip(st.stack.len() as int) =~= Seq::<TokenView>::empty());
            assert(st.output + unwound(Seq::<TokenView>::empty()) =~= st.output);
        }
        loop
            invariant
                self.pointer == old(self).pointer,
                st == old(self)@,
                self@.stack.len() <= st.stack.len(),
                self@.stack == st.stack.take(self@.stack.len() as int),
                self@.output == st.output + unwound(st.stack.skip(self@.stack.len() as int)),
            ensures
                self.pointer == old(self).pointer,
                self@.stack.len() == 0,
                self@.output == st.output + unwound(st.stack.skip(0)),
            decreases self.stack@.len(),
        {
            let ghost cur = self@;
            let ghost n = cur.stack.len() as int;
            match self.stack.pop_back() {
                Some(t) => {
                    proof {
                        assert(self@.stack =~= st.stack.take(n - 1));
                        assert(cur.stack[n - 1] == t@);
                        assert(t@ == st.stack[n - 1]);
                        lemma_unwound_skip(st.stack, n);
                        lemma_unwound_one(st.stack[n - 1]);
                    }
                    if let Token::Op(op) = t {
                        self.output.push(LexerToken::Op(op));
                        proof {
                            assert(self@.output =~= cur.output.push(LexerTokenView::Op(op)));
                            assert(self@.output =~= st.output + unwound(st.stack.skip(n - 1)));
                        }
                    } else {
                        proof {
                            assert(unwound(st.stack.skip(n - 1)) =~= unwound(st.stack.skip(n)));
                        }
                    }
                },
                None => {
                    break ;
                },
            }
        }
        proof {
            assert(st.stack.skip(0) =~= st.stack);
            assert(self@.stack =~= Seq::<TokenView>::empty());
        }
    }

    /// Closes the topmost opening bracket: the operators above it go to the
    /// output, top first, and the bracket is dropped. Without an opening
    /// bracket the stack is emptied in the search, and nothing goes to the
    /// output.
    fn move_brackets_from_stack(&mut self) -> (r: Result<(), Error>)
        ensures
            match open_at(old(self)@.stack) {
                Some(k) => {
                    &&& r is Ok
                    &&& final(self)@ == (LexerView {
                        stack: old(self)@.stack.take(k),
                        output: old(self)@.output + unwound(old(self)@.stack.skip(k + 1)),
                        pointer: old(self)@.pointer,
                    })
                },
                None => {
                    &&& r == Err::<(), Error>(unmatched(')', old(self)@.pointer))
                    &&& final(self)@ == (LexerView {
                        stack: seq![],
                        output: old(self)@.output,
                        pointer: old(self)@.pointer,
                    })
                },
            },
    {
        let ghost st = self@;
        let mut tmp: Vec<Op> = Vec::new();
        proof {
            assert(st.stack.take(st.stack.len() as int) =~= st.stack);
            assert(st.stack.skip(st.stack.len() as int) =~= Seq::<TokenView>::empty());
            assert(ops_of(tmp@) =~= unwound(Seq::<TokenView>::empty()));
        }
        loop
            invariant
                self.pointer == old(self).pointer,
                self@.output == st.output,
                st == old(self)@,
                self@.stack.len() <= st.stack.len(),
                self@.stack == st.stack.take(self@.stack.len() as int),
                open_at(st.stack) == open_at(self@.stack),
                ops_of(tmp@) == unwound(st.stack.skip(self@.stack.len() as int)),
            decreases self.stack@.len(),
        {
            let ghost cur = self@;
            let ghost n = cur.stack.len() as int;
            match self.stack.pop_back() {
                Some(t) => {
                    proof {
                        assert(self@.stack =~= st.stack.take(n - 1));
                        assert(self@.stack =~= cur.stack.drop_last());
                        assert(cur.stack[n - 1] == t@);
                        assert(t@ == st.stack[n - 1]);
                        assert(cur.stack.last() == t@);
                        lemma_unwound_skip(st.stack, n);
                        lemma_unwound_one(st.stack[n - 1]);
                    }
                    match t {
                        Token::Bracket(is_opening) => {
                            if is_opening {
                                self.emit(&tmp);
                                proof {
                                    assert(open_at(st.stack) == Some(n - 1));
                                }
                                return Ok(());
                            }
                            proof {
                                assert(unwound(st.stack.skip(n - 1)) =~= unwound(st.stack.skip(n)));
                            }
                        },
                        Token::Op(op) => {
                            tmp.push(op);
                            proof {
                                assert(ops_of(tmp@) =~= unwound(st.stack.skip(n)).push(
                                    LexerTokenView::Op(op),
                                ));
                                assert(ops_of(tmp@) =~= unwound(st.stack.skip(n - 1)));
                            }
                        },
                        Token::Digit(_) => {
                            proof {
                                assert(unwound(st.stack.skip(n - 1)) =~= unwound(st.stack.skip(n)));
                            }
                        },
                    }
                },
                None => {
                    proof {
                        assert(self@.stack =~= Seq::<TokenView>::empty());
                    }
                    return Err(
                        Error {
                            fault: Fault::UnmatchedBracket,
                            character: Some(')'),
                            position: Some(self.pointer),
                        },
                    );
                },
            }
        }
    }

    /// Appends `ops` to the output, in order.
    fn emit(&mut self, ops: &Vec<Op>)
        ensures
            final(self)@ == (LexerView {
                stack: old(self)@.stack,
                output: old(self)@.output + ops_of(ops@),
                pointer: old(self)@.pointer,
            }),
    {
        let ghost st = self@;
        let mut j: usize = 0;
        proof {
            assert(st.output + ops_of(ops@).take(0) =~= st.output);
        }
        while j < ops.len()
            invariant
                j <= ops@.len(),
                st == old(self)@,
                self.pointer == old(self).pointer,
                self@.stack == st.stack,
                self@.output == st.output + ops_of(ops@).take(j as int),
            decreases ops@.len() - j,
        {
            let ghost cur = self@;
            self.output.push(LexerToken::Op(ops[j]));
            proof {
                assert(self@.output =~= cur.output.push(LexerTokenView::Op(ops@[j as int])));
                assert(self@.output =~= st.output + ops_of(ops@).take(j + 1));
            }
            j = j + 1;
        }
        proof {
            assert(ops_of(ops@).take(ops@.len() as int) =~= ops_of(ops@));
        }
    }
}

} // verus!
