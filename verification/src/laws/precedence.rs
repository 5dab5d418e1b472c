//! The converter reads infix notation as priorities and brackets say.

use crate::error::Error;
use crate::laws::builder::{lemma_build_inverts_postorder, postorder};
use crate::lexer::{
    consumed, handled, kept, open_at, postfix_of, priority, start, unwound, yields,
    LexerTokenView, LexerView,
};
use crate::parser::{tree_of, ExprView};
use crate::tokenizer::{Op, TokenView};
use vstd::prelude::*;

verus! {

/// An expression as it is written: with its brackets.
pub enum Infix {
    /// A number.
    Number(Seq<char>),
    /// An expression in brackets.
    Group(Box<Infix>),
    /// Left operand, operator, right operand.
    Binary(Box<Infix>, Op, Box<Infix>),
}

impl Infix {
    /// How tightly this expression holds together: as its operator binds,
    /// or, for a number or a group, more tightly than any operator.
    pub open spec fn level(self) -> u8 {
        match self {
            Infix::Binary(_, op, _) => priority(op),
            _ => 6,
        }
    }

    /// Whether the brackets are where they have to be: an operand without
    /// brackets holds together at least as tightly as the operator on its
    /// right, and more tightly than the operator on its left.
    pub open spec fn well_formed(self) -> bool
        decreases self,
    {
        match self {
            Infix::Number(_) => true,
            Infix::Group(inner) => inner.well_formed(),
            Infix::Binary(left, op, right) => {
                &&& left.well_formed()
                &&& right.well_formed()
                &&& left.level() >= priority(op)
                &&& right.level() > priority(op)
            },
        }
    }

    /// The tokens that write this expression.
    pub open spec fn tokens(self) -> Seq<TokenView>
        decreases self,
    {
        match self {
            Infix::Number(text) => seq![TokenView::Digit(text)],
            Infix::Group(inner) => seq![TokenView::Bracket(true)] + inner.tokens()
                + seq![TokenView::Bracket(false)],
            Infix::Binary(left, op, right) => left.tokens() + seq![TokenView::Op(op)]
                + right.tokens(),
        }
    }

    /// The tree that this expression means: brackets only group.
    pub open spec fn tree(self) -> ExprView
        decreases self,
    {
        match self {
            Infix::Number(text) => ExprView::Digit(text),
            Infix::Group(inner) => inner.tree(),
            Infix::Binary(left, op, right) => ExprView::Inner(
                Box::new(left.tree()),
                op,
                Box::new(right.tree()),
            ),
        }
    }

    /// The operators of this expression that still wait on the stack when
    /// its last token is taken, the latest last.
    spec fn pending(self) -> Seq<TokenView>
        decreases self,
    {
        match self {
            Infix::Binary(_, op, right) => seq![TokenView::Op(op)] + right.pending(),
            _ => seq![],
        }
    }

    /// What this expression has sent to the output when its last token is
    /// taken.
    spec fn emitted(self) -> Seq<LexerTokenView>
        decreases self,
    {
        match self {
            Infix::Number(text) => seq![LexerTokenView::Digit(text)],
            Infix::Group(inner) => postorder(inner.tree()),
            Infix::Binary(left, _, right) => postorder(left.tree()) + right.emitted(),
        }
    }
}

/// Every entry of `stack` is an operator that binds at least as tightly as
/// `p`.
spec fn binds_from(stack: Seq<TokenView>, p: u8) -> bool {
    forall|i: int|
        0 <= i < stack.len() ==> (#[trigger] stack[i] matches TokenView::Op(op) && priority(op)
            >= p)
}

/// Nothing on `stack` gives way to an operator of priority `p`.
spec fn settled(stack: Seq<TokenView>, p: u8) -> bool {
    kept(stack, p) == stack.len()
}

proof fn lemma_consumed_concat(st: LexerView, a: Seq<TokenView>, b: Seq<TokenView>)
    ensures
        consumed(st, a + b) == match consumed(st, a) {
            Ok(mid) => consumed(mid, b),
            Err(e) => Err(e),
        },
    decreases a.len(),
{
    if a.len() == 0 {
        assert(a + b =~= b);
    } else {
        assert((a + b)[0] == a[0]);
        assert((a + b).drop_first() =~= a.drop_first() + b);
        if let Ok(next) = handled(st, a[0]) {
            lemma_consumed_concat(next, a.drop_first(), b);
        }
    }
}

proof fn lemma_consumed_one(st: LexerView, t: TokenView)
    ensures
        consumed(st, seq![t]) == handled(st, t),
{
    reveal_with_fuel(consumed, 2);
    assert(seq![t].drop_first() =~= Seq::<TokenView>::empty());
}

proof fn lemma_unwound_concat(a: Seq<TokenView>, b: Seq<TokenView>)
    ensures
        unwound(a + b) == unwound(b) + unwound(a),
    decreases b.len(),
{
    if b.len() == 0 {
        assert(a + b =~= a);
        assert(unwound(b) + unwound(a) =~= unwound(a));
    } else {
        lemma_unwound_concat(a, b.drop_last());
        assert((a + b).drop_last() =~= a + b.drop_last());
        assert((a + b).last() == b.last());
        match b.last() {
            TokenView::Op(op) => {
                assert(seq![LexerTokenView::Op(op)] + (unwound(b.drop_last()) + unwound(a)) =~= (
                seq![LexerTokenView::Op(op)] + unwound(b.drop_last())) + unwound(a));
            },
            _ => {},
        }
    }
}

proof fn lemma_kept_over(stack: Seq<TokenView>, above: Seq<TokenView>, p: u8)
    requires
        binds_from(above, p),
    ensures
        kept(stack + above, p) == kept(stack, p),
    decreases above.len(),
{
    if above.len() == 0 {
        assert(stack + above =~= stack);
    } else {
        assert((stack + above).last() == above.last());
        assert(yields(above[above.len() - 1], p));
        assert((stack + above).drop_last() =~= stack + above.drop_last());
        assert(binds_from(above.drop_last(), p)) by {
            assert forall|i: int| 0 <= i < above.drop_last().len() implies (
            #[trigger] above.drop_last()[i] matches TokenView::Op(op) && priority(op) >= p) by {
                assert(above.drop_last()[i] == above[i]);
            }
        }
        lemma_kept_over(stack, above.drop_last(), p);
    }
}

proof fn lemma_open_at_over(stack: Seq<TokenView>, above: Seq<TokenView>, p: u8)
    requires
        binds_from(above, p),
    ensures
        open_at(stack + above) == open_at(stack),
    decreases above.len(),
{
    if above.len() == 0 {
        assert(stack + above =~= stack);
    } else {
        assert((stack + above).last() == above.last());
        assert(above[above.len() - 1] is Op);
        assert((stack + above).drop_last() =~= stack + above.drop_last());
        assert(binds_from(above.drop_last(), p)) by {
            assert forall|i: int| 0 <= i < above.drop_last().len() implies (
            #[trigger] above.drop_last()[i] matches TokenView::Op(op) && priority(op) >= p) by {
                assert(above.drop_last()[i] == above[i]);
            }
        }
        lemma_open_at_over(stack, above.drop_last(), p);
    }
}

proof fn lemma_settled_rises(stack: Seq<TokenView>, p: u8, q: u8)
    requires
        settled(stack, p),
        p <= q,
    ensures
        settled(stack, q),
{
    if stack.len() > 0 && yields(stack.last(), p) {
        lemma_kept_bound(stack.drop_last(), p);
    }
}

proof fn lemma_kept_bound(stack: Seq<TokenView>, p: u8)
    ensures
        kept(stack, p) <= stack.len(),
    decreases stack.len(),
{
    if stack.len() > 0 && yields(stack.last(), p) {
        lemma_kept_bound(stack.drop_last(), p);
    }
}

proof fn lemma_settled_push(stack: Seq<TokenView>, t: TokenView, p: u8)
    requires
        !yields(t, p),
    ensures
        settled(stack.push(t), p),
{
    assert(stack.push(t).last() == t);
}

proof fn lemma_pending(x: Infix)
    requires
        x.well_formed(),
    ensures
        binds_from(x.pending(), x.level()),
        x.level() == 6 ==> x.pending().len() == 0,
        x.emitted() + unwound(x.pending()) == postorder(x.tree()),
    decreases x,
{
    match x {
        Infix::Number(text) => {
            assert(x.emitted() + unwound(x.pending()) =~= x.emitted());
        },
        Infix::Group(inner) => {
            assert(x.emitted() + unwound(x.pending()) =~= x.emitted());
        },
        Infix::Binary(left, op, right) => {
            lemma_pending(*right);
            let first = seq![TokenView::Op(op)];
            assert forall|i: int| 0 <= i < x.pending().len() implies (
            #[trigger] x.pending()[i] matches TokenView::Op(o) && priority(o) >= priority(op)) by {
                if i > 0 {
                    assert(x.pending()[i] == right.pending()[i - 1]);
                }
            }
            lemma_unwound_concat(first, right.pending());
            crate::lexer::lemma_unwound_one(TokenView::Op(op));
            assert(postorder(left.tree()) + right.emitted() + (unwound(right.pending())
                + seq![LexerTokenView::Op(op)]) =~= postorder(left.tree()) + (right.emitted()
                + unwound(right.pending())) + seq![LexerTokenView::Op(op)]);
        },
    }
}

proof fn lemma_consume_infix(st: LexerView, x: Infix)
    requires
        x.well_formed(),
        settled(st.stack, x.level()),
    ensures
        consumed(st, x.tokens()) == Ok::<LexerView, Error>(
            LexerView {
                stack: st.stack + x.pending(),
                output: st.output + x.emitted(),
                pointer: st.pointer + x.tokens().len(),
            },
        ),
    decreases x,
{
    match x {
        Infix::Number(text) => {
            lemma_consumed_one(st, TokenView::Digit(text));
            assert(st.stack + x.pending() =~= st.stack);
            assert(st.output + x.emitted() =~= st.output.push(LexerTokenView::Digit(text)));
        },
        Infix::Group(inner) => {
            let opening = seq![TokenView::Bracket(true)];
            let closing = seq![TokenView::Bracket(false)];
            let st1 = LexerView {
                stack: st.stack.push(TokenView::Bracket(true)),
                output: st.output,
                pointer: st.pointer + 1,
            };
            let st2 = LexerView {
                stack: st1.stack + inner.pending(),
                output: st1.output + inner.emitted(),
                pointer: st1.pointer + inner.tokens().len(),
            };
            lemma_consumed_one(st, TokenView::Bracket(true));
            lemma_settled_push(st.stack, TokenView::Bracket(true), inner.level());
            lemma_consume_infix(st1, *inner);
            lemma_pending(*inner);
            lemma_open_at_over(st1.stack, inner.pending(), inner.level());
            assert(st1.stack.drop_last() =~= st.stack);
            let k = st.stack.len() as int;
            assert(open_at(st2.stack) == Some(k));
            assert(st2.stack.take(k) =~= st.stack);
            assert(st2.stack.skip(k + 1) =~= inner.pending());
            lemma_consumed_one(st2, TokenView::Bracket(false));
            assert(st2.output + unwound(inner.pending()) =~= st.output + (inner.emitted()
                + unwound(inner.pending())));
            assert(st.stack + x.pending() =~= st.stack);
            lemma_consumed_concat(st, opening, inner.tokens() + closing);
            lemma_consumed_concat(st1, inner.tokens(), closing);
            assert(opening + (inner.tokens() + closing) =~= x.tokens());
        },
        Infix::Binary(left, op, right) => {
            let p = priority(op);
            let middle = seq![TokenView::Op(op)];
            let st1 = LexerView {
                stack: st.stack + left.pending(),
                output: st.output + left.emitted(),
                pointer: st.pointer + left.tokens().len(),
            };
            let st2 = LexerView {
                stack: st.stack.push(TokenView::Op(op)),
                output: st.output + postorder(left.tree()),
                pointer: st1.pointer + 1,
            };
            lemma_settled_rises(st.stack, p, left.level());
            lemma_consume_infix(st, *left);
            lemma_pending(*left);
            assert(binds_from(left.pending(), p));
            lemma_kept_over(st.stack, left.pending(), p);
            let k = st.stack.len() as int;
            assert(st1.stack.take(k) =~= st.stack);
            assert(st1.stack.skip(k) =~= left.pending());
            assert(st1.output + unwound(left.pending()) =~= st.output + (left.emitted()
                + unwound(left.pending())));
            lemma_consumed_one(st1, TokenView::Op(op));
            assert(handled(st1, TokenView::Op(op)) == Ok::<LexerView, Error>(st2));
            lemma_settled_push(st.stack, TokenView::Op(op), right.level());
            lemma_consume_infix(st2, *right);
            assert(st2.stack + right.pending() =~= st.stack + x.pending());
            assert(st2.output + right.emitted() =~= st.output + x.emitted());
            lemma_consumed_concat(st, left.tokens(), middle + right.tokens());
            lemma_consumed_concat(st1, middle, right.tokens());
            assert(left.tokens() + (middle + right.tokens()) =~= x.tokens());
        },
    }
}

/// The converter reads an expression as its priorities and brackets say:
/// from the tokens of a well-formed expression it gives the postfix notation
/// of the tree that the expression means. Operators of equal priority group
/// from the left, and brackets group whatever they hold.
pub proof fn lemma_infix_is_converted(x: Infix)
    requires
        x.well_formed(),
    ensures
        postfix_of(x.tokens()) == Ok::<Seq<LexerTokenView>, Error>(postorder(x.tree())),
{
    lemma_consume_infix(start(), x);
    lemma_pending(x);
    lemma_open_at_over(seq![], x.pending(), x.level());
    assert(Seq::<TokenView>::empty() + x.pending() =~= x.pending());
    assert(Seq::<LexerTokenView>::empty() + x.emitted() =~= x.emitted());
}

/// Converter and builder together recover the tree of a well-formed
/// expression from its tokens.
pub proof fn lemma_infix_is_understood(x: Infix)
    requires
        x.well_formed(),
    ensures
        postfix_of(x.tokens()) matches Ok(postfix) && tree_of(postfix) == Ok::<ExprView, Error>(
            x.tree(),
        ),
{
    lemma_infix_is_converted(x);
    lemma_build_inverts_postorder(x.tree());
}

} // verus!
