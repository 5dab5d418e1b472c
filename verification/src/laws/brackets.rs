//! The converter and the balance of brackets.

use crate::error::{Error, Fault};
use crate::lexer::{
    consumed, handled, kept, open_at, postfix_of, start, unmatched, LexerTokenView, LexerView,
};
use crate::tokenizer::TokenView;
use vstd::prelude::*;

verus! {

/// How many brackets stand open after the first `k` tokens: the opening ones
/// less the closing ones.
pub open spec fn depth(tokens: Seq<TokenView>, k: int) -> int
    decreases k,
{
    if k <= 0 {
        0
    } else {
        depth(tokens, k - 1) + match tokens[k - 1] {
            TokenView::Bracket(true) => 1int,
            TokenView::Bracket(false) => -1int,
            _ => 0int,
        }
    }
}

/// Token `k` is a closing bracket where none stands open.
pub open spec fn stray(tokens: Seq<TokenView>, k: int) -> bool {
    0 <= k < tokens.len() && tokens[k] == TokenView::Bracket(false) && depth(tokens, k) <= 0
}

/// No token before `k` is a stray closing bracket.
pub open spec fn matched_before(tokens: Seq<TokenView>, k: int) -> bool {
    forall|j: int| 0 <= j < k ==> !stray(tokens, j)
}

/// How many opening brackets `stack` holds.
pub open spec fn opens(stack: Seq<TokenView>) -> nat
    decreases stack.len(),
{
    if stack.len() == 0 {
        0
    } else {
        opens(stack.drop_last()) + if stack.last() == TokenView::Bracket(true) {
            1nat
        } else {
            0nat
        }
    }
}

proof fn lemma_opens_push(stack: Seq<TokenView>, t: TokenView)
    ensures
        opens(stack.push(t)) == opens(stack) + if t == TokenView::Bracket(true) {
            1nat
        } else {
            0nat
        },
{
    assert(stack.push(t).drop_last() =~= stack);
}

proof fn lemma_open_at(stack: Seq<TokenView>)
    ensures
        open_at(stack) is Some <==> opens(stack) > 0,
        open_at(stack) matches Some(k) ==> 0 <= k < stack.len() && opens(stack.take(k)) + 1
            == opens(stack),
    decreases stack.len(),
{
    if stack.len() > 0 {
        if stack.last() == TokenView::Bracket(true) {
            assert(stack.take(stack.len() - 1) =~= stack.drop_last());
        } else {
            lemma_open_at(stack.drop_last());
            if let Some(k) = open_at(stack) {
                assert(stack.take(k) =~= stack.drop_last().take(k));
            }
        }
    }
}

proof fn lemma_kept_opens(stack: Seq<TokenView>, p: u8)
    ensures
        kept(stack, p) <= stack.len(),
        opens(stack.take(kept(stack, p) as int)) == opens(stack),
    decreases stack.len(),
{
    if stack.len() > 0 && crate::lexer::yields(stack.last(), p) {
        lemma_kept_opens(stack.drop_last(), p);
        assert(stack.take(kept(stack, p) as int) =~= stack.drop_last().take(
            kept(stack, p) as int,
        ));
    } else {
        assert(stack.take(stack.len() as int) =~= stack);
    }
}

proof fn lemma_handled_opens(st: LexerView, token: TokenView)
    ensures
        match handled(st, token) {
            Ok(next) => {
                &&& next.pointer == st.pointer + 1
                &&& opens(next.stack) == opens(st.stack) + match token {
                    TokenView::Bracket(true) => 1int,
                    TokenView::Bracket(false) => -1int,
                    _ => 0int,
                }
            },
            Err(e) => {
                &&& token == TokenView::Bracket(false)
                &&& opens(st.stack) == 0
                &&& e == unmatched(')', st.pointer + 1)
            },
        },
{
    match token {
        TokenView::Digit(_) => {},
        TokenView::Bracket(true) => {
            lemma_opens_push(st.stack, token);
        },
        TokenView::Bracket(false) => {
            lemma_open_at(st.stack);
        },
        TokenView::Op(op) => {
            let k = kept(st.stack, crate::lexer::priority(op)) as int;
            lemma_kept_opens(st.stack, crate::lexer::priority(op));
            lemma_opens_push(st.stack.take(k), token);
        },
    }
}

proof fn lemma_consumed_verdict(st: LexerView, tokens: Seq<TokenView>, i: int, k: int)
    requires
        0 <= i <= k <= tokens.len(),
        st.pointer == i,
        opens(st.stack) == depth(tokens, i),
        forall|j: int| i <= j < k ==> !stray(tokens, j),
        k < tokens.len() ==> stray(tokens, k),
    ensures
        k < tokens.len() ==> consumed(st, tokens.skip(i)) == Err::<LexerView, Error>(
            unmatched(')', (k + 1) as nat),
        ),
        k == tokens.len() ==> {
            &&& consumed(st, tokens.skip(i)) matches Ok(end)
            &&& end.pointer == tokens.len()
            &&& opens(end.stack) == depth(tokens, k)
        },
    decreases tokens.len() - i,
{
    let rest = tokens.skip(i);
    if i < tokens.len() {
        assert(rest[0] == tokens[i]);
        assert(rest.drop_first() =~= tokens.skip(i + 1));
        lemma_handled_opens(st, tokens[i]);
        if i < k {
            assert(!stray(tokens, i));
            lemma_consumed_verdict(handled(st, tokens[i])->Ok_0, tokens, i + 1, k);
        }
    }
}

/// A closing bracket where none stands open makes the converter fail, and
/// the first such bracket is the one it reports.
pub proof fn lemma_first_stray_is_reported(tokens: Seq<TokenView>, k: int)
    requires
        stray(tokens, k),
        matched_before(tokens, k),
    ensures
        postfix_of(tokens) == Err::<Seq<LexerTokenView>, Error>(unmatched(')', (k + 1) as nat)),
{
    lemma_consumed_verdict(start(), tokens, 0, k);
    assert(tokens.skip(0) =~= tokens);
}

/// Without a stray closing bracket, a bracket that is still open at the end
/// makes the converter fail there.
pub proof fn lemma_open_is_reported(tokens: Seq<TokenView>)
    requires
        matched_before(tokens, tokens.len() as int),
        depth(tokens, tokens.len() as int) > 0,
    ensures
        postfix_of(tokens) == Err::<Seq<LexerTokenView>, Error>(unmatched('(', tokens.len())),
{
    lemma_consumed_verdict(start(), tokens, 0, tokens.len() as int);
    assert(tokens.skip(0) =~= tokens);
    lemma_open_at(consumed(start(), tokens)->Ok_0.stack);
}

/// The converter fails on unbalanced brackets only: tokens whose brackets
/// pair up are converted.
pub proof fn lemma_balanced_is_converted(tokens: Seq<TokenView>)
    requires
        matched_before(tokens, tokens.len() as int),
        depth(tokens, tokens.len() as int) == 0,
    ensures
        postfix_of(tokens) is Ok,
{
    lemma_consumed_verdict(start(), tokens, 0, tokens.len() as int);
    assert(tokens.skip(0) =~= tokens);
    lemma_open_at(consumed(start(), tokens)->Ok_0.stack);
}

/// A stray closing bracket anywhere makes the converter fail for an
/// unmatched bracket.
pub proof fn lemma_stray_is_rejected(tokens: Seq<TokenView>, k: int)
    requires
        stray(tokens, k),
    ensures
        postfix_of(tokens) is Err,
        postfix_of(tokens)->Err_0.fault == Fault::UnmatchedBracket,
    decreases k,
{
    if matched_before(tokens, k) {
        lemma_first_stray_is_reported(tokens, k);
    } else {
        let j = choose|j: int| 0 <= j < k && stray(tokens, j);
        lemma_stray_is_rejected(tokens, j);
    }
}

/// The converter succeeds exactly on tokens whose brackets pair up: no
/// closing bracket comes where none stands open, and none stands open at the
/// end.
pub proof fn lemma_converted_iff_balanced(tokens: Seq<TokenView>)
    ensures
        postfix_of(tokens) is Ok <==> matched_before(tokens, tokens.len() as int) && depth(
            tokens,
            tokens.len() as int,
        ) == 0,
{
    let n = tokens.len() as int;
    if matched_before(tokens, n) {
        lemma_consumed_verdict(start(), tokens, 0, n);
        assert(tokens.skip(0) =~= tokens);
        if depth(tokens, n) > 0 {
            lemma_open_is_reported(tokens);
        } else {
            lemma_balanced_is_converted(tokens);
        }
    } else {
        let j = choose|j: int| 0 <= j < n && stray(tokens, j);
        lemma_stray_is_rejected(tokens, j);
    }
}

} // verus!
