//! The builder and postfix notation.

use crate::error::{Error, Fault};
use crate::lexer::LexerTokenView;
use crate::parser::{folded, malformed, pushed, tree_of, unexpected, ExprView};
use vstd::prelude::*;

verus! {

/// The postfix notation of a tree: the left operand, the right operand, then
/// the operator.
pub open spec fn postorder(e: ExprView) -> Seq<LexerTokenView>
    decreases e,
{
    match e {
        ExprView::Inner(left, op, right) => postorder(*left) + postorder(*right)
            + seq![LexerTokenView::Op(op)],
        ExprView::Digit(text) => seq![LexerTokenView::Digit(text)],
    }
}

/// The postfix notations of the trees of `stack`, one after the other.
pub open spec fn flattened(stack: Seq<ExprView>) -> Seq<LexerTokenView>
    decreases stack.len(),
{
    if stack.len() == 0 {
        seq![]
    } else {
        flattened(stack.drop_last()) + postorder(stack.last())
    }
}

/// How many trees wait after the first `k` tokens of a stream that has not
/// failed so far: its numbers less its operators.
pub open spec fn height(tokens: Seq<LexerTokenView>, k: int) -> int
    decreases k,
{
    if k <= 0 {
        0
    } else {
        height(tokens, k - 1) + if tokens[k - 1] is Digit {
            1int
        } else {
            -1int
        }
    }
}

/// Token `k` is an operator with fewer than two operands to take.
pub open spec fn starved(tokens: Seq<LexerTokenView>, k: int) -> bool {
    0 <= k < tokens.len() && tokens[k] is Op && height(tokens, k) < 2
}

/// No token before `k` is a starved operator.
pub open spec fn fed_before(tokens: Seq<LexerTokenView>, k: int) -> bool {
    forall|j: int| 0 <= j < k ==> !starved(tokens, j)
}

proof fn lemma_fold_postorder(
    stack: Seq<ExprView>,
    tokens: Seq<LexerTokenView>,
    i: int,
    e: ExprView,
)
    requires
        0 <= i,
        i + postorder(e).len() <= tokens.len(),
        tokens.subrange(i, i + postorder(e).len()) == postorder(e),
    ensures
        folded(stack, tokens, i) == folded(stack.push(e), tokens, i + postorder(e).len()),
    decreases e,
{
    match e {
        ExprView::Inner(left, op, right) => {
            let a = postorder(*left).len() as int;
            let b = postorder(*right).len() as int;
            let whole = postorder(e);
            assert(whole.len() == a + b + 1);
            assert(tokens.subrange(i, i + a) =~= postorder(*left)) by {
                assert forall|k: int| 0 <= k < a implies tokens.subrange(i, i + a)[k] == postorder(
                    *left,
                )[k] by {
                    assert(tokens.subrange(i, i + whole.len())[k] == whole[k]);
                }
            }
            assert(tokens.subrange(i + a, i + a + b) =~= postorder(*right)) by {
                assert forall|k: int| 0 <= k < b implies tokens.subrange(i + a, i + a + b)[k]
                    == postorder(*right)[k] by {
                    assert(tokens.subrange(i, i + whole.len())[a + k] == whole[a + k]);
                }
            }
            assert(tokens[i + a + b] == LexerTokenView::Op(op)) by {
                assert(tokens.subrange(i, i + whole.len())[a + b] == whole[a + b]);
            }
            lemma_fold_postorder(stack, tokens, i, *left);
            lemma_fold_postorder(stack.push(*left), tokens, i + a, *right);
            let full = stack.push(*left).push(*right);
            assert(full.take(full.len() - 2) =~= stack);
            assert(pushed(full, tokens[i + a + b]) == Some(stack.push(e)));
        },
        ExprView::Digit(text) => {
            assert(tokens.subrange(i, i + 1)[0] == postorder(e)[0]);
        },
    }
}

/// The builder undoes postfix notation: from the postfix notation of a tree
/// it builds that tree.
pub proof fn lemma_build_inverts_postorder(e: ExprView)
    ensures
        tree_of(postorder(e)) == Ok::<ExprView, Error>(e),
{
    let tokens = postorder(e);
    assert(tokens.subrange(0, tokens.len() as int) =~= tokens);
    lemma_fold_postorder(seq![], tokens, 0, e);
    assert(Seq::<ExprView>::empty().push(e)[0] == e);
}

proof fn lemma_flattened_push(stack: Seq<ExprView>, e: ExprView)
    ensures
        flattened(stack.push(e)) == flattened(stack) + postorder(e),
{
    assert(stack.push(e).drop_last() =~= stack);
}

proof fn lemma_pushed_flattened(stack: Seq<ExprView>, token: LexerTokenView)
    requires
        pushed(stack, token) is Some,
    ensures
        flattened(pushed(stack, token)->0) == flattened(stack).push(token),
{
    match token {
        LexerTokenView::Digit(text) => {
            lemma_flattened_push(stack, ExprView::Digit(text));
            assert(flattened(stack) + seq![token] =~= flattened(stack).push(token));
        },
        LexerTokenView::Op(op) => {
            let n = stack.len() as int;
            let left = stack[n - 2];
            let right = stack[n - 1];
            let base = stack.take(n - 2);
            lemma_flattened_push(base, ExprView::Inner(Box::new(left), op, Box::new(right)));
            assert(stack =~= base.push(left).push(right));
            lemma_flattened_push(base.push(left), right);
            lemma_flattened_push(base, left);
            assert(flattened(base) + (postorder(left) + postorder(right) + seq![token])
                =~= (flattened(base) + postorder(left) + postorder(right)).push(token));
        },
    }
}

proof fn lemma_folded_flattened(
    stack: Seq<ExprView>,
    tokens: Seq<LexerTokenView>,
    i: int,
)
    requires
        0 <= i <= tokens.len(),
        folded(stack, tokens, i) is Ok,
    ensures
        flattened(folded(stack, tokens, i)->Ok_0) == flattened(stack) + tokens.skip(i),
    decreases tokens.len() - i,
{
    if i < tokens.len() {
        let next = pushed(stack, tokens[i])->0;
        lemma_pushed_flattened(stack, tokens[i]);
        lemma_folded_flattened(next, tokens, i + 1);
        assert(flattened(stack).push(tokens[i]) + tokens.skip(i + 1) =~= flattened(stack)
            + tokens.skip(i));
    } else {
        assert(flattened(stack) + tokens.skip(i) =~= flattened(stack));
    }
}

/// The builder accepts postfix notation only: a stream from which it builds
/// a tree is the postfix notation of that tree.
pub proof fn lemma_built_from_postorder(tokens: Seq<LexerTokenView>, e: ExprView)
    requires
        tree_of(tokens) == Ok::<ExprView, Error>(e),
    ensures
        postorder(e) == tokens,
{
    let stack = folded(seq![], tokens, 0)->Ok_0;
    lemma_folded_flattened(seq![], tokens, 0);
    assert(tokens.skip(0) =~= tokens);
    assert(stack =~= seq![e]);
    assert(flattened(seq![e]) =~= postorder(e)) by {
        lemma_flattened_push(seq![], e);
        assert(Seq::<ExprView>::empty().push(e) =~= seq![e]);
        assert(flattened(Seq::<ExprView>::empty()) + postorder(e) =~= postorder(e));
    }
    assert(flattened(Seq::<ExprView>::empty()) + tokens =~= tokens);
}

proof fn lemma_folded_verdict(stack: Seq<ExprView>, tokens: Seq<LexerTokenView>, i: int, k: int)
    requires
        0 <= i <= k <= tokens.len(),
        stack.len() == height(tokens, i),
        forall|j: int| i <= j < k ==> !starved(tokens, j),
        k < tokens.len() ==> starved(tokens, k),
    ensures
        k < tokens.len() ==> folded(stack, tokens, i) == Err::<Seq<ExprView>, Error>(
            unexpected(tokens[k]->Op_0, k + 1),
        ),
        k == tokens.len() ==> folded(stack, tokens, i) is Ok && folded(
            stack,
            tokens,
            i,
        )->Ok_0.len() == height(tokens, k),
    decreases tokens.len() - i,
{
    if i < k {
        assert(!starved(tokens, i));
        let next = pushed(stack, tokens[i])->0;
        assert(next.len() == height(tokens, i + 1));
        lemma_folded_verdict(next, tokens, i + 1, k);
    }
}

/// An operator that finds fewer than two operands makes the builder fail,
/// and the first such operator is the one it reports.
pub proof fn lemma_first_starved_is_reported(tokens: Seq<LexerTokenView>, k: int)
    requires
        starved(tokens, k),
        fed_before(tokens, k),
    ensures
        tree_of(tokens) == Err::<ExprView, Error>(unexpected(tokens[k]->Op_0, k + 1)),
{
    lemma_folded_verdict(seq![], tokens, 0, k);
}

/// A stream with a starved operator anywhere in it is rejected for an
/// unexpected operation.
pub proof fn lemma_starved_is_rejected(tokens: Seq<LexerTokenView>, k: int)
    requires
        starved(tokens, k),
    ensures
        tree_of(tokens) is Err,
        tree_of(tokens)->Err_0.fault == Fault::UnexpectedOperation,
    decreases k,
{
    if fed_before(tokens, k) {
        lemma_first_starved_is_reported(tokens, k);
    } else {
        let j = choose|j: int| 0 <= j < k && starved(tokens, j);
        lemma_starved_is_rejected(tokens, j);
    }
}

/// A stream without a starved operator is accepted exactly when it holds one
/// number more than it holds operators; otherwise it is malformed.
pub proof fn lemma_fed_verdict(tokens: Seq<LexerTokenView>)
    requires
        fed_before(tokens, tokens.len() as int),
    ensures
        tree_of(tokens) is Ok <==> height(tokens, tokens.len() as int) == 1,
        tree_of(tokens) is Err ==> tree_of(tokens) == Err::<ExprView, Error>(malformed()),
{
    lemma_folded_verdict(seq![], tokens, 0, tokens.len() as int);
}

/// The builder succeeds exactly on streams in which every operator finds
/// two operands and which hold one number more than they hold operators.
pub proof fn lemma_built_iff_fed(tokens: Seq<LexerTokenView>)
    ensures
        tree_of(tokens) is Ok <==> fed_before(tokens, tokens.len() as int) && height(
            tokens,
            tokens.len() as int,
        ) == 1,
{
    if fed_before(tokens, tokens.len() as int) {
        lemma_fed_verdict(tokens);
    } else {
        let j = choose|j: int| 0 <= j < tokens.len() && starved(tokens, j);
        lemma_starved_is_rejected(tokens, j);
    }
}

} // verus!
