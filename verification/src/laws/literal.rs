//! A number alone is an expression.

use crate::error::Error;
use crate::laws::evaluation::value;
use crate::lexer::{consumed, postfix_of, LexerTokenView};
use crate::number::is_literal;
use crate::parser::{folded, parsed, tree_of, ExprView};
use crate::tokenizer::{
    is_space, lemma_literal_end_is, lexeme_at, scan, tokens_of, Op, TokenView,
};
use vstd::prelude::*;

verus! {

/// `s` holds white space only.
pub open spec fn all_space(s: Seq<char>) -> bool {
    forall|i: int| 0 <= i < s.len() ==> is_space(#[trigger] s[i])
}

proof fn lemma_scan_spaces(s: Seq<char>, i: int, j: int)
    requires
        0 <= i <= j <= s.len(),
        forall|k: int| i <= k < j ==> is_space(#[trigger] s[k]),
    ensures
        scan(s, i) == scan(s, j),
    decreases j - i,
{
    if i < j {
        lemma_scan_spaces(s, i + 1, j);
        assert(is_space(s[i]));
        if let Ok(tokens) = scan(s, i + 1) {
            assert(Seq::<TokenView>::empty() + tokens =~= tokens);
        }
    }
}

/// A literal with white space around it is one token: that number.
pub proof fn lemma_bare_literal_tokens(before: Seq<char>, literal: Seq<char>, after: Seq<char>)
    requires
        all_space(before),
        all_space(after),
        is_literal(literal),
    ensures
        tokens_of(before + literal + after) == Ok::<Seq<TokenView>, Error>(
            seq![TokenView::Digit(literal)],
        ),
{
    let s = before + literal + after;
    let from = before.len() as int;
    let to = from + literal.len();
    assert forall|k: int| 0 <= k < from implies is_space(#[trigger] s[k]) by {
        assert(s[k] == before[k]);
    }
    assert forall|k: int| to <= k < s.len() implies is_space(#[trigger] s[k]) by {
        assert(s[k] == after[k - to]);
    }
    assert forall|k: int| from <= k < to implies crate::number::is_numeric(#[trigger] s[k]) by {
        assert(s[k] == literal[k - from]);
    }
    lemma_scan_spaces(s, 0, from);
    lemma_scan_spaces(s, to, s.len() as int);
    assert(s[from] == literal[0]);
    lemma_literal_end_is(s, from + 1, to);
    assert(s.subrange(from, to) =~= literal);
    assert(lexeme_at(s, from)->Ok_0.tokens == seq![TokenView::Digit(literal)]);
    assert(seq![TokenView::Digit(literal)] + Seq::<TokenView>::empty() =~= seq![
        TokenView::Digit(literal),
    ]);
}

/// A single number is its own postfix stream.
pub proof fn lemma_number_postfix(text: Seq<char>)
    ensures
        postfix_of(seq![TokenView::Digit(text)]) == Ok::<Seq<LexerTokenView>, Error>(
            seq![LexerTokenView::Digit(text)],
        ),
{
    let tokens = seq![TokenView::Digit(text)];
    reveal_with_fuel(consumed, 2);
    assert(tokens.drop_first() =~= Seq::<TokenView>::empty());
    assert(Seq::<LexerTokenView>::empty().push(LexerTokenView::Digit(text))
        + Seq::<LexerTokenView>::empty() =~= seq![LexerTokenView::Digit(text)]);
}

/// The tree of a single number is that number.
pub proof fn lemma_number_tree(text: Seq<char>)
    ensures
        tree_of(seq![LexerTokenView::Digit(text)]) == Ok::<ExprView, Error>(ExprView::Digit(text)),
{
    reveal_with_fuel(folded, 2);
}

/// A literal alone, with or without white space around it, is parsed as that
/// number.
pub proof fn lemma_bare_literal(before: Seq<char>, literal: Seq<char>, after: Seq<char>)
    requires
        all_space(before),
        all_space(after),
        is_literal(literal),
    ensures
        parsed(before + literal + after) == Ok::<ExprView, Error>(ExprView::Digit(literal)),
{
    lemma_bare_literal_tokens(before, literal, after);
    lemma_number_postfix(literal);
    lemma_number_tree(literal);
}

/// A literal alone evaluates to its own value, in every arithmetic.
pub proof fn lemma_bare_literal_value<T>(
    before: Seq<char>,
    literal: Seq<char>,
    after: Seq<char>,
    number: spec_fn(Seq<char>) -> T,
    operate: spec_fn(Op, T, T) -> T,
)
    requires
        all_space(before),
        all_space(after),
        is_literal(literal),
    ensures
        parsed(before + literal + after) matches Ok(tree) && value(tree, number, operate) == number(
            literal,
        ),
{
    lemma_bare_literal(before, literal, after);
}

} // verus!
