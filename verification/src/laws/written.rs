//! Expressions as they are customarily written are read as they are meant.

use crate::error::Error;
use crate::laws::precedence::{lemma_infix_is_understood, Infix};
use crate::number::{is_digit, is_literal, is_numeric, minus_one_text};
use crate::parser::{parsed, ExprView};
use crate::tokenizer::{
    followed_by, lemma_followed_by_twice, lemma_literal_end_is, lexeme_at, scan, tokens_of,
    Lexeme, Op, TokenView,
};
use vstd::prelude::*;

verus! {

impl Infix {
    /// Whether this expression is a negation: minus one times something.
    pub open spec fn negation(self) -> bool {
        self matches Infix::Binary(left, op, _) && *left == Infix::Number(minus_one_text()) && op
            == Op::Mul
    }

    /// Whether the text of this expression starts with a minus sign.
    pub open spec fn starts_with_sign(self) -> bool
        decreases self,
    {
        match self {
            Infix::Binary(left, _, _) => self.negation() || left.starts_with_sign(),
            _ => false,
        }
    }

    /// Whether this expression can be written: every number is an unsigned
    /// literal, but for the minus one of a negation, and no negation has a
    /// minus sign directly behind its own.
    pub open spec fn writable(self) -> bool
        decreases self,
    {
        match self {
            Infix::Number(text) => is_literal(text),
            Infix::Group(inner) => inner.writable(),
            Infix::Binary(left, _, right) => if self.negation() {
                right.writable() && !right.starts_with_sign()
            } else {
                left.writable() && right.writable()
            },
        }
    }

    /// This expression as text: numbers as they are, brackets around groups,
    /// a minus sign directly before what is negated, and any other operator
    /// between its operands with one space on either side.
    pub open spec fn written(self) -> Seq<char>
        decreases self,
    {
        match self {
            Infix::Number(text) => text,
            Infix::Group(inner) => seq!['('] + inner.written() + seq![')'],
            Infix::Binary(left, op, right) => if self.negation() {
                seq!['-'] + right.written()
            } else {
                left.written() + seq![' ', op.symbol_of(), ' '] + right.written()
            },
        }
    }
}

proof fn lemma_first_character(x: Infix)
    requires
        x.writable(),
        !x.starts_with_sign(),
    ensures
        x.written().len() > 0,
        is_digit(x.written()[0]) || x.written()[0] == '(',
    decreases x,
{
    match x {
        Infix::Binary(left, _, _) => {
            lemma_first_character(*left);
        },
        _ => {},
    }
}

proof fn lemma_part(s: Seq<char>, i: int, w: Seq<char>, from: int, part: Seq<char>)
    requires
        0 <= i,
        i + w.len() <= s.len(),
        s.subrange(i, i + w.len()) == w,
        0 <= from,
        from + part.len() <= w.len(),
        w.subrange(from, from + part.len()) == part,
    ensures
        s.subrange(i + from, i + from + part.len()) == part,
{
    assert forall|k: int| 0 <= k < part.len() implies s.subrange(i + from, i + from + part.len())[k]
        == part[k] by {
        assert(s.subrange(i, i + w.len())[from + k] == w[from + k]);
        assert(w.subrange(from, from + part.len())[k] == part[k]);
    }
    assert(s.subrange(i + from, i + from + part.len()) =~= part);
}

proof fn lemma_at(s: Seq<char>, i: int, w: Seq<char>, k: int)
    requires
        0 <= i,
        i + w.len() <= s.len(),
        s.subrange(i, i + w.len()) == w,
        0 <= k < w.len(),
    ensures
        s[i + k] == w[k],
{
    assert(s.subrange(i, i + w.len())[k] == w[k]);
}

proof fn lemma_scan_number(s: Seq<char>, i: int, text: Seq<char>)
    requires
        is_literal(text),
        0 <= i,
        i + text.len() <= s.len(),
        s.subrange(i, i + text.len()) == text,
        i + text.len() < s.len() ==> !is_numeric(s[i + text.len()]),
    ensures
        scan(s, i) == followed_by(seq![TokenView::Digit(text)], scan(s, i + text.len())),
{
    let n = text.len() as int;
    lemma_at(s, i, text, 0);
    assert forall|k: int| i + 1 <= k < i + n implies is_numeric(#[trigger] s[k]) by {
        lemma_at(s, i, text, k - i);
    }
    lemma_literal_end_is(s, i + 1, i + n);
}

proof fn lemma_scan_token(s: Seq<char>, i: int, c: char, t: TokenView)
    requires
        0 <= i < s.len(),
        s[i] == c,
        c == '(' && t == TokenView::Bracket(true) || c == ')' && t == TokenView::Bracket(false),
    ensures
        scan(s, i) == followed_by(seq![t], scan(s, i + 1)),
{
}

proof fn lemma_scan_sign(s: Seq<char>, i: int)
    requires
        0 <= i,
        i + 1 < s.len(),
        s[i] == '-',
        is_digit(s[i + 1]) || s[i + 1] == '(',
    ensures
        scan(s, i) == followed_by(
            seq![TokenView::Digit(minus_one_text()), TokenView::Op(Op::Mul)],
            scan(s, i + 1),
        ),
{
}

proof fn lemma_scan_operator(s: Seq<char>, i: int, op: Op)
    requires
        0 <= i,
        i + 3 <= s.len(),
        s[i] == ' ',
        s[i + 1] == op.symbol_of(),
        s[i + 2] == ' ',
    ensures
        scan(s, i) == followed_by(seq![TokenView::Op(op)], scan(s, i + 3)),
{
    let middle = seq![TokenView::Op(op)];
    assert(lexeme_at(s, i + 1) == Ok::<Lexeme, Error>(Lexeme { tokens: middle, next: i + 2 }));
    assert(scan(s, i + 2) == scan(s, i + 3)) by {
        if let Ok(tokens) = scan(s, i + 3) {
            assert(Seq::<TokenView>::empty() + tokens =~= tokens);
        }
    }
    assert(scan(s, i) == scan(s, i + 1)) by {
        if let Ok(tokens) = scan(s, i + 1) {
            assert(Seq::<TokenView>::empty() + tokens =~= tokens);
        }
    }
}

proof fn lemma_scan_group(s: Seq<char>, i: int, x: Infix, inner: Infix)
    requires
        x == Infix::Group(Box::new(inner)),
        0 <= i,
        i + x.written().len() <= s.len(),
        s.subrange(i, i + x.written().len()) == x.written(),
    ensures
        s.subrange(i + 1, i + 1 + inner.written().len()) == inner.written(),
        s[i + 1 + inner.written().len()] == ')',
        scan(s, i + 1) == followed_by(inner.tokens(), scan(s, i + 1 + inner.written().len()))
            ==> scan(s, i) == followed_by(x.tokens(), scan(s, i + x.written().len())),
{
    let w = x.written();
    let m = inner.written().len() as int;
    let rest = scan(s, i + w.len());
    let opening = seq![TokenView::Bracket(true)];
    let closing = seq![TokenView::Bracket(false)];
    assert(w.len() == m + 2);
    assert(w[0] == '(');
    assert(w[1 + m] == ')');
    assert(w.subrange(1, 1 + m) =~= inner.written());
    lemma_at(s, i, w, 0);
    lemma_at(s, i, w, 1 + m);
    lemma_part(s, i, w, 1, inner.written());
    lemma_scan_token(s, i, '(', TokenView::Bracket(true));
    lemma_scan_token(s, i + 1 + m, ')', TokenView::Bracket(false));
    lemma_followed_by_twice(inner.tokens(), closing, rest);
    lemma_followed_by_twice(opening, inner.tokens() + closing, rest);
    assert(opening + (inner.tokens() + closing) =~= x.tokens());
}

proof fn lemma_scan_negation(s: Seq<char>, i: int, x: Infix, right: Infix)
    requires
        x == Infix::Binary(Box::new(Infix::Number(minus_one_text())), Op::Mul, Box::new(right)),
        x.writable(),
        0 <= i,
        i + x.written().len() <= s.len(),
        s.subrange(i, i + x.written().len()) == x.written(),
    ensures
        s.subrange(i + 1, i + 1 + right.written().len()) == right.written(),
        i + 1 + right.written().len() == i + x.written().len(),
        scan(s, i + 1) == followed_by(right.tokens(), scan(s, i + x.written().len())) ==> scan(
            s,
            i,
        ) == followed_by(x.tokens(), scan(s, i + x.written().len())),
{
    let w = x.written();
    let n = w.len() as int;
    let rest = scan(s, i + n);
    let sign = seq![TokenView::Digit(minus_one_text()), TokenView::Op(Op::Mul)];
    assert(x.negation());
    lemma_first_character(right);
    assert(w[0] == '-');
    assert(w[1] == right.written()[0]);
    assert(w.subrange(1, n) =~= right.written());
    lemma_at(s, i, w, 0);
    lemma_at(s, i, w, 1);
    lemma_part(s, i, w, 1, right.written());
    lemma_scan_sign(s, i);
    lemma_followed_by_twice(sign, right.tokens(), rest);
    assert(Infix::Number(minus_one_text()).tokens() == seq![TokenView::Digit(minus_one_text())]);
    assert(sign + right.tokens() =~= x.tokens());
}

proof fn lemma_scan_binary(s: Seq<char>, i: int, x: Infix, left: Infix, op: Op, right: Infix)
    requires
        x == Infix::Binary(Box::new(left), op, Box::new(right)),
        !x.negation(),
        0 <= i,
        i + x.written().len() <= s.len(),
        s.subrange(i, i + x.written().len()) == x.written(),
    ensures
        s.subrange(i, i + left.written().len()) == left.written(),
        s[i + left.written().len()] == ' ',
        s.subrange(
            i + left.written().len() + 3,
            i + left.written().len() + 3 + right.written().len(),
        ) == right.written(),
        i + left.written().len() + 3 + right.written().len() == i + x.written().len(),
        scan(s, i) == followed_by(left.tokens(), scan(s, i + left.written().len())) && scan(
            s,
            i + left.written().len() + 3,
        ) == followed_by(right.tokens(), scan(s, i + x.written().len())) ==> scan(s, i)
            == followed_by(x.tokens(), scan(s, i + x.written().len())),
{
    let w = x.written();
    let n = w.len() as int;
    let rest = scan(s, i + n);
    let a = left.written().len() as int;
    let b = right.written().len() as int;
    let middle = seq![TokenView::Op(op)];
    assert(n == a + 3 + b);
    assert(w[a] == ' ');
    assert(w[a + 1] == op.symbol_of());
    assert(w[a + 2] == ' ');
    assert(w.subrange(0, a) =~= left.written());
    assert(w.subrange(a + 3, a + 3 + b) =~= right.written());
    lemma_at(s, i, w, a);
    lemma_at(s, i, w, a + 1);
    lemma_at(s, i, w, a + 2);
    lemma_part(s, i, w, 0, left.written());
    lemma_part(s, i, w, a + 3, right.written());
    lemma_scan_operator(s, i + a, op);
    lemma_followed_by_twice(middle, right.tokens(), rest);
    lemma_followed_by_twice(left.tokens(), middle + right.tokens(), rest);
    assert(left.tokens() + (middle + right.tokens()) =~= x.tokens());
}

proof fn lemma_scan_written(s: Seq<char>, i: int, x: Infix)
    requires
        x.writable(),
        0 <= i,
        i + x.written().len() <= s.len(),
        s.subrange(i, i + x.written().len()) == x.written(),
        i + x.written().len() < s.len() ==> !is_numeric(s[i + x.written().len()]),
    ensures
        scan(s, i) == followed_by(x.tokens(), scan(s, i + x.written().len())),
    decreases x,
{
    match x {
        Infix::Number(text) => {
            lemma_scan_number(s, i, text);
        },
        Infix::Group(inner) => {
            lemma_scan_group(s, i, x, *inner);
            lemma_scan_written(s, i + 1, *inner);
        },
        Infix::Binary(left, op, right) => {
            if x.negation() {
                lemma_scan_negation(s, i, x, *right);
                lemma_scan_written(s, i + 1, *right);
            } else {
                lemma_scan_binary(s, i, x, *left, op, *right);
                lemma_scan_written(s, i, *left);
                lemma_scan_written(s, i + left.written().len() + 3, *right);
            }
        },
    }
}

/// The tokenizer reads written expressions back: from the text of an
/// expression it gives the tokens of that expression.
pub proof fn lemma_written_is_tokenized(x: Infix)
    requires
        x.writable(),
    ensures
        tokens_of(x.written()) == Ok::<Seq<TokenView>, Error>(x.tokens()),
{
    let w = x.written();
    assert(w.subrange(0, w.len() as int) =~= w);
    lemma_scan_written(w, 0, x);
    assert(x.tokens() + Seq::<TokenView>::empty() =~= x.tokens());
}

/// The whole pipeline reads a written expression as it is meant: the text
/// of a well-formed expression is parsed into the tree of that expression,
/// by priority, from the left among equals, and by brackets; a minus sign
/// directly before a number or a bracket multiplies by minus one.
pub proof fn lemma_written_is_parsed(x: Infix)
    requires
        x.writable(),
        x.well_formed(),
    ensures
        parsed(x.written()) == Ok::<ExprView, Error>(x.tree()),
{
    lemma_written_is_tokenized(x);
    lemma_infix_is_understood(x);
}

} // verus!
