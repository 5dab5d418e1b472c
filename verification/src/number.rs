//! Decimal numbers, held as the text that denotes them.

use crate::text::chars_of;
use vstd::prelude::*;

verus! {

/// An ASCII digit.
pub open spec fn is_digit(c: char) -> bool {
    '0' <= c <= '9'
}

/// A character that continues a number: a digit or the decimal point.
pub open spec fn is_numeric(c: char) -> bool {
    is_digit(c) || c == '.'
}

/// How many decimal points `t` holds.
pub open spec fn dots(t: Seq<char>) -> nat
    decreases t.len(),
{
    if t.len() == 0 {
        0
    } else {
        dots(t.drop_last()) + if t.last() == '.' {
            1nat
        } else {
            0nat
        }
    }
}

/// An unsigned decimal literal: a digit, then digits with at most one decimal
/// point among them (`7`, `7.`, `7.25`).
pub open spec fn is_literal(t: Seq<char>) -> bool {
    &&& t.len() > 0
    &&& is_digit(t[0])
    &&& forall|i: int| 0 <= i < t.len() ==> is_numeric(#[trigger] t[i])
    &&& dots(t) <= 1
}

/// A decimal number: a literal, or `-` and a literal.
pub open spec fn is_number(t: Seq<char>) -> bool {
    is_literal(t) || (t.len() > 0 && t[0] == '-' && is_literal(t.skip(1)))
}

/// The text of minus one.
pub open spec fn minus_one_text() -> Seq<char> {
    seq!['-', '1']
}

/// Counting the points of a text one character longer.
pub proof fn lemma_dots_push(t: Seq<char>, c: char)
    ensures
        dots(t.push(c)) == dots(t) + if c == '.' {
            1nat
        } else {
            0nat
        },
{
    assert(t.push(c).drop_last() =~= t);
}

/// A decimal number whose value is exactly what its text says.
///
/// The view is the text: `12.50` and `12.5` are different numbers that
/// happen to denote the same quantity.
#[derive(Debug, PartialEq, Eq)]
pub struct Number {
    text: Vec<char>,
}

impl View for Number {
    type V = Seq<char>;

    closed spec fn view(&self) -> Seq<char> {
        self.text@
    }
}

impl DeepView for Number {
    type V = Seq<char>;

    open spec fn deep_view(&self) -> Seq<char> {
        self@
    }
}

impl Number {
    #[verifier::type_invariant]
    spec fn well_formed(&self) -> bool {
        is_number(self.text@)
    }

    /// Minus one, the factor that stands for a negation.
    pub fn minus_one() -> (n: Number)
        ensures
            n@ == minus_one_text(),
    {
        let mut text: Vec<char> = Vec::new();
        text.push('-');
        text.push('1');
        proof {
            let t = text@;
            assert(t.skip(1) =~= seq!['1']);
            assert(dots(seq!['1']) == 0) by {
                reveal_with_fuel(dots, 2);
                assert(seq!['1'].drop_last() =~= Seq::<char>::empty());
            }
            assert(is_literal(t.skip(1)));
        }
        Number { text }
    }

    /// The number that `text` denotes, if it denotes one.
    pub fn from_chars(text: Vec<char>) -> (r: Option<Number>)
        ensures
            r is Some <==> is_number(text@),
            r is Some ==> r->0@ == text@,
    {
        let n: usize = text.len();
        let start: usize = if n > 0 && text[0] == '-' {
            1
        } else {
            0
        };
        let ghost body = text@.skip(start as int);
        proof {
            if start == 0 {
                assert(body =~= text@);
                if n > 0 {
                    assert(!is_digit('-'));
                }
            } else {
                assert(!is_literal(text@));
            }
            assert(is_number(text@) <==> is_literal(body));
        }
        if start >= n || !(text[start] >= '0' && text[start] <= '9') {
            return None;
        }
        let mut points: usize = 0;
        let mut k: usize = start;
        while k < n
            invariant
                start <= k <= n,
                n == text@.len(),
                body == text@.skip(start as int),
                is_number(text@) <==> is_literal(body),
                points == dots(body.take(k - start)),
                points <= k - start,
                forall|i: int| 0 <= i < k - start ==> is_numeric(#[trigger] body[i]),
            decreases n - k,
        {
            let c = text[k];
            proof {
                assert(body.take(k - start + 1) =~= body.take(k - start).push(c));
                lemma_dots_push(body.take(k - start), c);
            }
            if c == '.' {
                points = points + 1;
            } else if !(c >= '0' && c <= '9') {
                assert(body[k - start] == c);
                assert(!is_literal(body));
                return None;
            }
            k = k + 1;
        }
        proof {
            assert(body.take(n - start) =~= body);
        }
        if points > 1 {
            return None;
        }
        Some(Number { text })
    }

    /// The number that `text` denotes, if it denotes one.
    pub fn from_text(text: &str) -> (r: Option<Number>)
        ensures
            r is Some <==> is_number(text@),
            r is Some ==> r->0@ == text@,
    {
        Number::from_chars(chars_of(text))
    }

    /// The text of the number.
    pub fn text(&self) -> (t: &Vec<char>)
        ensures
            t@ == self@,
            is_number(t@),
    {
        proof {
            use_type_invariant(self);
        }
        &self.text
    }
}

impl Clone for Number {
    fn clone(&self) -> (n: Number)
        ensures
            n@ == self@,
    {
        proof {
            use_type_invariant(self);
        }
        let text = self.text.clone();
        assert(text@ =~= self.text@);
        Number { text }
    }
}

} // verus!
