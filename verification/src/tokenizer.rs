//! From characters to tokens.

use crate::error::{Error, Fault};
use crate::number::{dots, is_digit, is_numeric, minus_one_text, Number};
use crate::text::{
    byte_offset, chars_of, lemma_offset_ascii, lemma_offset_end, lemma_offset_monotonic,
    lemma_offset_step, lemma_width, position_of, utf8_width,
};
use std::collections::VecDeque;
use vstd::prelude::*;

verus! {

/// The five binary operators.
#[derive(Debug, Clone, Copy, PartialEq, Eq, Structural)]
pub enum Op {
    Mul,
    Div,
    Sub,
    Add,
    Pow,
}

impl Op {
    /// The character that writes this operator.
    pub open spec fn symbol_of(self) -> char {
        match self {
            Op::Mul => '*',
            Op::Div => '/',
            Op::Sub => '-',
            Op::Add => '+',
            Op::Pow => '^',
        }
    }

    /// The character that writes this operator.
    pub fn symbol(&self) -> (c: char)
        ensures
            c == self.symbol_of(),
    {
        match self {
            Op::Mul => '*',
            Op::Div => '/',
            Op::Sub => '-',
            Op::Add => '+',
            Op::Pow => '^',
        }
    }
}

/// One token of the text, in source order.
#[derive(Debug, PartialEq, Eq)]
pub enum Token {
    /// A number.
    Digit(Number),
    /// A bracket; `true` for the opening one.
    Bracket(bool),
    /// An operator.
    Op(Op),
}

/// What a [`Token`] is, with its number as text.
pub enum TokenView {
    Digit(Seq<char>),
    Bracket(bool),
    Op(Op),
}

impl View for Token {
    type V = TokenView;

    open spec fn view(&self) -> TokenView {
        match self {
            Token::Digit(n) => TokenView::Digit(n@),
            Token::Bracket(opening) => TokenView::Bracket(*opening),
            Token::Op(op) => TokenView::Op(*op),
        }
    }
}

impl DeepView for Token {
    type V = TokenView;

    open spec fn deep_view(&self) -> TokenView {
        self@
    }
}

impl Clone for Token {
    fn clone(&self) -> (t: Token)
        ensures
            t@ == self@,
    {
        match self {
            Token::Digit(n) => Token::Digit(n.clone()),
            Token::Bracket(opening) => Token::Bracket(*opening),
            Token::Op(op) => Token::Op(*op),
        }
    }
}

/// White space: the characters with the Unicode property `White_Space`.
pub open spec fn is_space(c: char) -> bool {
    let v = c as u32;
    ||| 0x09 <= v <= 0x0D
    ||| v == 0x20
    ||| v == 0x85
    ||| v == 0xA0
    ||| v == 0x1680
    ||| 0x2000 <= v <= 0x200A
    ||| v == 0x2028
    ||| v == 0x2029
    ||| v == 0x202F
    ||| v == 0x205F
    ||| v == 0x3000
}

/// Whether `ch` can continue a number.
pub fn digit_checker(ch: char) -> (r: bool)
    ensures
        r == is_numeric(ch),
{
    (ch >= '0' && ch <= '9') || ch == '.'
}

/// Whether `ch` is white space.
pub fn space_checker(ch: char) -> (r: bool)
    ensures
        r == is_space(ch),
{
    let v: u32 = ch as u32;
    (0x09 <= v && v <= 0x0D) || v == 0x20 || v == 0x85 || v == 0xA0 || v == 0x1680 || (0x2000 <= v
        && v <= 0x200A) || v == 0x2028 || v == 0x2029 || v == 0x202F || v == 0x205F || v
        == 0x3000
}

/// What is read at one place of the text: the tokens it gives, and where
/// reading goes on.
pub struct Lexeme {
    pub tokens: Seq<TokenView>,
    pub next: int,
}

/// Where the run of number characters that holds `j` ends: the first index
/// from `j` on that holds none, or the end of `s`.
pub open spec fn literal_end(s: Seq<char>, j: int) -> int
    decreases s.len() - j,
{
    if 0 <= j < s.len() && is_numeric(s[j]) {
        literal_end(s, j + 1)
    } else {
        j
    }
}

/// A failure met at character `i` of `s`.
pub open spec fn failure_at(s: Seq<char>, i: int, fault: Fault, character: Option<char>) -> Error {
    Error { fault, character, position: Some(position_of(s, i)) }
}

/// The character after character `i` of `s`, if there is one.
pub open spec fn peek(s: Seq<char>, i: int) -> Option<char> {
    if i + 1 < s.len() {
        Some(s[i + 1])
    } else {
        None
    }
}

/// Whether an operator with `next` after it stands alone: at the end of the
/// text, or before white space.
pub open spec fn stands_alone(next: Option<char>) -> bool {
    match next {
        Some(n) => is_space(n),
        None => true,
    }
}

/// The tokens of a `+` with `next` after it: `Add` where it stands alone,
/// nothing where it is a sign.
pub open spec fn plus_tokens(next: Option<char>) -> Seq<TokenView> {
    if stands_alone(next) {
        seq![TokenView::Op(Op::Add)]
    } else {
        seq![]
    }
}

/// The tokens of a `-` with `next` after it: `Sub` where it stands alone;
/// minus one and `Mul` before a digit or `(`, which it negates; none before
/// anything else.
pub open spec fn minus_tokens(next: Option<char>) -> Option<Seq<TokenView>> {
    if stands_alone(next) {
        Some(seq![TokenView::Op(Op::Sub)])
    } else if is_digit(next->0) || next->0 == '(' {
        Some(seq![TokenView::Digit(minus_one_text()), TokenView::Op(Op::Mul)])
    } else {
        None
    }
}

/// What stands at character `i` of `s`.
///
/// * White space gives no token.
/// * `(`, `)`, `*`, `/`, `^` give their token.
/// * `+` and `-` give what [`plus_tokens`] and [`minus_tokens`] say.
/// * A digit starts a number, which runs as far as digits and decimal points
///   go, and must hold one point at most.
/// * Nothing else starts a token.
pub open spec fn lexeme_at(s: Seq<char>, i: int) -> Result<Lexeme, Error>
    recommends
        0 <= i < s.len(),
{
    let c = s[i];
    if is_space(c) {
        Ok(Lexeme { tokens: seq![], next: i + 1 })
    } else if c == '(' {
        Ok(Lexeme { tokens: seq![TokenView::Bracket(true)], next: i + 1 })
    } else if c == ')' {
        Ok(Lexeme { tokens: seq![TokenView::Bracket(false)], next: i + 1 })
    } else if c == '*' {
        Ok(Lexeme { tokens: seq![TokenView::Op(Op::Mul)], next: i + 1 })
    } else if c == '/' {
        Ok(Lexeme { tokens: seq![TokenView::Op(Op::Div)], next: i + 1 })
    } else if c == '^' {
        Ok(Lexeme { tokens: seq![TokenView::Op(Op::Pow)], next: i + 1 })
    } else if c == '+' {
        Ok(Lexeme { tokens: plus_tokens(peek(s, i)), next: i + 1 })
    } else if c == '-' {
        match minus_tokens(peek(s, i)) {
            Some(tokens) => Ok(Lexeme { tokens, next: i + 1 }),
            None => Err(failure_at(s, i, Fault::InvalidSequence, None)),
        }
    } else if is_digit(c) {
        let end = literal_end(s, i + 1);
        let text = s.subrange(i, end);
        if dots(text) <= 1 {
            Ok(Lexeme { tokens: seq![TokenView::Digit(text)], next: end })
        } else {
            Err(failure_at(s, i, Fault::MalformedNumber, None))
        }
    } else {
        Err(failure_at(s, i, Fault::UnrecognizedInput, Some(c)))
    }
}

/// `front`, then what `rest` gives, unless `rest` failed.
pub open spec fn followed_by(front: Seq<TokenView>, rest: Result<Seq<TokenView>, Error>) -> Result<
    Seq<TokenView>,
    Error,
> {
    match rest {
        Ok(tokens) => Ok(front + tokens),
        Err(e) => Err(e),
    }
}

/// The tokens of `s` from character `i` on, or the first failure.
pub open spec fn scan(s: Seq<char>, i: int) -> Result<Seq<TokenView>, Error>
    decreases s.len() - i,
    via scan_decreases
{
    if 0 <= i < s.len() {
        match lexeme_at(s, i) {
            Ok(lexeme) => followed_by(lexeme.tokens, scan(s, lexeme.next)),
            Err(e) => Err(e),
        }
    } else {
        Ok(seq![])
    }
}

#[via_fn]
proof fn scan_decreases(s: Seq<char>, i: int) {
    if 0 <= i < s.len() {
        lemma_literal_end(s, i + 1);
    }
}

/// The tokens of `s`, or the first failure.
pub open spec fn tokens_of(s: Seq<char>) -> Result<Seq<TokenView>, Error> {
    scan(s, 0)
}

/// What a call of the tokenizer returned, over token views.
pub open spec fn outcome(r: Result<VecDeque<Token>, Error>) -> Result<Seq<TokenView>, Error> {
    match r {
        Ok(tokens) => Ok(tokens.deep_view()),
        Err(e) => Err(e),
    }
}

/// A run of number characters ends within the text, not before its start,
/// and holds number characters only.
pub proof fn lemma_literal_end(s: Seq<char>, j: int)
    requires
        0 <= j,
    ensures
        j <= literal_end(s, j),
        j <= s.len() ==> literal_end(s, j) <= s.len(),
        forall|k: int| j <= k < literal_end(s, j) ==> is_numeric(#[trigger] s[k]),
        literal_end(s, j) < s.len() ==> !is_numeric(s[literal_end(s, j)]),
    decreases s.len() - j,
{
    if j < s.len() && is_numeric(s[j]) {
        lemma_literal_end(s, j + 1);
    }
}

/// A run that is known to hold number characters up to `end`, and to stop
/// there, ends at `end`.
pub proof fn lemma_literal_end_is(s: Seq<char>, j: int, end: int)
    requires
        0 <= j <= end <= s.len(),
        forall|k: int| j <= k < end ==> is_numeric(#[trigger] s[k]),
        end < s.len() ==> !is_numeric(s[end]),
    ensures
        literal_end(s, j) == end,
    decreases end - j,
{
    if j < end {
        lemma_literal_end_is(s, j + 1, end);
    }
}

/// Reading never stands still.
pub proof fn lemma_lexeme_advances(s: Seq<char>, i: int)
    requires
        0 <= i < s.len(),
    ensures
        lexeme_at(s, i) is Ok ==> i < lexeme_at(s, i)->Ok_0.next <= s.len(),
{
    lemma_literal_end(s, i + 1);
}

/// Reading `front`, then `middle`, then what `rest` gives, is the same
/// however the two are grouped.
pub proof fn lemma_followed_by_twice(
    front: Seq<TokenView>,
    middle: Seq<TokenView>,
    rest: Result<Seq<TokenView>, Error>,
)
    ensures
        followed_by(front, followed_by(middle, rest)) == followed_by(front + middle, rest),
{
    if let Ok(tokens) = rest {
        assert(front + (middle + tokens) =~= (front + middle) + tokens);
    }
}

/// A scan in progress: the tokens read so far, and the place reached, in
/// characters and in bytes.
#[derive(Debug)]
pub struct Tokenizer {
    stack: VecDeque<Token>,
    index: usize,
    pointer: usize,
}

impl Tokenizer {
    /// The scan stands inside `src`, and its byte count is that of the
    /// characters it has passed.
    spec fn wf(&self, src: Seq<char>) -> bool {
        &&& self.index <= src.len()
        &&& self.pointer == byte_offset(src, self.index as int)
    }

    /// The tokens read so far.
    spec fn tokens(&self) -> Seq<TokenView> {
        self.stack.deep_view()
    }

    /// How many characters have been read.
    spec fn cursor(&self) -> int {
        self.index as int
    }

    /// `post` is `pre` after reading what stands at its cursor in `src`, with
    /// `r` as the outcome: the tokens of that place are appended and the
    /// cursor moves behind it, or the failure of that place is reported and
    /// nothing changes.
    spec fn advanced(pre: Tokenizer, post: Tokenizer, src: Seq<char>, r: Result<(), Error>) -> bool {
        match r {
            Ok(()) => {
                &&& lexeme_at(src, pre.cursor()) matches Ok(lexeme)
                &&& post.cursor() == lexeme.next
                &&& post.tokens() == pre.tokens() + lexeme.tokens
                &&& post.wf(src)
            },
            Err(e) => lexeme_at(src, pre.cursor()) == Err::<Lexeme, Error>(e) && post == pre,
        }
    }

    /// The tokens of `s` in source order, or the first failure met.
    pub fn tokenize(s: &str) -> (r: Result<VecDeque<Token>, Error>)
        ensures
            outcome(r) == tokens_of(s@),
    {
        let src = chars_of(s);
        let total: usize = s.as_bytes().len();
        let mut t = Tokenizer { stack: VecDeque::with_capacity(total), index: 0, pointer: 0 };
        let n: usize = src.len();
        proof {
            lemma_offset_end(src@);
            assert(src@.take(0) =~= Seq::<char>::empty());
            assert(t.stack.deep_view() =~= Seq::<TokenView>::empty());
            assert(followed_by(t.tokens(), scan(src@, 0)) == scan(src@, 0)) by {
                if let Ok(tokens) = scan(src@, 0) {
                    assert(t.tokens() + tokens =~= tokens);
                }
            }
        }
        while t.index < n
            invariant
                src@ == s@,
                n == src@.len(),
                t.wf(src@),
                byte_offset(src@, n as int) <= usize::MAX,
                tokens_of(src@) == followed_by(t.tokens(), scan(src@, t.cursor())),
            decreases n - t.index,
        {
            let ghost pre = t;
            proof {
                lemma_lexeme_advances(src@, t.cursor());
            }
            match t.read(&src) {
                Ok(()) => {
                    proof {
                        let lexeme = lexeme_at(src@, pre.cursor())->Ok_0;
                        lemma_followed_by_twice(pre.tokens(), lexeme.tokens, scan(src@, lexeme.next));
                    }
                },
                Err(e) => {
                    return Err(e);
                },
            }
        }
        proof {
            assert(t.tokens() + Seq::<TokenView>::empty() =~= t.tokens());
        }
        Ok(t.stack)
    }

    /// Appends `token` and passes over `count` characters of one byte each.
    fn push(&mut self, token: Token, count: usize)
        requires
            old(self).index + count <= usize::MAX,
            old(self).pointer + count <= usize::MAX,
        ensures
            final(self).tokens() == old(self).tokens().push(token@),
            final(self).index == old(self).index + count,
            final(self).pointer == old(self).pointer + count,
    {
        self.stack.push_back(token);
        self.index = self.index + count;
        self.pointer = self.pointer + count;
        assert(self.stack.deep_view() =~= old(self).stack.deep_view().push(token@));
    }

    /// Reads what stands at the cursor.
    fn read(&mut self, src: &Vec<char>) -> (r: Result<(), Error>)
        requires
            old(self).wf(src@),
            old(self).index < src@.len(),
            byte_offset(src@, src@.len() as int) <= usize::MAX,
        ensures
            Tokenizer::advanced(*old(self), *final(self), src@, r),
    {
        let len: usize = src.len();
        let ch = src[self.index];
        let next: Option<char> = if self.index + 1 < len {
            Some(src[self.index + 1])
        } else {
            None
        };
        proof {
            let i = self.index as int;
            lemma_offset_step(src@, i);
            lemma_offset_monotonic(src@, i + 1, src@.len() as int);
            lemma_width(ch);
            assert(next == peek(src@, i));
        }
        if space_checker(ch) {
            self.pointer = self.pointer + utf8_width(ch);
            self.index = self.index + 1;
            assert(self.tokens() + Seq::<TokenView>::empty() =~= self.tokens());
            Ok(())
        } else if ch == '(' {
            self.push(Token::Bracket(true), 1);
            assert(old(self).tokens().push(TokenView::Bracket(true)) =~= old(self).tokens()
                + seq![TokenView::Bracket(true)]);
            Ok(())
        } else if ch == ')' {
            self.push(Token::Bracket(false), 1);
            assert(old(self).tokens().push(TokenView::Bracket(false)) =~= old(self).tokens()
                + seq![TokenView::Bracket(false)]);
            Ok(())
        } else if ch == '*' {
            self.push(Token::Op(Op::Mul), 1);
            assert(old(self).tokens().push(TokenView::Op(Op::Mul)) =~= old(self).tokens()
                + seq![TokenView::Op(Op::Mul)]);
            Ok(())
        } else if ch == '/' {
            self.push(Token::Op(Op::Div), 1);
            assert(old(self).tokens().push(TokenView::Op(Op::Div)) =~= old(self).tokens()
                + seq![TokenView::Op(Op::Div)]);
            Ok(())
        } else if ch == '^' {
            self.push(Token::Op(Op::Pow), 1);
            assert(old(self).tokens().push(TokenView::Op(Op::Pow)) =~= old(self).tokens()
                + seq![TokenView::Op(Op::Pow)]);
            Ok(())
        } else if ch == '+' {
            if let Some(n) = next {
                if !space_checker(n) {
                    self.pointer = self.pointer + 1;
                    self.index = self.index + 1;
                    assert(self.tokens() + Seq::<TokenView>::empty() =~= self.tokens());
                    return Ok(());
                }
            }
            self.push(Token::Op(Op::Add), 1);
            assert(old(self).tokens().push(TokenView::Op(Op::Add)) =~= old(self).tokens()
                + seq![TokenView::Op(Op::Add)]);
            Ok(())
        } else if ch == '-' {
            self.handle_sub(next)
        } else if ch >= '0' && ch <= '9' {
            self.handle_digit(src)
        } else {
            Err(
                Error {
                    fault: Fault::UnrecognizedInput,
                    character: Some(ch),
                    position: Some(self.pointer + 1),
                },
            )
        }
    }

    /// Reads the number that starts at the cursor.
    fn handle_digit(&mut self, src: &Vec<char>) -> (r: Result<(), Error>)
        requires
            old(self).wf(src@),
            old(self).index < src@.len(),
            is_digit(src@[old(self).index as int]),
            byte_offset(src@, src@.len() as int) <= usize::MAX,
        ensures
            Tokenizer::advanced(*old(self), *final(self), src@, r),
    {
        let (digit_str, digit_str_len) = Tokenizer::take_while(src, self.index, digit_checker);
        proof {
            let i = self.index as int;
            assert(src@.len() == src.len());
            let end = i + digit_str_len;
            assert forall|k: int| i < k < end implies is_numeric(#[trigger] src@[k]) by {
                assert(call_ensures(digit_checker, (src@[k],), true));
            }
            lemma_literal_end_is(src@, i + 1, end);
            assert forall|k: int| i <= k < end implies (#[trigger] src@[k] as u32) < 0x80 by {
                assert(is_numeric(src@[k]));
            }
            lemma_offset_ascii(src@, i, end);
            lemma_offset_monotonic(src@, end, src@.len() as int);
            lemma_offset_step(src@, i);
            assert forall|k: int| 0 <= k < digit_str@.len() implies is_numeric(
                #[trigger] digit_str@[k],
            ) by {
                assert(digit_str@[k] == src@[i + k]);
            }
            assert(digit_str@[0] == src@[i]);
        }
        let ghost text = digit_str@;
        match Number::from_chars(digit_str) {
            Some(d) => {
                self.push(Token::Digit(d), digit_str_len);
                assert(old(self).tokens().push(TokenView::Digit(text)) =~= old(self).tokens()
                    + seq![TokenView::Digit(text)]);
                Ok(())
            },
            None => Err(
                Error {
                    fault: Fault::MalformedNumber,
                    character: None,
                    position: Some(self.pointer + 1),
                },
            ),
        }
    }

    /// Reads the `-` at the cursor, which has `next_ch` after it.
    fn handle_sub(&mut self, next_ch: Option<char>) -> (r: Result<(), Error>)
        requires
            old(self).index < usize::MAX,
            old(self).pointer < usize::MAX,
        ensures
            match minus_tokens(next_ch) {
                Some(tokens) => {
                    &&& r is Ok
                    &&& final(self).tokens() == old(self).tokens() + tokens
                    &&& final(self).index == old(self).index + 1
                    &&& final(self).pointer == old(self).pointer + 1
                },
                None => {
                    &&& r == Err::<(), Error>(
                        Error {
                            fault: Fault::InvalidSequence,
                            character: None,
                            position: Some((old(self).pointer + 1) as usize),
                        },
                    )
                    &&& *final(self) == *old(self)
                },
            },
    {
        if let Some(n) = next_ch {
            if !space_checker(n) {
                if (n >= '0' && n <= '9') || n == '(' {
                    self.push(Token::Digit(Number::minus_one()), 0);
                    self.push(Token::Op(Op::Mul), 1);
                    assert(old(self).tokens().push(TokenView::Digit(minus_one_text())).push(
                        TokenView::Op(Op::Mul),
                    ) =~= old(self).tokens() + seq![
                        TokenView::Digit(minus_one_text()),
                        TokenView::Op(Op::Mul),
                    ]);
                    return Ok(());
                } else {
                    return Err(
                        Error {
                            fault: Fault::InvalidSequence,
                            character: None,
                            position: Some(self.pointer + 1),
                        },
                    );
                }
            }
        }
        self.push(Token::Op(Op::Sub), 1);
        assert(old(self).tokens().push(TokenView::Op(Op::Sub)) =~= old(self).tokens()
            + seq![TokenView::Op(Op::Sub)]);
        Ok(())
    }

    /// The character at `start` and, after it, the characters that `checker`
    /// accepts, up to the first that it refuses; and how many they are.
    fn take_while<F>(src: &Vec<char>, start: usize, checker: F) -> (r: (Vec<char>, usize)) where
        F: Fn(char) -> bool,

        requires
            start < src@.len(),
            forall|c: char| call_requires(checker, (c,)),
        ensures
            1 <= r.1,
            start + r.1 <= src@.len(),
            r.0@ == src@.subrange(start as int, start + r.1),
            forall|k: int|
                start < k < start + r.1 ==> call_ensures(checker, (#[trigger] src@[k],), true),
            start + r.1 < src@.len() ==> call_ensures(checker, (src@[start + r.1],), false),
    {
        let len: usize = src.len();
        let mut taken: Vec<char> = Vec::new();
        taken.push(src[start]);
        let mut idx: usize = start + 1;
        while idx < len
            invariant
                start < idx <= len,
                len == src@.len(),
                taken@ == src@.subrange(start as int, idx as int),
                forall|c: char| call_requires(checker, (c,)),
                forall|k: int|
                    start < k < idx ==> call_ensures(checker, (#[trigger] src@[k],), true),
            decreases len - idx,
        {
            let ch = src[idx];
            if !checker(ch) {
                return (taken, idx - start);
            }
            taken.push(ch);
            idx = idx + 1;
            assert(taken@ =~= src@.subrange(start as int, idx as int));
        }
        (taken, idx - start)
    }
}

} // verus!
