//! The value of a tree, and that the same text always has the same value.

use crate::error::Error;
use crate::number::Number;
use crate::parser::{evaluated, outcome, parsed, Expr, ExprView};
use crate::tokenizer::Op;
use vstd::prelude::*;

verus! {

/// The value of a tree in the arithmetic of `number` and `operate`: a number
/// has the value of its text, and an operator between two trees has what it
/// makes of the value of the left tree and the value of the right tree.
pub open spec fn value<T>(
    e: ExprView,
    number: spec_fn(Seq<char>) -> T,
    operate: spec_fn(Op, T, T) -> T,
) -> T
    decreases e,
{
    match e {
        ExprView::Inner(left, op, right) => operate(
            op,
            value(*left, number, operate),
            value(*right, number, operate),
        ),
        ExprView::Digit(text) => number(text),
    }
}

/// `literal` computes `number` and `apply` computes `operate`.
pub open spec fn computes<T, L: Fn(&Number) -> T, A: Fn(Op, T, T) -> T>(
    literal: &L,
    apply: &A,
    number: spec_fn(Seq<char>) -> T,
    operate: spec_fn(Op, T, T) -> T,
) -> bool {
    &&& forall|n: &Number, r: T| #[trigger] call_ensures(*literal, (n,), r) ==> r == number(n@)
    &&& forall|op: Op, x: T, y: T, r: T| #[trigger]
        call_ensures(*apply, (op, x, y), r) ==> r == operate(op, x, y)
}

/// With closures that compute an arithmetic, evaluation gives the value of
/// the tree in that arithmetic.
pub proof fn lemma_calc_gives_value<T, L: Fn(&Number) -> T, A: Fn(Op, T, T) -> T>(
    e: &Expr,
    literal: &L,
    apply: &A,
    number: spec_fn(Seq<char>) -> T,
    operate: spec_fn(Op, T, T) -> T,
    r: T,
)
    requires
        computes(literal, apply, number, operate),
        e.evaluates_to(literal, apply, r),
    ensures
        r == value(e@, number, operate),
    decreases e,
{
    match e {
        Expr::Inner(left, op, right) => {
            let (x, y) = choose|x: T, y: T|
                {
                    &&& left.evaluates_to(literal, apply, x)
                    &&& right.evaluates_to(literal, apply, y)
                    &&& #[trigger] call_ensures(*apply, (*op, x, y), r)
                };
            lemma_calc_gives_value(&**left, literal, apply, number, operate, x);
            lemma_calc_gives_value(&**right, literal, apply, number, operate, y);
        },
        Expr::Digit(n) => {},
    }
}

/// `literal` and `apply` are functions: `literal` gives numbers of the same
/// text the same value, and `apply` gives the same operator on the same
/// operands the same value.
pub open spec fn deterministic<T, L: Fn(&Number) -> T, A: Fn(Op, T, T) -> T>(
    literal: &L,
    apply: &A,
) -> bool {
    &&& forall|n: &Number, m: &Number, a: T, b: T|
        n@ == m@ && #[trigger] call_ensures(*literal, (n,), a) && #[trigger] call_ensures(
            *literal,
            (m,),
            b,
        ) ==> a == b
    &&& forall|op: Op, x: T, y: T, a: T, b: T|
        #[trigger] call_ensures(*apply, (op, x, y), a) && #[trigger] call_ensures(
            *apply,
            (op, x, y),
            b,
        ) ==> a == b
}

/// Trees that read alike have the same value in an arithmetic of functions.
pub proof fn lemma_same_tree_same_value<T, L: Fn(&Number) -> T, A: Fn(Op, T, T) -> T>(
    first: &Expr,
    second: &Expr,
    literal: &L,
    apply: &A,
    a: T,
    b: T,
)
    requires
        deterministic(literal, apply),
        first@ == second@,
        first.evaluates_to(literal, apply, a),
        second.evaluates_to(literal, apply, b),
    ensures
        a == b,
    decreases first,
{
    match first {
        Expr::Inner(left1, op1, right1) => {
            match second {
                Expr::Inner(left2, op2, right2) => {
                    let (x1, y1) = choose|x: T, y: T|
                        {
                            &&& left1.evaluates_to(literal, apply, x)
                            &&& right1.evaluates_to(literal, apply, y)
                            &&& #[trigger] call_ensures(*apply, (*op1, x, y), a)
                        };
                    let (x2, y2) = choose|x: T, y: T|
                        {
                            &&& left2.evaluates_to(literal, apply, x)
                            &&& right2.evaluates_to(literal, apply, y)
                            &&& #[trigger] call_ensures(*apply, (*op2, x, y), b)
                        };
                    assert(left1@ == left2@);
                    assert(right1@ == right2@);
                    lemma_same_tree_same_value(&**left1, &**left2, literal, apply, x1, x2);
                    lemma_same_tree_same_value(&**right1, &**right2, literal, apply, y1, y2);
                },
                Expr::Digit(_) => {},
            }
        },
        Expr::Digit(n) => {
            match second {
                Expr::Inner(_, _, _) => {},
                Expr::Digit(m) => {},
            }
        },
    }
}

/// Parsing and evaluating the same text twice gives the same outcome: the
/// same failure, or trees with the same value in an arithmetic of functions.
pub proof fn lemma_repeatable<T, L: Fn(&Number) -> T, A: Fn(Op, T, T) -> T>(
    s: Seq<char>,
    first: Result<Expr, Error>,
    second: Result<Expr, Error>,
    literal: &L,
    apply: &A,
    a: T,
    b: T,
)
    requires
        outcome(first) == parsed(s),
        outcome(second) == parsed(s),
        deterministic(literal, apply),
        first matches Ok(tree) ==> tree.evaluates_to(literal, apply, a),
        second matches Ok(tree) ==> tree.evaluates_to(literal, apply, b),
    ensures
        first is Ok <==> second is Ok,
        first matches Err(e) ==> second == Err::<Expr, Error>(e),
        first is Ok ==> a == b,
{
    if let Ok(tree1) = first {
        if let Ok(tree2) = second {
            lemma_same_tree_same_value(&tree1, &tree2, literal, apply, a, b);
        }
    }
}

/// Evaluating one tree twice gives the same value in an arithmetic of
/// functions.
pub proof fn lemma_calc_repeatable<T, L: Fn(&Number) -> T, A: Fn(Op, T, T) -> T>(
    e: &Expr,
    literal: &L,
    apply: &A,
    a: T,
    b: T,
)
    requires
        deterministic(literal, apply),
        e.evaluates_to(literal, apply, a),
        e.evaluates_to(literal, apply, b),
    ensures
        a == b,
{
    lemma_same_tree_same_value(e, e, literal, apply, a, b);
}

/// Evaluating one text twice gives the same outcome in an arithmetic of
/// functions: the same failure, or the same value.
pub proof fn lemma_evaluate_repeatable<T, L: Fn(&Number) -> T, A: Fn(Op, T, T) -> T>(
    s: Seq<char>,
    literal: &L,
    apply: &A,
    first: Result<T, Error>,
    second: Result<T, Error>,
)
    requires
        deterministic(literal, apply),
        evaluated(s, literal, apply, first),
        evaluated(s, literal, apply, second),
    ensures
        first == second,
{
    if let Ok(a) = first {
        if let Ok(b) = second {
            let tree1 = choose|tree: Expr|
                parsed(s) == Ok::<ExprView, Error>(tree@) && #[trigger] tree.evaluates_to(
                    literal,
                    apply,
                    a,
                );
            let tree2 = choose|tree: Expr|
                parsed(s) == Ok::<ExprView, Error>(tree@) && #[trigger] tree.evaluates_to(
                    literal,
                    apply,
                    b,
                );
            lemma_same_tree_same_value(&tree1, &tree2, literal, apply, a, b);
        }
    }
}

/// With closures that compute an arithmetic, evaluating a text gives the
/// value of its tree in that arithmetic, or the failure for which it has no
/// tree.
pub proof fn lemma_evaluate_gives_value<T, L: Fn(&Number) -> T, A: Fn(Op, T, T) -> T>(
    s: Seq<char>,
    literal: &L,
    apply: &A,
    number: spec_fn(Seq<char>) -> T,
    operate: spec_fn(Op, T, T) -> T,
    r: Result<T, Error>,
)
    requires
        computes(literal, apply, number, operate),
        evaluated(s, literal, apply, r),
    ensures
        r == match parsed(s) {
            Ok(tree) => Ok::<T, Error>(value(tree, number, operate)),
            Err(e) => Err::<T, Error>(e),
        },
{
    if let Ok(v) = r {
        let tree = choose|tree: Expr|
            parsed(s) == Ok::<ExprView, Error>(tree@) && #[trigger] tree.evaluates_to(
                literal,
                apply,
                v,
            );
        lemma_calc_gives_value(&tree, literal, apply, number, operate, v);
    }
}

} // verus!
