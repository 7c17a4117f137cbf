//! Variables, numeric expressions and string expressions.
//!
//! The grammar is a parsing expression grammar: each `*_at` spec function
//! says what is read at a position and where reading stops, trying its
//! alternatives in order. Binary operators associate to the left, `^`
//! included, and bind from weakest to strongest: a leading sign, `+ -`,
//! `* /`, `^`. Spaces may stand around binary operators and inside
//! parentheses.
use vstd::prelude::*;
use crate::ast::{
    Func, NumExpr, NumExprModel, NumericVariable, NumericVariableModel, StringExpr,
    StringExprModel, StringVariable, Variable, VariableModel,
};
use crate::lex::{
    at, byte_at, is_digit, is_upper, num_lit, num_lit_at, quoted, quoted_at, sign, sign_at,
    skip_spaces, spaces, CARET, CLOSE_PAREN, COMMA, DIGIT_0, DIGIT_9, DOLLAR, MINUS, OPEN_PAREN,
    PLUS, SLASH, STAR, UPPER_A, UPPER_Z, LETTER_A, LETTER_B, LETTER_C, LETTER_D, LETTER_E, LETTER_F, LETTER_G, LETTER_I, LETTER_L, LETTER_N, LETTER_O, LETTER_P, LETTER_Q, LETTER_R, LETTER_S, LETTER_T, LETTER_X,
};

verus! {

/// The name of a function as it is written.
pub open spec fn func_name(f: Func) -> Seq<u8> {
    match f {
        Func::Abs => seq![LETTER_A, LETTER_B, LETTER_S],
        Func::Atn => seq![LETTER_A, LETTER_T, LETTER_N],
        Func::Cos => seq![LETTER_C, LETTER_O, LETTER_S],
        Func::Exp => seq![LETTER_E, LETTER_X, LETTER_P],
        Func::Int => seq![LETTER_I, LETTER_N, LETTER_T],
        Func::Log => seq![LETTER_L, LETTER_O, LETTER_G],
        Func::Sgn => seq![LETTER_S, LETTER_G, LETTER_N],
        Func::Sin => seq![LETTER_S, LETTER_I, LETTER_N],
        Func::Sqr => seq![LETTER_S, LETTER_Q, LETTER_R],
        Func::Tan => seq![LETTER_T, LETTER_A, LETTER_N],
        Func::Rnd => seq![LETTER_R, LETTER_N, LETTER_D],
        Func::User(l) => seq![LETTER_F, LETTER_N, l],
    }
}

/// `w` is written at `i`.
pub open spec fn prefix_at(s: Seq<u8>, i: int, w: Seq<u8>) -> bool {
    0 <= i && i + w.len() <= s.len() && s.subrange(i, i + w.len()) == w
}

pub open spec fn upper_at(s: Seq<u8>, i: int) -> bool {
    0 <= i < s.len() && is_upper(s[i])
}

/// A function of one argument whose name is written at `i`.
pub open spec fn arg_func_at(s: Seq<u8>, i: int) -> Option<Func> {
    if prefix_at(s, i, func_name(Func::Abs)) {
        Some(Func::Abs)
    } else if prefix_at(s, i, func_name(Func::Atn)) {
        Some(Func::Atn)
    } else if prefix_at(s, i, func_name(Func::Cos)) {
        Some(Func::Cos)
    } else if prefix_at(s, i, func_name(Func::Exp)) {
        Some(Func::Exp)
    } else if prefix_at(s, i, func_name(Func::Int)) {
        Some(Func::Int)
    } else if prefix_at(s, i, func_name(Func::Log)) {
        Some(Func::Log)
    } else if prefix_at(s, i, func_name(Func::Sgn)) {
        Some(Func::Sgn)
    } else if prefix_at(s, i, func_name(Func::Sin)) {
        Some(Func::Sin)
    } else if prefix_at(s, i, func_name(Func::Sqr)) {
        Some(Func::Sqr)
    } else if prefix_at(s, i, func_name(Func::Tan)) {
        Some(Func::Tan)
    } else {
        user_func_at(s, i)
    }
}

/// A user function `FN` and a letter, written at `i`.
pub open spec fn user_func_at(s: Seq<u8>, i: int) -> Option<Func> {
    if upper_at(s, i + 2) && prefix_at(s, i, func_name(Func::User(s[i + 2]))) {
        Some(Func::User(s[i + 2]))
    } else {
        None
    }
}

/// A function called without an argument: `RND` or a user function.
pub open spec fn bare_func_at(s: Seq<u8>, i: int) -> Option<Func> {
    if prefix_at(s, i, func_name(Func::Rnd)) {
        Some(Func::Rnd)
    } else {
        user_func_at(s, i)
    }
}

/// A binary operator `c` at `i`, with the spaces around it.
pub open spec fn op_at(s: Seq<u8>, i: int, c: u8) -> Option<int> {
    if at(s, skip_spaces(s, i), c) {
        Some(skip_spaces(s, skip_spaces(s, i) + 1))
    } else {
        None
    }
}

/// `+` (true) or `-` (false) as a binary operator at `i`.
pub open spec fn add_op_at(s: Seq<u8>, i: int) -> Option<(bool, int)> {
    match op_at(s, i, PLUS) {
        Some(j) => Some((true, j)),
        None => match op_at(s, i, MINUS) {
            Some(j) => Some((false, j)),
            None => None,
        },
    }
}

/// `*` (true) or `/` (false) as a binary operator at `i`.
pub open spec fn mul_op_at(s: Seq<u8>, i: int) -> Option<(bool, int)> {
    match op_at(s, i, STAR) {
        Some(j) => Some((true, j)),
        None => match op_at(s, i, SLASH) {
            Some(j) => Some((false, j)),
            None => None,
        },
    }
}

/// `i < j`, and `j` is a position of `s`.
pub open spec fn forward(s: Seq<u8>, i: int, j: int) -> bool {
    i < j <= s.len()
}

pub open spec fn boxed(e: NumExprModel) -> Box<NumExprModel> {
    Box::new(e)
}

/// A numeric expression: an optional sign, then terms joined by `+` and `-`.
pub open spec fn expr_at(s: Seq<u8>, i: int) -> Option<(NumExprModel, int)>
    decreases s.len() - i, 8int,
{
    if !(0 <= i <= s.len()) {
        None
    } else {
        let (neg, a) = sign_at(s, i);
        match term_at(s, a) {
            None => None,
            Some((t, b)) => if a <= b <= s.len() {
                let first = if neg {
                    NumExprModel::Neg(boxed(t))
                } else {
                    t
                };
                Some(add_chain(s, b, first))
            } else {
                None
            },
        }
    }
}

/// Further `+` and `-` terms after `lhs`, folded to the left.
pub open spec fn add_chain(s: Seq<u8>, i: int, lhs: NumExprModel) -> (NumExprModel, int)
    decreases s.len() - i, 7int,
{
    if !(0 <= i <= s.len()) {
        (lhs, i)
    } else {
        match add_op_at(s, i) {
            None => (lhs, i),
            Some((plus, j)) => if forward(s, i, j) {
                match term_at(s, j) {
                    None => (lhs, i),
                    Some((r, k)) => if forward(s, i, k) {
                        add_chain(
                            s,
                            k,
                            if plus {
                                NumExprModel::Add(boxed(lhs), boxed(r))
                            } else {
                                NumExprModel::Sub(boxed(lhs), boxed(r))
                            },
                        )
                    } else {
                        (lhs, i)
                    },
                }
            } else {
                (lhs, i)
            },
        }
    }
}

/// Factors joined by `*` and `/`.
pub open spec fn term_at(s: Seq<u8>, i: int) -> Option<(NumExprModel, int)>
    decreases s.len() - i, 6int,
{
    if !(0 <= i <= s.len()) {
        None
    } else {
        match factor_at(s, i) {
            None => None,
            Some((f, b)) => if i <= b <= s.len() {
                Some(mul_chain(s, b, f))
            } else {
                None
            },
        }
    }
}

pub open spec fn mul_chain(s: Seq<u8>, i: int, lhs: NumExprModel) -> (NumExprModel, int)
    decreases s.len() - i, 5int,
{
    if !(0 <= i <= s.len()) {
        (lhs, i)
    } else {
        match mul_op_at(s, i) {
            None => (lhs, i),
            Some((times, j)) => if forward(s, i, j) {
                match factor_at(s, j) {
                    None => (lhs, i),
                    Some((r, k)) => if forward(s, i, k) {
                        mul_chain(
                            s,
                            k,
                            if times {
                                NumExprModel::Mul(boxed(lhs), boxed(r))
                            } else {
                                NumExprModel::Div(boxed(lhs), boxed(r))
                            },
                        )
                    } else {
                        (lhs, i)
                    },
                }
            } else {
                (lhs, i)
            },
        }
    }
}

/// Primaries joined by `^`, folded to the left.
pub open spec fn factor_at(s: Seq<u8>, i: int) -> Option<(NumExprModel, int)>
    decreases s.len() - i, 4int,
{
    if !(0 <= i <= s.len()) {
        None
    } else {
        match primary_at(s, i) {
            None => None,
            Some((p, b)) => if i <= b <= s.len() {
                Some(pow_chain(s, b, p))
            } else {
                None
            },
        }
    }
}

pub open spec fn pow_chain(s: Seq<u8>, i: int, lhs: NumExprModel) -> (NumExprModel, int)
    decreases s.len() - i, 3int,
{
    if !(0 <= i <= s.len()) {
        (lhs, i)
    } else {
        match op_at(s, i, CARET) {
            None => (lhs, i),
            Some(j) => if forward(s, i, j) {
                match primary_at(s, j) {
                    None => (lhs, i),
                    Some((r, k)) => if forward(s, i, k) {
                        pow_chain(s, k, NumExprModel::Pow(boxed(lhs), boxed(r)))
                    } else {
                        (lhs, i)
                    },
                }
            } else {
                (lhs, i)
            },
        }
    }
}

/// A call with an argument, a call without one, a variable, a literal, or a
/// parenthesised expression, tried in that order.
pub open spec fn primary_at(s: Seq<u8>, i: int) -> Option<(NumExprModel, int)>
    decreases s.len() - i, 2int,
{
    if !(0 <= i <= s.len()) {
        None
    } else {
        let called = match arg_func_at(s, i) {
            Some(f) => match group_at(s, i + 3) {
                Some((e, j)) => Some((NumExprModel::CallArg(f, boxed(e)), j)),
                None => None,
            },
            None => None,
        };
        if called is Some {
            called
        } else if bare_func_at(s, i) is Some {
            Some((NumExprModel::Call(bare_func_at(s, i).unwrap()), i + 3))
        } else {
            match num_var_at(s, i) {
                Some((v, j)) => Some((NumExprModel::Variable(v), j)),
                None => match num_lit_at(s, i) {
                    Some((n, j)) => Some((NumExprModel::Num(n), j)),
                    None => group_at(s, i),
                },
            }
        }
    }
}

/// `( expr )`, with spaces allowed inside the parentheses.
pub open spec fn group_at(s: Seq<u8>, i: int) -> Option<(NumExprModel, int)>
    decreases s.len() - i, 0int,
{
    if at(s, i, OPEN_PAREN) && forward(s, i, skip_spaces(s, i + 1)) {
        match expr_at(s, skip_spaces(s, i + 1)) {
            Some((e, b)) => if at(s, skip_spaces(s, b), CLOSE_PAREN) {
                Some((e, skip_spaces(s, b) + 1))
            } else {
                None
            },
            None => None,
        }
    } else {
        None
    }
}

/// A numeric variable: a letter directly followed by `(` is an array
/// element; otherwise a letter and an optional digit.
pub open spec fn num_var_at(s: Seq<u8>, i: int) -> Option<(NumericVariableModel, int)>
    decreases s.len() - i, 1int,
{
    if upper_at(s, i) {
        match subscripts_at(s, i + 1) {
            Some((d1, d2, j)) => Some((NumericVariableModel::Array(s[i], d1, d2), j)),
            None => if i + 1 < s.len() && is_digit(s[i + 1]) {
                Some((NumericVariableModel::Simple { letter: s[i], digit: Some(s[i + 1]) }, i + 2))
            } else {
                Some((NumericVariableModel::Simple { letter: s[i], digit: None }, i + 1))
            },
        }
    } else {
        None
    }
}

/// `(e1)` or `(e1, e2)`.
pub open spec fn subscripts_at(s: Seq<u8>, k: int) -> Option<
    (Box<NumExprModel>, Option<Box<NumExprModel>>, int),
>
    decreases s.len() - k, 9int,
{
    if at(s, k, OPEN_PAREN) && forward(s, k, skip_spaces(s, k + 1)) {
        match expr_at(s, skip_spaces(s, k + 1)) {
            None => None,
            Some((e1, b)) => {
                let c = skip_spaces(s, b);
                if at(s, c, CLOSE_PAREN) {
                    Some((boxed(e1), None, c + 1))
                } else if at(s, c, COMMA) && forward(s, k, skip_spaces(s, c + 1)) {
                    match expr_at(s, skip_spaces(s, c + 1)) {
                        None => None,
                        Some((e2, e)) => if at(s, skip_spaces(s, e), CLOSE_PAREN) {
                            Some((boxed(e1), Some(boxed(e2)), skip_spaces(s, e) + 1))
                        } else {
                            None
                        },
                    }
                } else {
                    None
                }
            },
        }
    } else {
        None
    }
}

/// A string variable: a letter directly followed by `$`.
pub open spec fn string_var_at(s: Seq<u8>, i: int) -> Option<(StringVariable, int)> {
    if upper_at(s, i) && at(s, i + 1, DOLLAR) {
        Some((StringVariable { letter: s[i] }, i + 2))
    } else {
        None
    }
}

/// A quoted literal or a string variable.
pub open spec fn string_expr_at(s: Seq<u8>, i: int) -> Option<(StringExprModel, int)> {
    match quoted_at(s, i) {
        Some((t, j)) => Some((StringExprModel::Literal(t), j)),
        None => match string_var_at(s, i) {
            Some((v, j)) => Some((StringExprModel::Variable(v), j)),
            None => None,
        },
    }
}

/// A variable of any kind, string variables first.
pub open spec fn variable_at(s: Seq<u8>, i: int) -> Option<(VariableModel, int)> {
    match string_var_at(s, i) {
        Some((v, j)) => Some((VariableModel::String(v), j)),
        None => match num_var_at(s, i) {
            Some((v, j)) => Some((VariableModel::Numeric(v), j)),
            None => None,
        },
    }
}

// ---------------------------------------------------------------- exec

/// `r` is what `spec_r` describes, with the executable value in place of its model.
pub open spec fn reads_as<T: View>(spec_r: Option<(T::V, int)>, r: Option<(T, usize)>) -> bool {
    match r {
        Some((v, j)) => spec_r == Some((v@, j as int)),
        None => spec_r is None,
    }
}

/// `r` is `None`, or ends after `i` and within `s`.
pub open spec fn advances<T>(s: Seq<u8>, i: int, r: Option<(T, usize)>) -> bool {
    r matches Some((_, j)) ==> i < j <= s.len()
}

pub(crate) fn name_bytes(f: Func) -> (r: (u8, u8, u8))
    ensures
        func_name(f) == seq![r.0, r.1, r.2],
{
    match f {
        Func::Abs => (LETTER_A, LETTER_B, LETTER_S),
        Func::Atn => (LETTER_A, LETTER_T, LETTER_N),
        Func::Cos => (LETTER_C, LETTER_O, LETTER_S),
        Func::Exp => (LETTER_E, LETTER_X, LETTER_P),
        Func::Int => (LETTER_I, LETTER_N, LETTER_T),
        Func::Log => (LETTER_L, LETTER_O, LETTER_G),
        Func::Sgn => (LETTER_S, LETTER_G, LETTER_N),
        Func::Sin => (LETTER_S, LETTER_I, LETTER_N),
        Func::Sqr => (LETTER_S, LETTER_Q, LETTER_R),
        Func::Tan => (LETTER_T, LETTER_A, LETTER_N),
        Func::Rnd => (LETTER_R, LETTER_N, LETTER_D),
        Func::User(l) => (LETTER_F, LETTER_N, l),
    }
}

/// The name of `f` is written at `i`.
fn has_name(s: &[u8], i: usize, f: Func) -> (r: bool)
    requires
        i <= s@.len(),
    ensures
        r == prefix_at(s@, i as int, func_name(f)),
        r ==> i + 3 <= s@.len(),
{
    let w = name_bytes(f);
    let n = s.len();
    if n - i < 3 {
        return false;
    }
    let r = s[i] == w.0 && s[i + 1] == w.1 && s[i + 2] == w.2;
    proof {
        let t = s@.subrange(i as int, i + 3);
        let v = seq![w.0, w.1, w.2];
        assert(v[0] == w.0 && v[1] == w.1 && v[2] == w.2);
        assert(t[0] == s@[i as int] && t[1] == s@[i + 1] && t[2] == s@[i + 2]);
        if r {
            assert(t =~= v);
        }
    }
    r
}

pub(crate) fn upper(s: &[u8], i: usize) -> (r: bool)
    ensures
        r == upper_at(s@, i as int),
        r ==> i < s@.len(),
        s@.len() <= usize::MAX,
{
    let n = s.len();
    i < n && UPPER_A <= s[i] && s[i] <= UPPER_Z
}

fn user_func(s: &[u8], i: usize) -> (r: Option<Func>)
    requires
        i <= s@.len(),
    ensures
        r == user_func_at(s@, i as int),
        r is Some ==> i + 3 <= s@.len(),
{
    let n = s.len();
    if n - i < 3 {
        return None;
    }
    if upper(s, i + 2) && has_name(s, i, Func::User(s[i + 2])) {
        Some(Func::User(s[i + 2]))
    } else {
        None
    }
}

fn arg_func(s: &[u8], i: usize) -> (r: Option<Func>)
    requires
        i <= s@.len(),
    ensures
        r == arg_func_at(s@, i as int),
        r is Some ==> i + 3 <= s@.len(),
{
    if has_name(s, i, Func::Abs) {
        Some(Func::Abs)
    } else if has_name(s, i, Func::Atn) {
        Some(Func::Atn)
    } else if has_name(s, i, Func::Cos) {
        Some(Func::Cos)
    } else if has_name(s, i, Func::Exp) {
        Some(Func::Exp)
    } else if has_name(s, i, Func::Int) {
        Some(Func::Int)
    } else if has_name(s, i, Func::Log) {
        Some(Func::Log)
    } else if has_name(s, i, Func::Sgn) {
        Some(Func::Sgn)
    } else if has_name(s, i, Func::Sin) {
        Some(Func::Sin)
    } else if has_name(s, i, Func::Sqr) {
        Some(Func::Sqr)
    } else if has_name(s, i, Func::Tan) {
        Some(Func::Tan)
    } else {
        user_func(s, i)
    }
}

fn bare_func(s: &[u8], i: usize) -> (r: Option<Func>)
    requires
        i <= s@.len(),
    ensures
        r == bare_func_at(s@, i as int),
        r is Some ==> i + 3 <= s@.len(),
{
    if has_name(s, i, Func::Rnd) {
        Some(Func::Rnd)
    } else {
        user_func(s, i)
    }
}

fn op(s: &[u8], i: usize, c: u8) -> (r: Option<usize>)
    requires
        i <= s@.len(),
    ensures
        r matches Some(j) ==> op_at(s@, i as int, c) == Some(j as int) && i < j <= s@.len(),
        r is None ==> op_at(s@, i as int, c) is None,
{
    let a = spaces(s, i);
    if byte_at(s, a, c) {
        Some(spaces(s, a + 1))
    } else {
        None
    }
}

fn add_op(s: &[u8], i: usize) -> (r: Option<(bool, usize)>)
    requires
        i <= s@.len(),
    ensures
        r matches Some((p, j)) ==> add_op_at(s@, i as int) == Some((p, j as int)) && i < j
            <= s@.len(),
        r is None ==> add_op_at(s@, i as int) is None,
{
    match op(s, i, PLUS) {
        Some(j) => Some((true, j)),
        None => match op(s, i, MINUS) {
            Some(j) => Some((false, j)),
            None => None,
        },
    }
}

fn mul_op(s: &[u8], i: usize) -> (r: Option<(bool, usize)>)
    requires
        i <= s@.len(),
    ensures
        r matches Some((p, j)) ==> mul_op_at(s@, i as int) == Some((p, j as int)) && i < j
            <= s@.len(),
        r is None ==> mul_op_at(s@, i as int) is None,
{
    match op(s, i, STAR) {
        Some(j) => Some((true, j)),
        None => match op(s, i, SLASH) {
            Some(j) => Some((false, j)),
            None => None,
        },
    }
}

/// Reads a numeric expression at `i`, as `expr_at` states it.
pub fn expr(s: &[u8], i: usize) -> (r: Option<(NumExpr, usize)>)
    requires
        i <= s@.len(),
    ensures
        reads_as(expr_at(s@, i as int), r),
        advances(s@, i as int, r),
    decreases s@.len() - i, 8int,
{
    let (neg, a) = sign(s, i);
    let (t, b) = match term(s, a) {
        None => return None,
        Some(x) => x,
    };
    let mut lhs = if neg {
        NumExpr::Neg(Box::new(t))
    } else {
        t
    };
    let ghost first = lhs@;
    let mut pos = b;
    loop
        invariant
            i < b <= pos <= s@.len(),
            expr_at(s@, i as int) == Some(add_chain(s@, b as int, first)),
            add_chain(s@, b as int, first) == add_chain(s@, pos as int, lhs@),
    ensures
            add_chain(s@, pos as int, lhs@) == (lhs@, pos as int),
        decreases s@.len() - pos,
    {
        let (plus, j) = match add_op(s, pos) {
            None => break,
            Some(x) => x,
        };
        let (rhs, k) = match term(s, j) {
            None => break,
            Some(x) => x,
        };
        lhs = if plus {
            NumExpr::Add(Box::new(lhs), Box::new(rhs))
        } else {
            NumExpr::Sub(Box::new(lhs), Box::new(rhs))
        };
        pos = k;
    }
    Some((lhs, pos))
}

fn term(s: &[u8], i: usize) -> (r: Option<(NumExpr, usize)>)
    requires
        i <= s@.len(),
    ensures
        reads_as(term_at(s@, i as int), r),
        advances(s@, i as int, r),
    decreases s@.len() - i, 6int,
{
    let (f, b) = match factor(s, i) {
        None => return None,
        Some(x) => x,
    };
    let mut lhs = f;
    let ghost first = lhs@;
    let mut pos = b;
    loop
        invariant
            i < b <= pos <= s@.len(),
            term_at(s@, i as int) == Some(mul_chain(s@, b as int, first)),
            mul_chain(s@, b as int, first) == mul_chain(s@, pos as int, lhs@),
    ensures
            mul_chain(s@, pos as int, lhs@) == (lhs@, pos as int),
        decreases s@.len() - pos,
    {
        let (times, j) = match mul_op(s, pos) {
            None => break,
            Some(x) => x,
        };
        let (rhs, k) = match factor(s, j) {
            None => break,
            Some(x) => x,
        };
        lhs = if times {
            NumExpr::Mul(Box::new(lhs), Box::new(rhs))
        } else {
            NumExpr::Div(Box::new(lhs), Box::new(rhs))
        };
        pos = k;
    }
    Some((lhs, pos))
}

fn factor(s: &[u8], i: usize) -> (r: Option<(NumExpr, usize)>)
    requires
        i <= s@.len(),
    ensures
        reads_as(factor_at(s@, i as int), r),
        advances(s@, i as int, r),
    decreases s@.len() - i, 4int,
{
    let (p, b) = match primary(s, i) {
        None => return None,
        Some(x) => x,
    };
    let mut lhs = p;
    let ghost first = lhs@;
    let mut pos = b;
    loop
        invariant
            i < b <= pos <= s@.len(),
            factor_at(s@, i as int) == Some(pow_chain(s@, b as int, first)),
            pow_chain(s@, b as int, first) == pow_chain(s@, pos as int, lhs@),
    ensures
            pow_chain(s@, pos as int, lhs@) == (lhs@, pos as int),
        decreases s@.len() - pos,
    {
        let j = match op(s, pos, CARET) {
            None => break,
            Some(x) => x,
        };
        let (rhs, k) = match primary(s, j) {
            None => break,
            Some(x) => x,
        };
        lhs = NumExpr::Pow(Box::new(lhs), Box::new(rhs));
        pos = k;
    }
    Some((lhs, pos))
}

fn primary(s: &[u8], i: usize) -> (r: Option<(NumExpr, usize)>)
    requires
        i <= s@.len(),
    ensures
        reads_as(primary_at(s@, i as int), r),
        advances(s@, i as int, r),
    decreases s@.len() - i, 2int,
{
    let n = s.len();
    if let Some(f) = arg_func(s, i) {
        if let Some((e, j)) = group(s, i + 3) {
            return Some((NumExpr::CallArg(f, Box::new(e)), j));
        }
    }
    if let Some(f) = bare_func(s, i) {
        return Some((NumExpr::Call(f), i + 3));
    }
    if let Some((v, j)) = num_var(s, i) {
        return Some((NumExpr::Variable(v), j));
    }
    if let Some((n, j)) = num_lit(s, i) {
        return Some((NumExpr::Num(n), j));
    }
    group(s, i)
}

pub(crate) fn group(s: &[u8], i: usize) -> (r: Option<(NumExpr, usize)>)
    requires
        i <= s@.len(),
    ensures
        reads_as(group_at(s@, i as int), r),
        advances(s@, i as int, r),
    decreases s@.len() - i, 0int,
{
    if !byte_at(s, i, OPEN_PAREN) {
        return None;
    }
    let a = spaces(s, i + 1);
    let (e, b) = match expr(s, a) {
        None => return None,
        Some(x) => x,
    };
    let c = spaces(s, b);
    if byte_at(s, c, CLOSE_PAREN) {
        Some((e, c + 1))
    } else {
        None
    }
}

/// Reads a numeric variable at `i`, as `num_var_at` states it.
pub fn num_var(s: &[u8], i: usize) -> (r: Option<(NumericVariable, usize)>)
    requires
        i <= s@.len(),
    ensures
        reads_as(num_var_at(s@, i as int), r),
        advances(s@, i as int, r),
    decreases s@.len() - i, 1int,
{
    if !upper(s, i) {
        return None;
    }
    let letter = s[i];
    if let Some((d1, d2, j)) = subscripts(s, i + 1) {
        return Some((NumericVariable::Array(letter, d1, d2), j));
    }
    if i + 1 < s.len() && DIGIT_0 <= s[i + 1] && s[i + 1] <= DIGIT_9 {
        Some((NumericVariable::Simple { letter, digit: Some(s[i + 1]) }, i + 2))
    } else {
        Some((NumericVariable::Simple { letter, digit: None }, i + 1))
    }
}

fn subscripts(s: &[u8], k: usize) -> (r: Option<(Box<NumExpr>, Option<Box<NumExpr>>, usize)>)
    requires
        k <= s@.len(),
    ensures
        r matches Some((d1, d2, j)) ==> subscripts_at(s@, k as int) == Some(
            (
                boxed(d1@),
                match d2 {
                    Some(b) => Some(boxed(b@)),
                    None => None,
                },
                j as int,
            ),
        ) && k < j <= s@.len(),
        r is None ==> subscripts_at(s@, k as int) is None,
    decreases s@.len() - k, 9int,
{
    if !byte_at(s, k, OPEN_PAREN) {
        return None;
    }
    let a = spaces(s, k + 1);
    let (e1, b) = match expr(s, a) {
        None => return None,
        Some(x) => x,
    };
    let c = spaces(s, b);
    if byte_at(s, c, CLOSE_PAREN) {
        return Some((Box::new(e1), None, c + 1));
    }
    if !byte_at(s, c, COMMA) {
        return None;
    }
    let d = spaces(s, c + 1);
    let (e2, e) = match expr(s, d) {
        None => return None,
        Some(x) => x,
    };
    let f = spaces(s, e);
    if byte_at(s, f, CLOSE_PAREN) {
        Some((Box::new(e1), Some(Box::new(e2)), f + 1))
    } else {
        None
    }
}

pub(crate) fn string_var(s: &[u8], i: usize) -> (r: Option<(StringVariable, usize)>)
    requires
        i <= s@.len(),
    ensures
        r matches Some((v, j)) ==> string_var_at(s@, i as int) == Some((v, j as int)) && i < j
            <= s@.len(),
        r is None ==> string_var_at(s@, i as int) is None,
{
    if upper(s, i) && byte_at(s, i + 1, DOLLAR) {
        Some((StringVariable { letter: s[i] }, i + 2))
    } else {
        None
    }
}

/// Reads a string expression at `i`, as `string_expr_at` states it.
pub fn string_expr(s: &[u8], i: usize) -> (r: Option<(StringExpr, usize)>)
    requires
        i <= s@.len(),
    ensures
        reads_as(string_expr_at(s@, i as int), r),
        advances(s@, i as int, r),
{
    if let Some((t, j)) = quoted(s, i) {
        return Some((StringExpr::Literal(t), j));
    }
    match string_var(s, i) {
        Some((v, j)) => Some((StringExpr::Variable(v), j)),
        None => None,
    }
}

/// Reads a variable of any kind at `i`, as `variable_at` states it.
pub fn variable(s: &[u8], i: usize) -> (r: Option<(Variable, usize)>)
    requires
        i <= s@.len(),
    ensures
        reads_as(variable_at(s@, i as int), r),
        advances(s@, i as int, r),
{
    if let Some((v, j)) = string_var(s, i) {
        return Some((Variable::String(v), j));
    }
    match num_var(s, i) {
        Some((v, j)) => Some((Variable::Numeric(v), j)),
        None => None,
    }
}

} // verus!
