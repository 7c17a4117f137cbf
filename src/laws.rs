//! Reading the canonical text back.
//!
//! The canonical text of a well-formed tree reads back as the same tree;
//! the parser only builds well-formed trees.
use vstd::prelude::*;
use crate::ast::{
    ExponentModel, Func, NumExprModel, NumLitModel, NumericVariableModel, PrintItemModel,
    StringExprModel,
};
use crate::expr::{
    add_chain, add_op_at, arg_func_at, bare_func_at, expr_at, factor_at, func_name, group_at,
    mul_chain, mul_op_at, num_var_at, op_at, pow_chain, prefix_at, primary_at, string_expr_at,
    string_var_at, subscripts_at, term_at, user_func_at,
};
use crate::lex::{
    at, digits_end, exponent_at, is_digit, is_quoted, is_upper, mantissa_at, num_lit_at,
    quoted_at, quoted_end, sign_at, skip_spaces, CARET, CLOSE_PAREN, COMMA, DOT, LETTER_E, MINUS,
    NEWLINE, OPEN_PAREN, PLUS, QUOTE, RETURN_CHAR, SEMICOLON, SLASH, SPACE, STAR,
};
use crate::print::{
    binary_text, exponent_text, expr_text, num_lit_text, paren, print_item_text, print_items_text,
};
use crate::stmt::{print_item_at, print_list_at, word_text, Word};

verus! {

pub open spec fn all_digits(d: Seq<u8>) -> bool {
    forall|i: int| 0 <= i < d.len() ==> is_digit(#[trigger] d[i])
}

/// A literal as the parser builds it: digits only, an integer part, and
/// exponent digits where there is an exponent.
pub open spec fn wf_lit(n: NumLitModel) -> bool {
    &&& n.int_digits.len() > 0
    &&& all_digits(n.int_digits)
    &&& all_digits(n.frac_digits)
    &&& match n.exponent {
        Some(e) => e.digits.len() > 0 && all_digits(e.digits),
        None => true,
    }
}

/// A function that can be called with an argument.
pub open spec fn wf_arg_func(f: Func) -> bool {
    match f {
        Func::Rnd => false,
        Func::User(l) => is_upper(l),
        _ => true,
    }
}

/// A function that can be called without an argument.
pub open spec fn wf_bare_func(f: Func) -> bool {
    match f {
        Func::Rnd => true,
        Func::User(l) => is_upper(l),
        _ => false,
    }
}

/// An expression as the parser builds it.
pub open spec fn wf_expr(e: NumExprModel) -> bool
    decreases e,
{
    match e {
        NumExprModel::Num(n) => wf_lit(n),
        NumExprModel::Variable(v) => match v {
            NumericVariableModel::Simple { letter, digit } => is_upper(letter) && match digit {
                Some(d) => is_digit(d),
                None => true,
            },
            NumericVariableModel::Array(l, d1, d2) => is_upper(l) && wf_expr(*d1) && match d2 {
                Some(b) => wf_expr(*b),
                None => true,
            },
        },
        NumExprModel::Neg(a) => wf_expr(*a),
        NumExprModel::Add(a, b) => wf_expr(*a) && wf_expr(*b),
        NumExprModel::Sub(a, b) => wf_expr(*a) && wf_expr(*b),
        NumExprModel::Mul(a, b) => wf_expr(*a) && wf_expr(*b),
        NumExprModel::Div(a, b) => wf_expr(*a) && wf_expr(*b),
        NumExprModel::Pow(a, b) => wf_expr(*a) && wf_expr(*b),
        NumExprModel::Call(f) => wf_bare_func(f),
        NumExprModel::CallArg(f, a) => wf_arg_func(f) && wf_expr(*a),
    }
}

/// `w` is written in `t` at `k`.
pub open spec fn placed(t: Seq<u8>, k: int, w: Seq<u8>) -> bool {
    0 <= k && k + w.len() <= t.len() && t.subrange(k, k + w.len()) == w
}

/// A character that cannot continue a primary expression.
pub open spec fn stop_char(c: u8) -> bool {
    c == SPACE || c == CLOSE_PAREN || c == COMMA || c == SEMICOLON || c == NEWLINE
        || c == RETURN_CHAR
}

pub open spec fn is_op(c: u8) -> bool {
    c == PLUS || c == MINUS || c == STAR || c == SLASH || c == CARET
}

/// At `m` stands a character that ends a primary, and no binary operator
/// follows it.
pub open spec fn ends_expr(t: Seq<u8>, m: int) -> bool {
    &&& 0 <= m < t.len()
    &&& stop_char(t[m])
    &&& !(skip_spaces(t, m) < t.len() && is_op(t[skip_spaces(t, m)]))
}

// ---------------------------------------------------------------- text

pub proof fn lemma_placed_split(t: Seq<u8>, k: int, x: Seq<u8>, y: Seq<u8>)
    requires
        placed(t, k, x + y),
    ensures
        placed(t, k, x),
        placed(t, k + x.len(), y),
{
    assert(t.subrange(k, k + x.len()) =~= (x + y).subrange(0, x.len() as int));
    assert((x + y).subrange(0, x.len() as int) =~= x);
    assert(t.subrange(k + x.len(), k + x.len() + y.len()) =~= (x + y).subrange(
        x.len() as int,
        (x.len() + y.len()) as int,
    ));
    assert((x + y).subrange(x.len() as int, (x.len() + y.len()) as int) =~= y);
}

pub proof fn lemma_placed_at(t: Seq<u8>, k: int, w: Seq<u8>, i: int)
    requires
        placed(t, k, w),
        0 <= i < w.len(),
    ensures
        t[k + i] == w[i],
{
    assert(t.subrange(k, k + w.len())[i] == t[k + i]);
}

pub proof fn lemma_paren(t: Seq<u8>, k: int, x: Seq<u8>)
    requires
        placed(t, k, paren(x)),
    ensures
        t[k] == OPEN_PAREN,
        placed(t, k + 1, x),
        t[k + 1 + x.len()] == CLOSE_PAREN,
{
    lemma_placed_split(t, k, seq![OPEN_PAREN] + x, seq![CLOSE_PAREN]);
    lemma_placed_split(t, k, seq![OPEN_PAREN], x);
    lemma_placed_at(t, k, seq![OPEN_PAREN], 0);
    lemma_placed_at(t, k + 1 + x.len(), seq![CLOSE_PAREN], 0);
}

proof fn lemma_binary(t: Seq<u8>, k: int, a: Seq<u8>, op: u8, b: Seq<u8>)
    requires
        placed(t, k, binary_text(a, op, b)),
    ensures
        t[k] == OPEN_PAREN,
        placed(t, k + 1, a),
        t[k + 1 + a.len()] == SPACE,
        t[k + 2 + a.len()] == op,
        t[k + 3 + a.len()] == SPACE,
        placed(t, k + 4 + a.len(), b),
        t[k + 4 + a.len() + b.len()] == CLOSE_PAREN,
{
    let inner = a + seq![SPACE, op, SPACE] + b;
    lemma_paren(t, k, inner);
    lemma_placed_split(t, k + 1, a + seq![SPACE, op, SPACE], b);
    lemma_placed_split(t, k + 1, a, seq![SPACE, op, SPACE]);
    lemma_placed_at(t, k + 1 + a.len(), seq![SPACE, op, SPACE], 0);
    lemma_placed_at(t, k + 1 + a.len(), seq![SPACE, op, SPACE], 1);
    lemma_placed_at(t, k + 1 + a.len(), seq![SPACE, op, SPACE], 2);
}

/// A run of digits from `a` to `b`, with no digit after it.
proof fn lemma_digits_run(t: Seq<u8>, a: int, b: int)
    requires
        0 <= a <= b <= t.len(),
        forall|i: int| a <= i < b ==> is_digit(#[trigger] t[i]),
        !(b < t.len() && is_digit(t[b])),
    ensures
        digits_end(t, a) == b,
    decreases b - a,
{
    if a < b {
        lemma_digits_run(t, a + 1, b);
    }
}

proof fn lemma_placed_digits(t: Seq<u8>, a: int, d: Seq<u8>)
    requires
        placed(t, a, d),
        all_digits(d),
    ensures
        forall|i: int| a <= i < a + d.len() ==> is_digit(#[trigger] t[i]),
{
    assert forall|i: int| a <= i < a + d.len() implies is_digit(#[trigger] t[i]) by {
        lemma_placed_at(t, a, d, i - a);
    }
}

pub open spec fn sign_text(neg: bool) -> Seq<u8> {
    if neg {
        seq![MINUS]
    } else {
        Seq::empty()
    }
}

pub open spec fn frac_text(f: Seq<u8>) -> Seq<u8> {
    if f.len() > 0 {
        seq![DOT] + f
    } else {
        Seq::empty()
    }
}

/// The text of a well-formed literal, followed by a character that ends a
/// primary, reads back as the literal.
#[verifier::rlimit(100)]
#[verifier::spinoff_prover]
pub proof fn lemma_lit_reads_back(t: Seq<u8>, k: int, n: NumLitModel)
    requires
        wf_lit(n),
        placed(t, k, num_lit_text(n)),
        k + num_lit_text(n).len() < t.len(),
        stop_char(t[k + num_lit_text(n).len()]),
    ensures
        num_lit_at(t, k) == Some((n, k + num_lit_text(n).len())),
{
    let sg = sign_text(n.negative);
    let fr = frac_text(n.frac_digits);
    let ex = exponent_text(n.exponent);
    let text = num_lit_text(n);
    let end = k + text.len();
    assert(text == sg + n.int_digits + fr + ex);
    lemma_placed_split(t, k, sg + n.int_digits + fr, ex);
    lemma_placed_split(t, k, sg + n.int_digits, fr);
    lemma_placed_split(t, k, sg, n.int_digits);
    let a = k + sg.len();
    let b = a + n.int_digits.len();
    let c = b + fr.len();
    assert(c + ex.len() == end);
    if n.negative {
        lemma_placed_at(t, k, sg, 0);
    } else {
        lemma_placed_at(t, a, n.int_digits, 0);
    }
    assert(sign_at(t, k) == (n.negative, a));
    lemma_placed_digits(t, a, n.int_digits);
    // what follows the mantissa
    if ex.len() > 0 {
        lemma_placed_at(t, c, ex, 0);
        assert(t[c] == LETTER_E);
    } else {
        assert(c == end);
    }
    if fr.len() > 0 {
        lemma_placed_at(t, b, fr, 0);
        lemma_placed_split(t, b, seq![DOT], n.frac_digits);
        lemma_placed_digits(t, b + 1, n.frac_digits);
        lemma_digits_run(t, a, b);
        lemma_digits_run(t, b + 1, c);
        assert(mantissa_at(t, a) == Some((n.int_digits, n.frac_digits, c)));
    } else {
        assert(b == c);
        lemma_digits_run(t, a, b);
        assert(mantissa_at(t, a) == Some((n.int_digits, Seq::<u8>::empty(), c)));
        assert(n.frac_digits =~= Seq::<u8>::empty());
    }
    match n.exponent {
        Some(e) => {
            let sx = seq![LETTER_E, if e.negative { MINUS } else { PLUS }];
            lemma_placed_split(t, c, sx, e.digits);
            lemma_placed_at(t, c, sx, 1);
            lemma_placed_digits(t, c + 2, e.digits);
            lemma_digits_run(t, c + 2, end);
            assert(sign_at(t, c + 1) == (e.negative, c + 2));
            assert(exponent_at(t, c) == (Some(ExponentModel { negative: e.negative, digits: e.digits }), end));
        },
        None => {
            assert(exponent_at(t, c) == (None::<ExponentModel>, c));
        },
    }
}

// ---------------------------------------------------------------- expressions

proof fn lemma_func_name_injective(f: Func, g: Func)
    requires
        func_name(f) == func_name(g),
    ensures
        f == g,
{
    assert(func_name(f)[0] == func_name(g)[0]);
    assert(func_name(f)[1] == func_name(g)[1]);
    assert(func_name(f)[2] == func_name(g)[2]);
}

/// Where the name of `f` is written, the name of no other function is.
proof fn lemma_prefix_func(t: Seq<u8>, k: int, f: Func)
    requires
        placed(t, k, func_name(f)),
    ensures
        forall|g: Func| prefix_at(t, k, func_name(g)) <==> f == g,
{
    assert forall|g: Func| prefix_at(t, k, func_name(g)) <==> f == g by {
        if prefix_at(t, k, func_name(g)) {
            lemma_func_name_injective(f, g);
        }
    }
}

proof fn lemma_prefix_upper(t: Seq<u8>, k: int, g: Func)
    requires
        prefix_at(t, k, func_name(g)),
    ensures
        is_upper(t[k]) && is_upper(t[k + 1]),
{
    assert(t.subrange(k, k + 3)[0] == t[k]);
    assert(t.subrange(k, k + 3)[1] == t[k + 1]);
}

/// Where two uppercase letters do not start the text, no function is named.
pub proof fn lemma_no_func(t: Seq<u8>, k: int)
    requires
        0 <= k,
        k + 1 < t.len(),
        !(is_upper(t[k]) && is_upper(t[k + 1])),
    ensures
        arg_func_at(t, k) is None,
        bare_func_at(t, k) is None,
{
    assert forall|g: Func| !prefix_at(t, k, func_name(g)) by {
        if prefix_at(t, k, func_name(g)) {
            lemma_prefix_upper(t, k, g);
        }
    }
}

proof fn lemma_no_lit_paren(t: Seq<u8>, k: int)
    requires
        0 <= k < t.len(),
        t[k] == OPEN_PAREN,
    ensures
        num_lit_at(t, k) is None,
{
    assert(digits_end(t, k) == k);
}

/// The first character of a canonical expression starts a primary.
pub proof fn lemma_text_first(e: NumExprModel)
    requires
        wf_expr(e),
    ensures
        expr_text(e).len() > 0,
        is_digit(expr_text(e)[0]) || is_upper(expr_text(e)[0]) || expr_text(e)[0] == OPEN_PAREN,
{
    match e {
        NumExprModel::Num(n) => {
            if !n.negative {
                assert(expr_text(e) == sign_text(false) + n.int_digits + frac_text(n.frac_digits)
                    + exponent_text(n.exponent));
                assert(is_digit(n.int_digits[0]));
            }
        },
        NumExprModel::Call(f) => {
            assert(func_name(f).len() == 3);
        },
        NumExprModel::CallArg(f, _) => {
            assert(func_name(f).len() == 3);
        },
        _ => {},
    }
}

/// Where `m` ends an expression, no chain of operators goes on.
proof fn lemma_quiet_chains(t: Seq<u8>, m: int, lhs: NumExprModel)
    requires
        ends_expr(t, m),
    ensures
        add_chain(t, m, lhs) == (lhs, m),
        mul_chain(t, m, lhs) == (lhs, m),
        pow_chain(t, m, lhs) == (lhs, m),
{
    assert(op_at(t, m, PLUS) is None);
    assert(op_at(t, m, MINUS) is None);
    assert(op_at(t, m, STAR) is None);
    assert(op_at(t, m, SLASH) is None);
    assert(op_at(t, m, CARET) is None);
}

proof fn lemma_after_primary(t: Seq<u8>, a: int, e: NumExprModel, m: int)
    requires
        0 <= a < m,
        primary_at(t, a) == Some((e, m)),
        ends_expr(t, m),
    ensures
        factor_at(t, a) == Some((e, m)),
        term_at(t, a) == Some((e, m)),
{
    lemma_quiet_chains(t, m, e);
}

/// A closing parenthesis ends an expression.
pub proof fn lemma_close_ends(t: Seq<u8>, m: int)
    requires
        0 <= m < t.len(),
        t[m] == CLOSE_PAREN || t[m] == COMMA,
    ensures
        ends_expr(t, m),
        skip_spaces(t, m) == m,
{
}

/// The canonical text of a well-formed expression, followed by a character
/// that ends a primary, reads back as that expression when read as a primary.
pub proof fn lemma_primary_reads_back(t: Seq<u8>, k: int, e: NumExprModel)
    requires
        wf_expr(e),
        placed(t, k, expr_text(e)),
        k + expr_text(e).len() < t.len(),
        stop_char(t[k + expr_text(e).len()]),
    ensures
        primary_at(t, k) == Some((e, k + expr_text(e).len())),
    decreases e, 1int,
{
    match e {
        NumExprModel::Num(_) => lemma_num_reads_back(t, k, e),
        NumExprModel::Variable(_) => lemma_var_reads_back(t, k, e),
        NumExprModel::Neg(_) => lemma_neg_reads_back(t, k, e),
        NumExprModel::Add(a, b) => lemma_binary_reads_back(t, k, e, *a, PLUS, *b),
        NumExprModel::Sub(a, b) => lemma_binary_reads_back(t, k, e, *a, MINUS, *b),
        NumExprModel::Mul(a, b) => lemma_binary_reads_back(t, k, e, *a, STAR, *b),
        NumExprModel::Div(a, b) => lemma_binary_reads_back(t, k, e, *a, SLASH, *b),
        NumExprModel::Pow(a, b) => lemma_binary_reads_back(t, k, e, *a, CARET, *b),
        NumExprModel::Call(_) => lemma_call_reads_back(t, k, e),
        NumExprModel::CallArg(_, _) => lemma_call_arg_reads_back(t, k, e),
    }
}

/// A literal: its digits, or `(+-digits)` where it is negative.
#[verifier::rlimit(100)]
#[verifier::spinoff_prover]
proof fn lemma_num_reads_back(t: Seq<u8>, k: int, e: NumExprModel)
    requires
        e is Num,
        wf_expr(e),
        placed(t, k, expr_text(e)),
        k + expr_text(e).len() < t.len(),
        stop_char(t[k + expr_text(e).len()]),
    ensures
        primary_at(t, k) == Some((e, k + expr_text(e).len())),
    decreases e, 0int,
{
    let text = expr_text(e);
    let end = k + text.len();
    match e {
        NumExprModel::Num(n) => {
            if !n.negative {
                lemma_text_first(e);
                lemma_placed_at(t, k, text, 0);
                lemma_no_func(t, k);
                lemma_lit_reads_back(t, k, n);
            } else {
                let lit = num_lit_text(n);
                lemma_paren(t, k, seq![PLUS] + lit);
                lemma_placed_split(t, k + 1, seq![PLUS], lit);
                lemma_placed_at(t, k + 1, seq![PLUS], 0);
                lemma_placed_at(t, k + 2, lit, 0);
                let m = k + 2 + lit.len();
                assert(t[m] == CLOSE_PAREN);
                lemma_no_func(t, k);
                lemma_no_lit_paren(t, k);
                lemma_no_func(t, k + 2);
                lemma_lit_reads_back(t, k + 2, n);
                lemma_close_ends(t, m);
                assert(primary_at(t, k + 2) == Some((e, m)));
                lemma_after_primary(t, k + 2, e, m);
                lemma_quiet_chains(t, m, e);
                assert(sign_at(t, k + 1) == (false, k + 2));
                assert(expr_at(t, k + 1) == Some((e, m)));
                assert(group_at(t, k) == Some((e, m + 1)));
            }
        },
        _ => {},
    }
}

/// A variable: a letter with an optional digit, or an array element.
#[verifier::rlimit(100)]
#[verifier::spinoff_prover]
proof fn lemma_var_reads_back(t: Seq<u8>, k: int, e: NumExprModel)
    requires
        e is Variable,
        wf_expr(e),
        placed(t, k, expr_text(e)),
        k + expr_text(e).len() < t.len(),
        stop_char(t[k + expr_text(e).len()]),
    ensures
        primary_at(t, k) == Some((e, k + expr_text(e).len())),
    decreases e, 0int,
{
    let text = expr_text(e);
    let end = k + text.len();
    match e {
        NumExprModel::Variable(v) => match v {
            NumericVariableModel::Simple { letter, digit } => {
                lemma_placed_at(t, k, text, 0);
                match digit {
                    Some(d) => {
                        lemma_placed_at(t, k, text, 1);
                    },
                    None => {},
                }
                lemma_no_func(t, k);
                assert(subscripts_at(t, k + 1) is None);
            },
            NumericVariableModel::Array(l, d1, d2) => {
                let tail: Seq<u8> = match d2 {
                    Some(b) => seq![COMMA, SPACE] + expr_text(*b),
                    None => Seq::empty(),
                };
                let inner = expr_text(*d1) + tail;
                assert(text == seq![l] + paren(inner));
                lemma_placed_split(t, k, seq![l], paren(inner));
                lemma_placed_at(t, k, seq![l], 0);
                lemma_paren(t, k + 1, inner);
                lemma_placed_split(t, k + 2, expr_text(*d1), tail);
                lemma_no_func(t, k);
                lemma_text_first(*d1);
                lemma_placed_at(t, k + 2, expr_text(*d1), 0);
                let m1 = k + 2 + expr_text(*d1).len();
                match d2 {
                    Some(b) => {
                        lemma_placed_split(t, m1, seq![COMMA, SPACE], expr_text(*b));
                        lemma_placed_at(t, m1, seq![COMMA, SPACE], 0);
                        lemma_placed_at(t, m1, seq![COMMA, SPACE], 1);
                        lemma_text_first(*b);
                        lemma_placed_at(t, m1 + 2, expr_text(*b), 0);
                        let m2 = m1 + 2 + expr_text(*b).len();
                        assert(t[m2] == CLOSE_PAREN);
                        lemma_close_ends(t, m1);
                        lemma_close_ends(t, m2);
                        lemma_expr_reads_back(t, k + 2, *d1);
                        lemma_expr_reads_back(t, m1 + 2, *b);
                        assert(skip_spaces(t, m1 + 2) == m1 + 2);
                        assert(skip_spaces(t, m1 + 1) == m1 + 2);
                        assert(subscripts_at(t, k + 1) == Some((d1, Some(b), m2 + 1)));
                    },
                    None => {
                        assert(inner =~= expr_text(*d1));
                        lemma_close_ends(t, m1);
                        lemma_expr_reads_back(t, k + 2, *d1);
                        assert(subscripts_at(t, k + 1) == Some((d1, None::<Box<NumExprModel>>, m1 + 1)));
                    },
                }
            },
        },
        _ => {},
    }
}

/// A negation: `(-a)`.
#[verifier::rlimit(100)]
#[verifier::spinoff_prover]
proof fn lemma_neg_reads_back(t: Seq<u8>, k: int, e: NumExprModel)
    requires
        e is Neg,
        wf_expr(e),
        placed(t, k, expr_text(e)),
        k + expr_text(e).len() < t.len(),
        stop_char(t[k + expr_text(e).len()]),
    ensures
        primary_at(t, k) == Some((e, k + expr_text(e).len())),
    decreases e, 0int,
{
    let text = expr_text(e);
    let end = k + text.len();
    match e {
        NumExprModel::Neg(a) => {
            let at_ = expr_text(*a);
            lemma_paren(t, k, seq![MINUS] + at_);
            lemma_placed_split(t, k + 1, seq![MINUS], at_);
            lemma_placed_at(t, k + 1, seq![MINUS], 0);
            let m = k + 2 + at_.len();
            lemma_no_func(t, k);
            lemma_no_lit_paren(t, k);
            lemma_primary_reads_back(t, k + 2, *a);
            lemma_close_ends(t, m);
            lemma_after_primary(t, k + 2, *a, m);
            lemma_quiet_chains(t, m, NumExprModel::Neg(a));
            assert(sign_at(t, k + 1) == (true, k + 2));
            assert(expr_at(t, k + 1) == Some((e, m)));
            assert(group_at(t, k) == Some((e, m + 1)));
        },
        _ => {},
    }
}

/// A call without an argument.
#[verifier::rlimit(100)]
#[verifier::spinoff_prover]
proof fn lemma_call_reads_back(t: Seq<u8>, k: int, e: NumExprModel)
    requires
        e is Call,
        wf_expr(e),
        placed(t, k, expr_text(e)),
        k + expr_text(e).len() < t.len(),
        stop_char(t[k + expr_text(e).len()]),
    ensures
        primary_at(t, k) == Some((e, k + expr_text(e).len())),
    decreases e, 0int,
{
    let text = expr_text(e);
    let end = k + text.len();
    match e {
        NumExprModel::Call(f) => {
            lemma_prefix_func(t, k, f);
            assert(t[k + 3] != OPEN_PAREN);
            match f {
                Func::User(l) => {
                    lemma_placed_at(t, k, text, 2);
                    assert(user_func_at(t, k) == Some(f));
                },
                _ => {
                    assert(user_func_at(t, k) is None);
                },
            }
        },
        _ => {},
    }
}

/// A call with an argument: `F(a)`.
#[verifier::rlimit(100)]
#[verifier::spinoff_prover]
proof fn lemma_call_arg_reads_back(t: Seq<u8>, k: int, e: NumExprModel)
    requires
        e is CallArg,
        wf_expr(e),
        placed(t, k, expr_text(e)),
        k + expr_text(e).len() < t.len(),
        stop_char(t[k + expr_text(e).len()]),
    ensures
        primary_at(t, k) == Some((e, k + expr_text(e).len())),
    decreases e, 0int,
{
    let text = expr_text(e);
    let end = k + text.len();
    match e {
        NumExprModel::CallArg(f, a) => {
            let name = func_name(f);
            lemma_placed_split(t, k, name, paren(expr_text(*a)));
            lemma_prefix_func(t, k, f);
            lemma_paren(t, k + 3, expr_text(*a));
            lemma_text_first(*a);
            lemma_placed_at(t, k + 4, expr_text(*a), 0);
            let m = k + 4 + expr_text(*a).len();
            lemma_close_ends(t, m);
            lemma_expr_reads_back(t, k + 4, *a);
            match f {
                Func::User(l) => {
                    lemma_placed_at(t, k, name, 2);
                    assert(user_func_at(t, k) == Some(f));
                },
                _ => {},
            }
            assert(arg_func_at(t, k) == Some(f));
            assert(group_at(t, k + 3) == Some((*a, m + 1)));
        },
        _ => {},
    }
}

/// The binary case of `lemma_primary_reads_back`: `(a op b)`.
#[verifier::rlimit(100)]
#[verifier::spinoff_prover]
proof fn lemma_binary_reads_back(
    t: Seq<u8>,
    k: int,
    e: NumExprModel,
    a: NumExprModel,
    op: u8,
    b: NumExprModel,
)
    requires
        wf_expr(a),
        wf_expr(b),
        op == PLUS && e == NumExprModel::Add(Box::new(a), Box::new(b)) || op == MINUS && e
            == NumExprModel::Sub(Box::new(a), Box::new(b)) || op == STAR && e == NumExprModel::Mul(
            Box::new(a),
            Box::new(b),
        ) || op == SLASH && e == NumExprModel::Div(Box::new(a), Box::new(b)) || op == CARET && e
            == NumExprModel::Pow(Box::new(a), Box::new(b)),
        expr_text(e) == binary_text(expr_text(a), op, expr_text(b)),
        placed(t, k, expr_text(e)),
        k + expr_text(e).len() < t.len(),
    ensures
        primary_at(t, k) == Some((e, k + expr_text(e).len())),
    decreases e, 0int,
{
    let ta = expr_text(a);
    let tb = expr_text(b);
    lemma_binary(t, k, ta, op, tb);
    let ma = k + 1 + ta.len();
    let sb = ma + 3;
    let mb = sb + tb.len();
    lemma_no_func(t, k);
    lemma_no_lit_paren(t, k);
    lemma_text_first(a);
    lemma_text_first(b);
    lemma_placed_at(t, k + 1, ta, 0);
    lemma_placed_at(t, sb, tb, 0);
    lemma_primary_reads_back(t, k + 1, a);
    lemma_primary_reads_back(t, sb, b);
    lemma_close_ends(t, mb);
    lemma_after_primary(t, sb, b, mb);
    lemma_quiet_chains(t, mb, e);
    assert(skip_spaces(t, ma + 1) == ma + 1);
    assert(skip_spaces(t, ma) == ma + 1);
    assert(skip_spaces(t, sb) == sb);
    assert(skip_spaces(t, ma + 2) == sb);
    assert(sign_at(t, k + 1) == (false, k + 1));
    if op == CARET {
        assert(op_at(t, ma, CARET) == Some(sb));
        assert(pow_chain(t, ma, a) == pow_chain(t, mb, e));
        assert(factor_at(t, k + 1) == Some((e, mb)));
        assert(term_at(t, k + 1) == Some((e, mb)));
    } else {
        assert(op_at(t, ma, CARET) is None);
        assert(pow_chain(t, ma, a) == (a, ma));
        assert(factor_at(t, k + 1) == Some((a, ma)));
        if op == STAR || op == SLASH {
            assert(mul_op_at(t, ma) == Some((op == STAR, sb)));
            assert(mul_chain(t, ma, a) == mul_chain(t, mb, e));
            assert(term_at(t, k + 1) == Some((e, mb)));
        } else {
            assert(mul_op_at(t, ma) is None);
            assert(term_at(t, k + 1) == Some((a, ma)));
            assert(add_op_at(t, ma) == Some((op == PLUS, sb)));
            assert(add_chain(t, ma, a) == add_chain(t, mb, e));
        }
    }
    assert(expr_at(t, k + 1) == Some((e, mb)));
    assert(group_at(t, k) == Some((e, mb + 1)));
}

/// The canonical text of a well-formed expression, where no operator follows
/// it, reads back as that expression.
#[verifier::rlimit(100)]
#[verifier::spinoff_prover]
pub proof fn lemma_expr_reads_back(t: Seq<u8>, k: int, e: NumExprModel)
    requires
        wf_expr(e),
        placed(t, k, expr_text(e)),
        ends_expr(t, k + expr_text(e).len()),
    ensures
        expr_at(t, k) == Some((e, k + expr_text(e).len())),
    decreases e, 2int,
{
    let m = k + expr_text(e).len();
    lemma_text_first(e);
    lemma_placed_at(t, k, expr_text(e), 0);
    lemma_primary_reads_back(t, k, e);
    lemma_after_primary(t, k, e, m);
    lemma_quiet_chains(t, m, e);
}

// ---------------------------------------------------------------- parsed trees are well formed

proof fn lemma_run_all_digits(s: Seq<u8>, a: int, b: int)
    requires
        0 <= a <= b <= s.len(),
        forall|k: int| a <= k < b ==> is_digit(#[trigger] s[k]),
    ensures
        all_digits(s.subrange(a, b)),
{
    assert forall|i: int| 0 <= i < b - a implies is_digit(#[trigger] s.subrange(a, b)[i]) by {
        assert(s.subrange(a, b)[i] == s[a + i]);
    }
}

pub proof fn lemma_lit_wf(s: Seq<u8>, i: int)
    requires
        num_lit_at(s, i) is Some,
    ensures
        wf_lit(num_lit_at(s, i).unwrap().0),
{
    let (neg, a) = sign_at(s, i);
    crate::lex::lemma_digits_end(s, a);
    let b = digits_end(s, a);
    if b > a {
        lemma_run_all_digits(s, a, b);
        if at(s, b, DOT) {
            crate::lex::lemma_digits_end(s, b + 1);
            lemma_run_all_digits(s, b + 1, digits_end(s, b + 1));
        } else {
            assert(all_digits(Seq::<u8>::empty()));
        }
        let c = mantissa_at(s, a).unwrap().2;
        assert(a <= c <= s.len());
        lemma_exponent_wf(s, c);
    } else {
        crate::lex::lemma_digits_end(s, a + 1);
        let e = digits_end(s, a + 1);
        lemma_run_all_digits(s, a + 1, e);
        assert(is_digit(seq![crate::lex::DIGIT_0][0]));
        assert(all_digits(seq![crate::lex::DIGIT_0]));
        lemma_exponent_wf(s, e);
    }
}

proof fn lemma_exponent_wf(s: Seq<u8>, c: int)
    requires
        0 <= c <= s.len(),
    ensures
        exponent_at(s, c).0 matches Some(x) ==> x.digits.len() > 0 && all_digits(x.digits),
{
    if at(s, c, LETTER_E) {
        let (neg, a) = sign_at(s, c + 1);
        crate::lex::lemma_digits_end(s, a);
        lemma_run_all_digits(s, a, digits_end(s, a));
    }
}

proof fn lemma_funcs_wf(s: Seq<u8>, i: int)
    ensures
        arg_func_at(s, i) matches Some(f) ==> wf_arg_func(f),
        bare_func_at(s, i) matches Some(f) ==> wf_bare_func(f),
{
}

pub proof fn lemma_wf_expr_at(s: Seq<u8>, i: int)
    requires
        expr_at(s, i) is Some,
    ensures
        wf_expr(expr_at(s, i).unwrap().0),
    decreases s.len() - i, 8int,
{
    let (neg, a) = sign_at(s, i);
    let (t, b) = term_at(s, a).unwrap();
    lemma_wf_term_at(s, a);
    let first = if neg {
        NumExprModel::Neg(Box::new(t))
    } else {
        t
    };
    lemma_wf_add_chain(s, b, first);
}

proof fn lemma_wf_add_chain(s: Seq<u8>, i: int, lhs: NumExprModel)
    requires
        wf_expr(lhs),
    ensures
        wf_expr(add_chain(s, i, lhs).0),
    decreases s.len() - i, 7int,
{
    if 0 <= i <= s.len() {
        if let Some((plus, j)) = add_op_at(s, i) {
            if crate::expr::forward(s, i, j) {
                if let Some((r, k)) = term_at(s, j) {
                    if crate::expr::forward(s, i, k) {
                        lemma_wf_term_at(s, j);
                        let next = if plus {
                            NumExprModel::Add(Box::new(lhs), Box::new(r))
                        } else {
                            NumExprModel::Sub(Box::new(lhs), Box::new(r))
                        };
                        lemma_wf_add_chain(s, k, next);
                    }
                }
            }
        }
    }
}

proof fn lemma_wf_term_at(s: Seq<u8>, i: int)
    requires
        term_at(s, i) is Some,
    ensures
        wf_expr(term_at(s, i).unwrap().0),
    decreases s.len() - i, 6int,
{
    let (f, b) = factor_at(s, i).unwrap();
    lemma_wf_factor_at(s, i);
    lemma_wf_mul_chain(s, b, f);
}

proof fn lemma_wf_mul_chain(s: Seq<u8>, i: int, lhs: NumExprModel)
    requires
        wf_expr(lhs),
    ensures
        wf_expr(mul_chain(s, i, lhs).0),
    decreases s.len() - i, 5int,
{
    if 0 <= i <= s.len() {
        if let Some((times, j)) = mul_op_at(s, i) {
            if crate::expr::forward(s, i, j) {
                if let Some((r, k)) = factor_at(s, j) {
                    if crate::expr::forward(s, i, k) {
                        lemma_wf_factor_at(s, j);
                        let next = if times {
                            NumExprModel::Mul(Box::new(lhs), Box::new(r))
                        } else {
                            NumExprModel::Div(Box::new(lhs), Box::new(r))
                        };
                        lemma_wf_mul_chain(s, k, next);
                    }
                }
            }
        }
    }
}

proof fn lemma_wf_factor_at(s: Seq<u8>, i: int)
    requires
        factor_at(s, i) is Some,
    ensures
        wf_expr(factor_at(s, i).unwrap().0),
    decreases s.len() - i, 4int,
{
    let (p, b) = primary_at(s, i).unwrap();
    lemma_wf_primary_at(s, i);
    lemma_wf_pow_chain(s, b, p);
}

proof fn lemma_wf_pow_chain(s: Seq<u8>, i: int, lhs: NumExprModel)
    requires
        wf_expr(lhs),
    ensures
        wf_expr(pow_chain(s, i, lhs).0),
    decreases s.len() - i, 3int,
{
    if 0 <= i <= s.len() {
        if let Some(j) = op_at(s, i, CARET) {
            if crate::expr::forward(s, i, j) {
                if let Some((r, k)) = primary_at(s, j) {
                    if crate::expr::forward(s, i, k) {
                        lemma_wf_primary_at(s, j);
                        lemma_wf_pow_chain(s, k, NumExprModel::Pow(Box::new(lhs), Box::new(r)));
                    }
                }
            }
        }
    }
}

#[verifier::rlimit(100)]
#[verifier::spinoff_prover]
proof fn lemma_wf_primary_at(s: Seq<u8>, i: int)
    requires
        primary_at(s, i) is Some,
    ensures
        wf_expr(primary_at(s, i).unwrap().0),
    decreases s.len() - i, 2int,
{
    lemma_funcs_wf(s, i);
    if arg_func_at(s, i) is Some && group_at(s, i + 3) is Some {
        lemma_wf_group_at(s, i + 3);
    } else if bare_func_at(s, i) is Some {
    } else if num_var_at(s, i) is Some {
        lemma_wf_num_var_at(s, i);
    } else if num_lit_at(s, i) is Some {
        lemma_lit_wf(s, i);
    } else {
        lemma_wf_group_at(s, i);
    }
}

proof fn lemma_wf_group_at(s: Seq<u8>, i: int)
    requires
        group_at(s, i) is Some,
    ensures
        wf_expr(group_at(s, i).unwrap().0),
    decreases s.len() - i, 0int,
{
    lemma_wf_expr_at(s, skip_spaces(s, i + 1));
}

pub proof fn lemma_wf_num_var_at(s: Seq<u8>, i: int)
    requires
        num_var_at(s, i) is Some,
    ensures
        wf_expr(NumExprModel::Variable(num_var_at(s, i).unwrap().0)),
    decreases s.len() - i, 1int,
{
    if subscripts_at(s, i + 1) is Some {
        lemma_wf_subscripts_at(s, i + 1);
    }
}

#[verifier::rlimit(100)]
#[verifier::spinoff_prover]
proof fn lemma_wf_subscripts_at(s: Seq<u8>, k: int)
    requires
        subscripts_at(s, k) is Some,
    ensures
        wf_expr(*subscripts_at(s, k).unwrap().0),
        subscripts_at(s, k).unwrap().1 matches Some(b) ==> wf_expr(*b),
    decreases s.len() - k, 9int,
{
    let a = skip_spaces(s, k + 1);
    lemma_wf_expr_at(s, a);
    let (e1, b) = expr_at(s, a).unwrap();
    let c = skip_spaces(s, b);
    if !at(s, c, CLOSE_PAREN) {
        lemma_wf_expr_at(s, skip_spaces(s, c + 1));
    }
}

// ---------------------------------------------------------------- the law

/// Reading again the canonical text of an expression that was read from any
/// text, with a line end after it, gives the same expression back.
pub proof fn lemma_expression_reparse(s: Seq<u8>, i: int)
    requires
        expr_at(s, i) is Some,
    ensures
        ({
            let e = expr_at(s, i).unwrap().0;
            expr_at(expr_text(e) + seq![NEWLINE], 0) == Some((e, expr_text(e).len() as int))
        }),
{
    let e = expr_at(s, i).unwrap().0;
    lemma_wf_expr_at(s, i);
    let text = expr_text(e);
    let t = text + seq![NEWLINE];
    assert(t.subrange(0, text.len() as int) =~= text);
    assert(t[text.len() as int] == NEWLINE);
    assert(skip_spaces(t, text.len() as int) == text.len());
    lemma_expr_reads_back(t, 0, e);
}

// ---------------------------------------------------------------- print lists

pub open spec fn is_separator(p: PrintItemModel) -> bool {
    p is Comma || p is Semicolon
}

/// Text that a quoted string can hold.
pub open spec fn wf_string_text(t: Seq<u8>) -> bool {
    forall|i: int| 0 <= i < t.len() ==> is_quoted(#[trigger] t[i])
}

pub open spec fn wf_string_expr(e: StringExprModel) -> bool {
    match e {
        StringExprModel::Literal(t) => wf_string_text(t),
        StringExprModel::Variable(v) => is_upper(v.letter),
    }
}

pub open spec fn wf_print_item(p: PrintItemModel) -> bool {
    match p {
        PrintItemModel::String(e) => wf_string_expr(e),
        PrintItemModel::Num(e) => wf_expr(e),
        PrintItemModel::Tab(e) => wf_expr(e),
        _ => true,
    }
}

/// A print list as the parser builds it: well-formed items, and no two
/// items without a separator between them.
pub open spec fn wf_print_list(items: Seq<PrintItemModel>) -> bool {
    &&& forall|i: int| 0 <= i < items.len() ==> wf_print_item(#[trigger] items[i])
    &&& forall|i: int|
        0 <= i < items.len() - 1 ==> is_separator(#[trigger] items[i]) || is_separator(items[i + 1])
}

proof fn lemma_print_item_wf(s: Seq<u8>, i: int)
    requires
        print_item_at(s, i) is Some,
    ensures
        wf_print_item(print_item_at(s, i).unwrap().0),
        !is_separator(print_item_at(s, i).unwrap().0),
{
    let tab = if prefix_at(s, i, word_text(Word::Tab)) {
        group_at(s, i + 3)
    } else {
        None
    };
    if tab is Some {
        lemma_wf_group_at(s, i + 3);
    } else if string_expr_at(s, i) is Some {
        if quoted_at(s, i) is Some {
            crate::lex::lemma_quoted_end(s, i + 1);
            let e = quoted_end(s, i + 1);
            assert forall|k: int| 0 <= k < e - (i + 1) implies is_quoted(
                #[trigger] s.subrange(i + 1, e)[k],
            ) by {
                assert(s.subrange(i + 1, e)[k] == s[i + 1 + k]);
            }
        }
    } else {
        lemma_wf_expr_at(s, i);
    }
}

/// The parser builds only well-formed print lists.
#[verifier::rlimit(100)]
#[verifier::spinoff_prover]
pub proof fn lemma_print_list_wf(s: Seq<u8>, i: int)
    ensures
        wf_print_list(print_list_at(s, i).0),
    decreases s.len() - i,
{
    let (item, a) = match print_item_at(s, i) {
        Some((x, j)) => (seq![x], j),
        None => (Seq::<PrintItemModel>::empty(), i),
    };
    if print_item_at(s, i) is Some {
        lemma_print_item_wf(s, i);
    }
    let b = skip_spaces(s, a);
    if (at(s, b, COMMA) || at(s, b, SEMICOLON)) && crate::expr::forward(s, i, skip_spaces(s, b + 1)) {
        let sep = if at(s, b, COMMA) {
            PrintItemModel::Comma
        } else {
            PrintItemModel::Semicolon
        };
        let rest = print_list_at(s, skip_spaces(s, b + 1)).0;
        lemma_print_list_wf(s, skip_spaces(s, b + 1));
        let all = item + seq![sep] + rest;
        assert(print_list_at(s, i).0 == all);
        assert forall|k: int| 0 <= k < all.len() implies wf_print_item(#[trigger] all[k]) by {
            if k > item.len() {
                assert(all[k] == rest[k - item.len() - 1]);
            }
        }
        assert forall|k: int| 0 <= k < all.len() - 1 implies is_separator(#[trigger] all[k])
            || is_separator(all[k + 1]) by {
            if k > item.len() {
                assert(all[k] == rest[k - item.len() - 1]);
                assert(all[k + 1] == rest[k - item.len()]);
            } else if k == item.len() {
                assert(all[k] == sep);
            } else {
                assert(all[k + 1] == sep);
            }
        }
    }
}

pub proof fn lemma_items_text_front(items: Seq<PrintItemModel>)
    requires
        items.len() > 0,
    ensures
        print_items_text(items) == print_item_text(items[0]) + print_items_text(items.drop_first()),
    decreases items.len(),
{
    if items.len() == 1 {
        assert(items.drop_first() =~= Seq::<PrintItemModel>::empty());
        assert(items.drop_last() =~= Seq::<PrintItemModel>::empty());
        assert(print_items_text(items.drop_last()) == Seq::<u8>::empty());
        assert(print_items_text(items.drop_first()) == Seq::<u8>::empty());
        assert(items.last() == items[0]);
        assert(print_items_text(items) =~= print_item_text(items[0]));
        assert(print_item_text(items[0]) + Seq::<u8>::empty() =~= print_item_text(items[0]));
    } else {
        lemma_items_text_front(items.drop_last());
        assert(items.drop_last().drop_first() =~= items.drop_first().drop_last());
        assert(items.drop_first().last() == items.last());
        assert(items.drop_last()[0] == items[0]);
        assert(print_items_text(items) =~= print_item_text(items[0]) + print_items_text(
            items.drop_first(),
        ));
    }
}

/// Nothing is read as a print item at a separator or a line end.
#[verifier::rlimit(100)]
#[verifier::spinoff_prover]
proof fn lemma_no_item(t: Seq<u8>, k: int)
    requires
        0 <= k < t.len(),
        t[k] == COMMA || t[k] == SEMICOLON || t[k] == NEWLINE,
    ensures
        print_item_at(t, k) is None,
{
    assert forall|g: Func| !prefix_at(t, k, func_name(g)) by {
        if prefix_at(t, k, func_name(g)) {
            lemma_prefix_upper(t, k, g);
        }
    }
    assert(!prefix_at(t, k, word_text(Word::Tab))) by {
        if prefix_at(t, k, word_text(Word::Tab)) {
            assert(t.subrange(k, k + 3)[0] == t[k]);
        }
    }
    assert(digits_end(t, k) == k);
    assert(arg_func_at(t, k) is None);
    assert(bare_func_at(t, k) is None);
    assert(num_var_at(t, k) is None);
    assert(num_lit_at(t, k) is None);
    assert(group_at(t, k) is None);
    assert(primary_at(t, k) is None);
    assert(factor_at(t, k) is None);
    assert(term_at(t, k) is None);
    assert(expr_at(t, k) is None);
}

/// A run of quoted characters from `a` to `b`.
pub proof fn lemma_quoted_run(t: Seq<u8>, a: int, b: int)
    requires
        0 <= a <= b <= t.len(),
        forall|i: int| a <= i < b ==> is_quoted(#[trigger] t[i]),
        !(b < t.len() && is_quoted(t[b])),
    ensures
        quoted_end(t, a) == b,
    decreases b - a,
{
    if a < b {
        lemma_quoted_run(t, a + 1, b);
    }
}

pub proof fn lemma_item_first(p: PrintItemModel)
    requires
        wf_print_item(p),
    ensures
        print_item_text(p).len() > 0,
        print_item_text(p)[0] != SPACE,
{
    match p {
        PrintItemModel::String(e) => {},
        PrintItemModel::Num(e) => {
            lemma_text_first(e);
        },
        PrintItemModel::Tab(e) => {},
        _ => {},
    }
}

/// The text of a numeric print item is read neither as `TAB(...)` nor as a
/// string expression.
#[verifier::rlimit(100)]
#[verifier::spinoff_prover]
proof fn lemma_num_item_alone(t: Seq<u8>, k: int, e: NumExprModel)
    requires
        wf_expr(e),
        placed(t, k, expr_text(e)),
        k + expr_text(e).len() < t.len(),
        stop_char(t[k + expr_text(e).len()]),
    ensures
        !prefix_at(t, k, word_text(Word::Tab)),
        string_expr_at(t, k) is None,
{
    let text = expr_text(e);
    lemma_text_first(e);
    lemma_placed_at(t, k, text, 0);
    if prefix_at(t, k, word_text(Word::Tab)) {
        assert(t.subrange(k, k + 3)[0] == t[k]);
        assert(t.subrange(k, k + 3)[1] == t[k + 1]);
        assert(t.subrange(k, k + 3)[2] == t[k + 2]);
        match e {
            NumExprModel::Variable(v) => match v {
                NumericVariableModel::Simple { letter, digit } => {
                    if digit is Some {
                        lemma_placed_at(t, k, text, 1);
                    }
                },
                NumericVariableModel::Array(l, d1, d2) => {
                    assert(text == seq![l] + paren(
                        expr_text(*d1) + match d2 {
                            Some(b) => seq![COMMA, SPACE] + expr_text(*b),
                            None => Seq::empty(),
                        },
                    ));
                    lemma_placed_at(t, k, text, 1);
                },
            },
            NumExprModel::Call(f) => {
                lemma_placed_at(t, k, text, 1);
                lemma_placed_at(t, k, text, 2);
            },
            NumExprModel::CallArg(f, a) => {
                assert(text == func_name(f) + paren(expr_text(*a)));
                lemma_placed_at(t, k, text, 1);
                lemma_placed_at(t, k, text, 2);
            },
            _ => {},
        }
    }
    if string_var_at(t, k) is Some {
        match e {
            NumExprModel::Variable(v) => match v {
                NumericVariableModel::Simple { letter, digit } => {
                    if digit is Some {
                        lemma_placed_at(t, k, text, 1);
                    }
                },
                NumericVariableModel::Array(l, d1, d2) => {
                    assert(text == seq![l] + paren(
                        expr_text(*d1) + match d2 {
                            Some(b) => seq![COMMA, SPACE] + expr_text(*b),
                            None => Seq::empty(),
                        },
                    ));
                    lemma_placed_at(t, k, text, 1);
                },
            },
            NumExprModel::Call(f) => {
                lemma_placed_at(t, k, text, 1);
            },
            NumExprModel::CallArg(f, a) => {
                assert(text == func_name(f) + paren(expr_text(*a)));
                lemma_placed_at(t, k, text, 1);
            },
            _ => {},
        }
    }
}

/// The canonical text of a well-formed print item, followed by a separator
/// or a line end, reads back as that item.
#[verifier::rlimit(100)]
#[verifier::spinoff_prover]
proof fn lemma_print_item_reads_back(t: Seq<u8>, k: int, x: PrintItemModel)
    requires
        wf_print_item(x),
        !is_separator(x),
        placed(t, k, print_item_text(x)),
        k + print_item_text(x).len() < t.len(),
        t[k + print_item_text(x).len()] == COMMA || t[k + print_item_text(x).len()] == SEMICOLON
            || t[k + print_item_text(x).len()] == NEWLINE,
    ensures
        print_item_at(t, k) == Some((x, k + print_item_text(x).len())),
{
    let text = print_item_text(x);
    let m = k + text.len();
    match x {
        PrintItemModel::Tab(e) => {
            let te = expr_text(e);
            lemma_placed_split(t, k, word_text(Word::Tab), paren(te));
            lemma_paren(t, k + 3, te);
            lemma_text_first(e);
            lemma_placed_at(t, k + 4, te, 0);
            lemma_close_ends(t, k + 4 + te.len());
            lemma_expr_reads_back(t, k + 4, e);
            assert(group_at(t, k + 3) == Some((e, m)));
        },
        PrintItemModel::String(se) => {
            assert(t.subrange(k, k + text.len())[0] == t[k]);
            match se {
                StringExprModel::Literal(q) => {
                    lemma_placed_split(t, k, seq![QUOTE] + q, seq![QUOTE]);
                    lemma_placed_split(t, k, seq![QUOTE], q);
                    lemma_placed_at(t, k, seq![QUOTE], 0);
                    lemma_placed_at(t, k + 1 + q.len(), seq![QUOTE], 0);
                    assert forall|i: int| k + 1 <= i < k + 1 + q.len() implies is_quoted(
                        #[trigger] t[i],
                    ) by {
                        lemma_placed_at(t, k + 1, q, i - k - 1);
                    }
                    lemma_quoted_run(t, k + 1, k + 1 + q.len());
                    if prefix_at(t, k, word_text(Word::Tab)) {
                        assert(t.subrange(k, k + 3)[0] == t[k]);
                    }
                    assert(quoted_at(t, k) == Some((q, m)));
                },
                StringExprModel::Variable(v) => {
                    lemma_placed_at(t, k, text, 1);
                    if prefix_at(t, k, word_text(Word::Tab)) {
                        assert(t.subrange(k, k + 3)[1] == t[k + 1]);
                    }
                },
            }
        },
        PrintItemModel::Num(e) => {
            lemma_num_item_alone(t, k, e);
            assert(ends_expr(t, m));
            lemma_expr_reads_back(t, k, e);
        },
        _ => {},
    }
}

#[verifier::rlimit(100)]
#[verifier::spinoff_prover]
pub proof fn lemma_print_list_reads_back(t: Seq<u8>, k: int, items: Seq<PrintItemModel>)
    requires
        wf_print_list(items),
        placed(t, k, print_items_text(items)),
        k + print_items_text(items).len() < t.len(),
        t[k + print_items_text(items).len()] == NEWLINE,
    ensures
        print_list_at(t, k) == (items, k + print_items_text(items).len()),
    decreases items.len(),
{
    let m = k + print_items_text(items).len();
    if items.len() == 0 {
        lemma_no_item(t, k);
        assert(items =~= Seq::<PrintItemModel>::empty());
    } else {
        let x = items[0];
        let rest = items.drop_first();
        lemma_items_text_front(items);
        let xt = print_item_text(x);
        lemma_placed_split(t, k, xt, print_items_text(rest));
        let j = k + xt.len();
        assert(wf_print_list(rest)) by {
            assert forall|i: int| 0 <= i < rest.len() implies wf_print_item(#[trigger] rest[i]) by {
                assert(rest[i] == items[i + 1]);
            }
            assert forall|i: int| 0 <= i < rest.len() - 1 implies is_separator(#[trigger] rest[i])
                || is_separator(rest[i + 1]) by {
                assert(rest[i] == items[i + 1]);
                assert(rest[i + 1] == items[i + 2]);
            }
        }
        if rest.len() > 0 {
            lemma_items_text_front(rest);
            lemma_placed_split(t, j, print_item_text(rest[0]), print_items_text(rest.drop_first()));
            lemma_item_first(rest[0]);
            lemma_placed_at(t, j, print_item_text(rest[0]), 0);
        }
        if is_separator(x) {
            lemma_placed_at(t, k, xt, 0);
            lemma_no_item(t, k);
            if rest.len() > 0 {
                lemma_item_first(rest[0]);
            }
            assert(skip_spaces(t, j) == j);
            lemma_print_list_reads_back(t, j, rest);
            assert(Seq::<PrintItemModel>::empty() + seq![x] + rest =~= items);
        } else {
            if rest.len() > 0 {
                assert(is_separator(rest[0]));
                lemma_placed_at(t, j, print_item_text(rest[0]), 0);
            } else {
                assert(print_items_text(rest) == Seq::<u8>::empty());
            }
            lemma_print_item_reads_back(t, k, x);
            if rest.len() > 0 {
                let sep = rest[0];
                let rest2 = rest.drop_first();
                assert(wf_print_list(rest2)) by {
                    assert forall|i: int| 0 <= i < rest2.len() implies wf_print_item(
                        #[trigger] rest2[i],
                    ) by {
                        assert(rest2[i] == rest[i + 1]);
                    }
                    assert forall|i: int| 0 <= i < rest2.len() - 1 implies is_separator(
                        #[trigger] rest2[i],
                    ) || is_separator(rest2[i + 1]) by {
                        assert(rest2[i] == rest[i + 1]);
                        assert(rest2[i + 1] == rest[i + 2]);
                    }
                }
                let j2 = j + 1;
                if rest2.len() > 0 {
                    lemma_items_text_front(rest2);
                    lemma_placed_split(
                        t,
                        j2,
                        print_item_text(rest2[0]),
                        print_items_text(rest2.drop_first()),
                    );
                    lemma_item_first(rest2[0]);
                    lemma_placed_at(t, j2, print_item_text(rest2[0]), 0);
                }
                assert(skip_spaces(t, j2) == j2);
                assert(skip_spaces(t, j) == j);
                lemma_print_list_reads_back(t, j2, rest2);
                assert(seq![x] + seq![sep] + rest2 =~= items);
            } else {
                assert(skip_spaces(t, j) == j);
                assert(seq![x] =~= items);
            }
        }
    }
}

/// Reading again the canonical text of a print list that was read from any
/// text, with a line end after it, gives the same items and separators back.
pub proof fn lemma_print_list_reparse(s: Seq<u8>, i: int)
    ensures
        ({
            let items = print_list_at(s, i).0;
            print_list_at(print_items_text(items) + seq![NEWLINE], 0) == (
                items,
                print_items_text(items).len() as int,
            )
        }),
{
    let items = print_list_at(s, i).0;
    lemma_print_list_wf(s, i);
    let text = print_items_text(items);
    let t = text + seq![NEWLINE];
    assert(t.subrange(0, text.len() as int) =~= text);
    assert(t[text.len() as int] == NEWLINE);
    lemma_print_list_reads_back(t, 0, items);
}

} // verus!
