//! The canonical text of a program tree.
//!
//! Numbers are written with their digits as read, expressions with every
//! operation in parentheses, lists with `, ` between elements, print lists
//! with nothing between items and separators, and data strings quoted.
use vstd::prelude::*;
use crate::ast::{
    views, Block, BlockModel, Datum, DatumModel, DimDecl, EntryModel, Func,
    LetStatement, LetStatementModel, NumExpr, NumExprModel, NumLit, NumLitModel,
    NumericVariable, NumericVariableModel, PrintItem, PrintItemModel, ProgramEntry, Statement,
    StatementModel, StringExpr, StringExprModel, Variable, VariableModel,
};
use crate::expr::func_name;
use crate::lex::{
    CARET, CLOSE_PAREN, COMMA, DIGIT_0, DOLLAR, DOT, EQUALS, LETTER_E, MINUS, NEWLINE,
    OPEN_PAREN, PLUS, QUOTE, SEMICOLON, SLASH, SPACE, STAR,
};
use crate::stmt::{word_text, Word};

verus! {

/// The decimal digits of `n`, without leading zeros.
pub open spec fn nat_text(n: nat) -> Seq<u8>
    decreases n,
{
    if n < 10 {
        seq![(DIGIT_0 + n) as u8]
    } else {
        nat_text(n / 10).push((DIGIT_0 + n % 10) as u8)
    }
}

pub open spec fn exponent_text(e: Option<crate::ast::ExponentModel>) -> Seq<u8> {
    match e {
        Some(x) => seq![LETTER_E, if x.negative { MINUS } else { PLUS }] + x.digits,
        None => Seq::empty(),
    }
}

/// `[-]int[.frac][E(+|-)exp]`: the decimal text of a literal, which a
/// decimal-to-double conversion turns into its value.
pub open spec fn num_lit_text(n: NumLitModel) -> Seq<u8> {
    (if n.negative {
        seq![MINUS]
    } else {
        Seq::empty()
    }) + n.int_digits + (if n.frac_digits.len() > 0 {
        seq![DOT] + n.frac_digits
    } else {
        Seq::empty()
    }) + exponent_text(n.exponent)
}

pub open spec fn paren(t: Seq<u8>) -> Seq<u8> {
    seq![OPEN_PAREN] + t + seq![CLOSE_PAREN]
}

/// `(a op b)`.
pub open spec fn binary_text(a: Seq<u8>, op: u8, b: Seq<u8>) -> Seq<u8> {
    paren(a + seq![SPACE, op, SPACE] + b)
}

pub open spec fn expr_text(e: NumExprModel) -> Seq<u8>
    decreases e,
{
    match e {
        NumExprModel::Num(n) => if n.negative {
            paren(seq![PLUS] + num_lit_text(n))
        } else {
            num_lit_text(n)
        },
        NumExprModel::Variable(v) => match v {
            NumericVariableModel::Simple { letter, digit } => match digit {
                Some(d) => seq![letter, d],
                None => seq![letter],
            },
            NumericVariableModel::Array(l, d1, d2) => seq![l] + paren(
                expr_text(*d1) + match d2 {
                    Some(b) => seq![COMMA, SPACE] + expr_text(*b),
                    None => Seq::empty(),
                },
            ),
        },
        NumExprModel::Neg(a) => paren(seq![MINUS] + expr_text(*a)),
        NumExprModel::Add(a, b) => binary_text(expr_text(*a), PLUS, expr_text(*b)),
        NumExprModel::Sub(a, b) => binary_text(expr_text(*a), MINUS, expr_text(*b)),
        NumExprModel::Mul(a, b) => binary_text(expr_text(*a), STAR, expr_text(*b)),
        NumExprModel::Div(a, b) => binary_text(expr_text(*a), SLASH, expr_text(*b)),
        NumExprModel::Pow(a, b) => binary_text(expr_text(*a), CARET, expr_text(*b)),
        NumExprModel::Call(f) => func_name(f),
        NumExprModel::CallArg(f, a) => func_name(f) + paren(expr_text(*a)),
    }
}

pub open spec fn var_text(v: NumericVariableModel) -> Seq<u8> {
    expr_text(NumExprModel::Variable(v))
}

pub open spec fn quoted_text(t: Seq<u8>) -> Seq<u8> {
    seq![QUOTE] + t + seq![QUOTE]
}

pub open spec fn string_expr_text(e: StringExprModel) -> Seq<u8> {
    match e {
        StringExprModel::Literal(t) => quoted_text(t),
        StringExprModel::Variable(v) => seq![v.letter, DOLLAR],
    }
}

pub open spec fn variable_text(v: VariableModel) -> Seq<u8> {
    match v {
        VariableModel::String(sv) => seq![sv.letter, DOLLAR],
        VariableModel::Numeric(nv) => var_text(nv),
    }
}

pub open spec fn print_item_text(p: PrintItemModel) -> Seq<u8> {
    match p {
        PrintItemModel::String(e) => string_expr_text(e),
        PrintItemModel::Num(e) => expr_text(e),
        PrintItemModel::Tab(e) => word_text(Word::Tab) + paren(expr_text(e)),
        PrintItemModel::Comma => seq![COMMA],
        PrintItemModel::Semicolon => seq![SEMICOLON],
    }
}

pub open spec fn print_items_text(items: Seq<PrintItemModel>) -> Seq<u8>
    decreases items.len(),
{
    if items.len() == 0 {
        Seq::empty()
    } else {
        print_items_text(items.drop_last()) + print_item_text(items.last())
    }
}

pub open spec fn dim_text(d: DimDecl) -> Seq<u8> {
    seq![d.letter] + paren(
        nat_text(d.dim1 as nat) + match d.dim2 {
            Some(m) => seq![COMMA, SPACE] + nat_text(m as nat),
            None => Seq::empty(),
        },
    )
}

pub open spec fn datum_text(d: DatumModel) -> Seq<u8> {
    match d {
        DatumModel::Number(n) => num_lit_text(n),
        DatumModel::String(t) => quoted_text(t),
    }
}

/// The elements' texts with `, ` between them.
pub open spec fn joined(parts: Seq<Seq<u8>>) -> Seq<u8>
    decreases parts.len(),
{
    if parts.len() == 0 {
        Seq::empty()
    } else if parts.len() == 1 {
        parts[0]
    } else {
        joined(parts.drop_last()) + seq![COMMA, SPACE] + parts.last()
    }
}

pub open spec fn statement_text(st: StatementModel) -> Seq<u8> {
    match st {
        StatementModel::Print(items) => if items.len() == 0 {
            word_text(Word::Print)
        } else {
            word_text(Word::Print) + seq![SPACE] + print_items_text(items)
        },
        StatementModel::Let(l) => word_text(Word::Let) + seq![SPACE] + match l {
            LetStatementModel::String(v, e) => seq![v.letter, DOLLAR, SPACE, EQUALS, SPACE]
                + string_expr_text(e),
            LetStatementModel::Numeric(v, e) => var_text(v) + seq![SPACE, EQUALS, SPACE]
                + expr_text(e),
        },
        StatementModel::Dim(ds) => word_text(Word::Dim) + seq![SPACE] + joined(
            ds.map_values(|d: DimDecl| dim_text(d)),
        ),
        StatementModel::Read(vs) => word_text(Word::Read) + seq![SPACE] + joined(
            vs.map_values(|v: VariableModel| variable_text(v)),
        ),
        StatementModel::Input(vs) => word_text(Word::Input) + seq![SPACE] + joined(
            vs.map_values(|v: VariableModel| variable_text(v)),
        ),
        StatementModel::Data(ds) => word_text(Word::Data) + seq![SPACE] + joined(
            ds.map_values(|d: DatumModel| datum_text(d)),
        ),
        StatementModel::Comment => word_text(Word::Rem),
        StatementModel::Randomize => word_text(Word::Randomize),
        StatementModel::Restore => word_text(Word::Restore),
        StatementModel::Return => word_text(Word::Return),
        StatementModel::Stop => word_text(Word::Stop),
        StatementModel::End => word_text(Word::End),
    }
}

/// One line: its number, a space and its statement, then a line end.
pub open spec fn entry_text(e: EntryModel) -> Seq<u8> {
    let number = match e.line {
        Some(n) => nat_text(n as nat),
        None => Seq::empty(),
    };
    let body = match e.block {
        BlockModel::Line(st) => seq![SPACE] + statement_text(st),
        BlockModel::NoOp => Seq::empty(),
        BlockModel::End => seq![SPACE] + word_text(Word::End),
    };
    number + body + seq![NEWLINE]
}

pub open spec fn program_text(p: Seq<EntryModel>) -> Seq<u8>
    decreases p.len(),
{
    if p.len() == 0 {
        Seq::empty()
    } else {
        program_text(p.drop_last()) + entry_text(p.last())
    }
}

// ---------------------------------------------------------------- exec

fn append(out: &mut Vec<u8>, t: &Vec<u8>)
    ensures
        final(out)@ == old(out)@ + t@,
{
    let mut k: usize = 0;
    while k < t.len()
        invariant
            k <= t@.len(),
            out@ == old(out)@ + t@.subrange(0, k as int),
        decreases t@.len() - k,
    {
        out.push(t[k]);
        assert(t@.subrange(0, k + 1) == t@.subrange(0, k as int).push(t@[k as int]));
        k = k + 1;
    }
    assert(t@.subrange(0, t@.len() as int) == t@);
}

fn push2(out: &mut Vec<u8>, a: u8, b: u8)
    ensures
        final(out)@ == old(out)@ + seq![a, b],
{
    out.push(a);
    out.push(b);
    assert(out@ =~= old(out)@ + seq![a, b]);
}

fn push3(out: &mut Vec<u8>, a: u8, b: u8, c: u8)
    ensures
        final(out)@ == old(out)@ + seq![a, b, c],
{
    out.push(a);
    out.push(b);
    out.push(c);
    assert(out@ =~= old(out)@ + seq![a, b, c]);
}

fn push1(out: &mut Vec<u8>, a: u8)
    ensures
        final(out)@ == old(out)@ + seq![a],
{
    out.push(a);
    assert(out@ =~= old(out)@ + seq![a]);
}

/// Writes the decimal digits of `n`.
pub fn write_nat(out: &mut Vec<u8>, n: usize)
    ensures
        final(out)@ == old(out)@ + nat_text(n as nat),
    decreases n,
{
    if n < 10 {
        push1(out, DIGIT_0 + n as u8);
    } else {
        write_nat(out, n / 10);
        push1(out, DIGIT_0 + (n % 10) as u8);
        assert(out@ =~= old(out)@ + nat_text(n as nat));
    }
}

fn write_num_lit(out: &mut Vec<u8>, n: &NumLit)
    ensures
        final(out)@ == old(out)@ + num_lit_text(n@),
{
    if n.negative {
        push1(out, MINUS);
    }
    append(out, &n.int_digits);
    if n.frac_digits.len() > 0 {
        push1(out, DOT);
        append(out, &n.frac_digits);
    }
    match &n.exponent {
        Some(e) => {
            push2(out, LETTER_E, if e.negative { MINUS } else { PLUS });
            append(out, &e.digits);
        },
        None => {},
    }
    assert(out@ =~= old(out)@ + num_lit_text(n@));
}

impl NumLit {
    /// The literal's decimal text `[-]int[.frac][E(+|-)exp]`; its value is
    /// what a decimal-to-double conversion gives for this text.
    pub fn decimal_text(&self) -> (r: Vec<u8>)
        ensures
            r@ == num_lit_text(self@),
    {
        let mut out: Vec<u8> = Vec::new();
        write_num_lit(&mut out, self);
        assert(out@ =~= num_lit_text(self@));
        out
    }
}

fn write_func(out: &mut Vec<u8>, f: Func)
    ensures
        final(out)@ == old(out)@ + func_name(f),
{
    let w = crate::expr::name_bytes(f);
    push3(out, w.0, w.1, w.2);
}

fn write_expr(out: &mut Vec<u8>, e: &NumExpr)
    ensures
        final(out)@ == old(out)@ + expr_text(e@),
    decreases e,
{
    match e {
        NumExpr::Num(n) => {
            if n.negative {
                push2(out, OPEN_PAREN, PLUS);
                write_num_lit(out, n);
                push1(out, CLOSE_PAREN);
                assert(out@ =~= old(out)@ + paren(seq![PLUS] + num_lit_text(n@)));
            } else {
                write_num_lit(out, n);
            }
        },
        NumExpr::Variable(v) => write_num_var(out, v),
        NumExpr::Neg(a) => {
            push2(out, OPEN_PAREN, MINUS);
            write_expr(out, a);
            push1(out, CLOSE_PAREN);
            assert(out@ =~= old(out)@ + paren(seq![MINUS] + expr_text(a@)));
        },
        NumExpr::Add(a, b) => {
            push1(out, OPEN_PAREN);
            write_expr(out, a);
            push3(out, SPACE, PLUS, SPACE);
            write_expr(out, b);
            push1(out, CLOSE_PAREN);
            assert(out@ =~= old(out)@ + binary_text(expr_text(a@), PLUS, expr_text(b@)));
        },
        NumExpr::Sub(a, b) => {
            push1(out, OPEN_PAREN);
            write_expr(out, a);
            push3(out, SPACE, MINUS, SPACE);
            write_expr(out, b);
            push1(out, CLOSE_PAREN);
            assert(out@ =~= old(out)@ + binary_text(expr_text(a@), MINUS, expr_text(b@)));
        },
        NumExpr::Mul(a, b) => {
            push1(out, OPEN_PAREN);
            write_expr(out, a);
            push3(out, SPACE, STAR, SPACE);
            write_expr(out, b);
            push1(out, CLOSE_PAREN);
            assert(out@ =~= old(out)@ + binary_text(expr_text(a@), STAR, expr_text(b@)));
        },
        NumExpr::Div(a, b) => {
            push1(out, OPEN_PAREN);
            write_expr(out, a);
            push3(out, SPACE, SLASH, SPACE);
            write_expr(out, b);
            push1(out, CLOSE_PAREN);
            assert(out@ =~= old(out)@ + binary_text(expr_text(a@), SLASH, expr_text(b@)));
        },
        NumExpr::Pow(a, b) => {
            push1(out, OPEN_PAREN);
            write_expr(out, a);
            push3(out, SPACE, CARET, SPACE);
            write_expr(out, b);
            push1(out, CLOSE_PAREN);
            assert(out@ =~= old(out)@ + binary_text(expr_text(a@), CARET, expr_text(b@)));
        },
        NumExpr::Call(f) => write_func(out, *f),
        NumExpr::CallArg(f, a) => {
            write_func(out, *f);
            push1(out, OPEN_PAREN);
            write_expr(out, a);
            push1(out, CLOSE_PAREN);
            assert(out@ =~= old(out)@ + func_name(*f) + paren(expr_text(a@)));
        },
    }
    assert(out@ =~= old(out)@ + expr_text(e@));
}

proof fn lemma_joined_step(parts: Seq<Seq<u8>>, k: int)
    requires
        0 <= k < parts.len(),
    ensures
        joined(parts.take(k + 1)) == joined(parts.take(k)) + (if k == 0 {
            Seq::<u8>::empty()
        } else {
            seq![COMMA, SPACE]
        }) + parts[k],
{
    assert(parts.take(k + 1).drop_last() =~= parts.take(k));
    if k == 0 {
        assert(joined(parts.take(k)) =~= Seq::<u8>::empty());
        assert(Seq::<u8>::empty() + Seq::<u8>::empty() + parts[0] =~= parts[0]);
    }
}

fn write_separator(out: &mut Vec<u8>, k: usize)
    ensures
        final(out)@ == old(out)@ + (if k == 0 {
            Seq::<u8>::empty()
        } else {
            seq![COMMA, SPACE]
        }),
{
    if k > 0 {
        push2(out, COMMA, SPACE);
    } else {
        assert(out@ =~= old(out)@ + Seq::<u8>::empty());
    }
}

fn write_num_var(out: &mut Vec<u8>, v: &NumericVariable)
    ensures
        final(out)@ == old(out)@ + var_text(v@),
    decreases v,
{
    match v {
        NumericVariable::Simple { letter, digit } => match digit {
            Some(d) => push2(out, *letter, *d),
            None => push1(out, *letter),
        },
        NumericVariable::Array(l, d1, d2) => {
            push2(out, *l, OPEN_PAREN);
            write_expr(out, d1);
            let ghost mid = out@;
            let ghost tail: Seq<u8> = match d2 {
                Some(b) => seq![COMMA, SPACE] + expr_text(b@),
                None => Seq::empty(),
            };
            match d2 {
                Some(b) => {
                    push2(out, COMMA, SPACE);
                    write_expr(out, b);
                },
                None => {},
            }
            assert(out@ =~= mid + tail);
            push1(out, CLOSE_PAREN);
            assert(out@ =~= old(out)@ + (seq![*l] + paren(expr_text(d1@) + tail)));
            assert(v@ == NumericVariableModel::Array(
                *l,
                Box::new(d1@),
                match d2 {
                    Some(b) => Some(Box::new(b@)),
                    None => None,
                },
            ));
            assert(var_text(v@) == seq![*l] + paren(expr_text(d1@) + tail));
        },
    }
}

fn write_variable(out: &mut Vec<u8>, v: &Variable)
    ensures
        final(out)@ == old(out)@ + variable_text(v@),
{
    match v {
        Variable::String(sv) => push2(out, sv.letter, DOLLAR),
        Variable::Numeric(nv) => write_num_var(out, nv),
    }
}

fn write_string_expr(out: &mut Vec<u8>, e: &StringExpr)
    ensures
        final(out)@ == old(out)@ + string_expr_text(e@),
{
    match e {
        StringExpr::Literal(t) => {
            push1(out, QUOTE);
            append(out, t);
            push1(out, QUOTE);
            assert(out@ =~= old(out)@ + quoted_text(t@));
        },
        StringExpr::Variable(v) => push2(out, v.letter, DOLLAR),
    }
}

fn write_print_item(out: &mut Vec<u8>, p: &PrintItem)
    ensures
        final(out)@ == old(out)@ + print_item_text(p@),
{
    match p {
        PrintItem::String(e) => write_string_expr(out, e),
        PrintItem::Num(e) => write_expr(out, e),
        PrintItem::Tab(e) => {
            let w = crate::stmt::word_bytes(Word::Tab);
            append(out, &w);
            push1(out, OPEN_PAREN);
            write_expr(out, e);
            push1(out, CLOSE_PAREN);
            assert(out@ =~= old(out)@ + (word_text(Word::Tab) + paren(expr_text(e@))));
        },
        PrintItem::Comma => push1(out, COMMA),
        PrintItem::Semicolon => push1(out, SEMICOLON),
    }
}

fn write_word(out: &mut Vec<u8>, w: Word)
    ensures
        final(out)@ == old(out)@ + word_text(w),
{
    let t = crate::stmt::word_bytes(w);
    append(out, &t);
}

fn write_dim(out: &mut Vec<u8>, d: &DimDecl)
    ensures
        final(out)@ == old(out)@ + dim_text(*d),
{
    push2(out, d.letter, OPEN_PAREN);
    write_nat(out, d.dim1);
    let ghost mid = out@;
    match d.dim2 {
        Some(m) => {
            push2(out, COMMA, SPACE);
            write_nat(out, m);
        },
        None => {},
    }
    push1(out, CLOSE_PAREN);
    assert(out@ =~= old(out)@ + dim_text(*d));
}

fn write_datum(out: &mut Vec<u8>, d: &Datum)
    ensures
        final(out)@ == old(out)@ + datum_text(d@),
{
    match d {
        Datum::Number(n) => write_num_lit(out, n),
        Datum::String(t) => {
            push1(out, QUOTE);
            append(out, t);
            push1(out, QUOTE);
            assert(out@ =~= old(out)@ + quoted_text(t@));
        },
    }
}

fn write_dims(out: &mut Vec<u8>, ds: &Vec<DimDecl>)
    ensures
        final(out)@ == old(out)@ + joined(ds@.map_values(|d: DimDecl| dim_text(d))),
{
    let ghost parts = ds@.map_values(|d: DimDecl| dim_text(d));
    let mut k: usize = 0;
    assert(joined(parts.take(0)) =~= Seq::<u8>::empty());
    assert(out@ =~= old(out)@ + joined(parts.take(0)));
    while k < ds.len()
        invariant
            k <= ds@.len(),
            parts == ds@.map_values(|d: DimDecl| dim_text(d)),
            out@ == old(out)@ + joined(parts.take(k as int)),
        decreases ds@.len() - k,
    {
        proof {
            lemma_joined_step(parts, k as int);
        }
        write_separator(out, k);
        write_dim(out, &ds[k]);
        assert(out@ =~= old(out)@ + joined(parts.take(k + 1)));
        k = k + 1;
    }
    assert(parts.take(k as int) =~= parts);
}

fn write_vars(out: &mut Vec<u8>, vs: &Vec<Variable>)
    ensures
        final(out)@ == old(out)@ + joined(views(vs@).map_values(|v: VariableModel| variable_text(v))),
{
    let ghost parts = views(vs@).map_values(|v: VariableModel| variable_text(v));
    let mut k: usize = 0;
    assert(joined(parts.take(0)) =~= Seq::<u8>::empty());
    assert(out@ =~= old(out)@ + joined(parts.take(0)));
    while k < vs.len()
        invariant
            k <= vs@.len(),
            parts == views(vs@).map_values(|v: VariableModel| variable_text(v)),
            out@ == old(out)@ + joined(parts.take(k as int)),
        decreases vs@.len() - k,
    {
        proof {
            lemma_joined_step(parts, k as int);
        }
        write_separator(out, k);
        write_variable(out, &vs[k]);
        assert(out@ =~= old(out)@ + joined(parts.take(k + 1)));
        k = k + 1;
    }
    assert(parts.take(k as int) =~= parts);
}

fn write_data(out: &mut Vec<u8>, ds: &Vec<Datum>)
    ensures
        final(out)@ == old(out)@ + joined(views(ds@).map_values(|d: DatumModel| datum_text(d))),
{
    let ghost parts = views(ds@).map_values(|d: DatumModel| datum_text(d));
    let mut k: usize = 0;
    assert(joined(parts.take(0)) =~= Seq::<u8>::empty());
    assert(out@ =~= old(out)@ + joined(parts.take(0)));
    while k < ds.len()
        invariant
            k <= ds@.len(),
            parts == views(ds@).map_values(|d: DatumModel| datum_text(d)),
            out@ == old(out)@ + joined(parts.take(k as int)),
        decreases ds@.len() - k,
    {
        proof {
            lemma_joined_step(parts, k as int);
        }
        write_separator(out, k);
        write_datum(out, &ds[k]);
        assert(out@ =~= old(out)@ + joined(parts.take(k + 1)));
        k = k + 1;
    }
    assert(parts.take(k as int) =~= parts);
}

fn write_print_items(out: &mut Vec<u8>, items: &Vec<PrintItem>)
    ensures
        final(out)@ == old(out)@ + print_items_text(views(items@)),
{
    let mut k: usize = 0;
    assert(views(items@).take(0) =~= Seq::<PrintItemModel>::empty());
    assert(out@ =~= old(out)@ + print_items_text(views(items@).take(0)));
    while k < items.len()
        invariant
            k <= items@.len(),
            out@ == old(out)@ + print_items_text(views(items@).take(k as int)),
        decreases items@.len() - k,
    {
        write_print_item(out, &items[k]);
        assert(views(items@).take(k + 1).drop_last() =~= views(items@).take(k as int));
        assert(out@ =~= old(out)@ + print_items_text(views(items@).take(k + 1)));
        k = k + 1;
    }
    assert(views(items@).take(k as int) =~= views(items@));
}

fn write_statement(out: &mut Vec<u8>, st: &Statement)
    ensures
        final(out)@ == old(out)@ + statement_text(st@),
{
    match st {
        Statement::Print(items) => {
            write_word(out, Word::Print);
            if items.len() > 0 {
                push1(out, SPACE);
                write_print_items(out, items);
            }
        },
        Statement::Let(l) => {
            write_word(out, Word::Let);
            push1(out, SPACE);
            match l {
                LetStatement::String(v, e) => {
                    push3(out, v.letter, DOLLAR, SPACE);
                    push2(out, EQUALS, SPACE);
                    write_string_expr(out, e);
                },
                LetStatement::Numeric(v, e) => {
                    write_num_var(out, v);
                    push3(out, SPACE, EQUALS, SPACE);
                    write_expr(out, e);
                },
            }
        },
        Statement::Dim(ds) => {
            write_word(out, Word::Dim);
            push1(out, SPACE);
            write_dims(out, ds);
        },
        Statement::Read(vs) => {
            write_word(out, Word::Read);
            push1(out, SPACE);
            write_vars(out, vs);
        },
        Statement::Input(vs) => {
            write_word(out, Word::Input);
            push1(out, SPACE);
            write_vars(out, vs);
        },
        Statement::Data(ds) => {
            write_word(out, Word::Data);
            push1(out, SPACE);
            write_data(out, ds);
        },
        Statement::Comment => write_word(out, Word::Rem),
        Statement::Randomize => write_word(out, Word::Randomize),
        Statement::Restore => write_word(out, Word::Restore),
        Statement::Return => write_word(out, Word::Return),
        Statement::Stop => write_word(out, Word::Stop),
        Statement::End => write_word(out, Word::End),
    }
    assert(out@ =~= old(out)@ + statement_text(st@));
}

fn write_entry(out: &mut Vec<u8>, e: &ProgramEntry)
    ensures
        final(out)@ == old(out)@ + entry_text(e@),
{
    match e.line {
        Some(n) => write_nat(out, n),
        None => {},
    }
    match &e.block {
        Block::Line(st) => {
            push1(out, SPACE);
            write_statement(out, st);
        },
        Block::NoOp => {},
        Block::End => {
            push1(out, SPACE);
            write_word(out, Word::End);
        },
    }
    push1(out, NEWLINE);
    assert(out@ =~= old(out)@ + entry_text(e@));
}

/// The canonical text of a program: each entry on its own line.
pub fn format_program(p: &Vec<ProgramEntry>) -> (r: Vec<u8>)
    ensures
        r@ == program_text(views(p@)),
{
    let mut out: Vec<u8> = Vec::new();
    let mut k: usize = 0;
    assert(views(p@).take(0) =~= Seq::<EntryModel>::empty());
    while k < p.len()
        invariant
            k <= p@.len(),
            out@ == program_text(views(p@).take(k as int)),
        decreases p@.len() - k,
    {
        write_entry(&mut out, &p[k]);
        assert(views(p@).take(k + 1).drop_last() =~= views(p@).take(k as int));
        k = k + 1;
    }
    assert(views(p@).take(k as int) =~= views(p@));
    out
}

} // verus!
