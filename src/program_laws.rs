//! Reading the canonical text of statements, lines and programs back.
use vstd::prelude::*;
use crate::ast::{
    BlockModel, EntryModel, DatumModel, DimDecl, LetStatementModel, NumExprModel, NumericVariableModel, StatementModel,
    StringExprModel, VariableModel,
};
use crate::expr::{
    expr_at, num_var_at, primary_at, string_expr_at, string_var_at, variable_at,
};
use crate::laws::{
    lemma_print_list_wf, lemma_wf_expr_at, lemma_wf_num_var_at, ends_expr, lemma_close_ends, lemma_expr_reads_back, lemma_lit_reads_back, lemma_no_func,
    lemma_paren, lemma_placed_at, lemma_placed_split, lemma_primary_reads_back, lemma_quoted_run,
    lemma_item_first, lemma_items_text_front, lemma_print_list_reads_back, lemma_text_first, placed, stop_char, wf_expr, wf_lit, wf_print_list, wf_string_expr,
    wf_string_text,
};
use crate::lex::{
    bare_at, bare_end, is_bare, trim_end, remark_end, at, digits_end, digits_value, is_digit, is_quoted, is_upper, num_lit_at, quoted_at,
    quoted_end, skip_spaces, CLOSE_PAREN, COMMA, DIGIT_0, DOLLAR, EQUALS, NEWLINE, OPEN_PAREN,
    QUOTE, SPACE,
};
use crate::print::{
    entry_text, program_text, joined, datum_text, dim_text, expr_text, nat_text, num_lit_text, paren, quoted_text,
    print_items_text, statement_text, string_expr_text, var_text, variable_text,
};
use crate::program::{
    end_line_at, line_at, program_from, program_of, statement_line_at, LineModel, ParseError,
};
use crate::stmt::{
    after, dim_statement_at, let_at, print_list_at, print_statement_at, statement_at,
    bound_at, data_list_at, datum_at, dim_decl_at, dim_more, var_item_at, var_list_at, var_more,
};
use crate::stmt::{word_at, word_text, Word};

verus! {

proof fn lemma_word_injective(w: Word, v: Word)
    requires
        word_text(w).len() >= 3,
        word_text(v).len() >= 3,
        word_text(w)[0] == word_text(v)[0],
        word_text(w)[1] == word_text(v)[1],
        word_text(w)[2] == word_text(v)[2],
    ensures
        w == v,
{
}

proof fn lemma_word_len(w: Word)
    ensures
        word_text(w).len() >= 3,
{
}

/// Where the keyword `v` is written, no other keyword is read.
pub proof fn lemma_not_word(t: Seq<u8>, a: int, w: Word, v: Word)
    requires
        placed(t, a, word_text(v)),
        w != v,
    ensures
        !word_at(t, a, w),
{
    reveal(word_at);
    lemma_word_len(w);
    lemma_word_len(v);
    if word_at(t, a, w) {
        let n = word_text(w).len() as int;
        assert(t.subrange(a, a + n)[0] == t[a]);
        assert(t.subrange(a, a + n)[1] == t[a + 1]);
        assert(t.subrange(a, a + n)[2] == t[a + 2]);
        lemma_placed_at(t, a, word_text(v), 0);
        lemma_placed_at(t, a, word_text(v), 1);
        lemma_placed_at(t, a, word_text(v), 2);
        lemma_word_injective(w, v);
    }
}

/// A keyword followed by a space or a line end is read as that keyword.
pub proof fn lemma_is_word(t: Seq<u8>, a: int, w: Word)
    requires
        placed(t, a, word_text(w)),
        a + word_text(w).len() < t.len(),
        t[a + word_text(w).len()] == SPACE || t[a + word_text(w).len()] == NEWLINE,
    ensures
        word_at(t, a, w),
        forall|v: Word| v != w ==> !word_at(t, a, v),
{
    reveal(word_at);
    assert forall|v: Word| v != w implies !word_at(t, a, v) by {
        lemma_not_word(t, a, v, w);
    }
}

/// The digits of `n` have the value `n`.
pub proof fn lemma_nat_text(n: nat)
    ensures
        nat_text(n).len() > 0,
        forall|i: int| 0 <= i < nat_text(n).len() ==> is_digit(#[trigger] nat_text(n)[i]),
        digits_value(nat_text(n)) == n,
    decreases n,
{
    if n >= 10 {
        lemma_nat_text(n / 10);
        let d = nat_text(n / 10);
        assert(nat_text(n).drop_last() =~= d);
        assert(nat_text(n).last() == (DIGIT_0 + n % 10) as u8);
        assert(((DIGIT_0 + n % 10) as u8 - DIGIT_0) as nat == n % 10);
        assert(n / 10 * 10 + n % 10 == n);
        assert(digits_value(nat_text(n).drop_last()) == n / 10);
        assert forall|i: int| 0 <= i < nat_text(n).len() implies is_digit(#[trigger] nat_text(n)[i]) by {
            if i < d.len() {
                assert(nat_text(n)[i] == d[i]);
            }
        }
    } else {
        assert(nat_text(n).drop_last() =~= Seq::<u8>::empty());
        assert(nat_text(n).last() == (DIGIT_0 + n) as u8);
        assert(digits_value(nat_text(n).drop_last()) == 0);
    }
}

/// Digits of `n` written at `k`, with no digit after them, are read as `n`.
pub proof fn lemma_nat_reads_back(t: Seq<u8>, k: int, n: nat)
    requires
        placed(t, k, nat_text(n)),
        k + nat_text(n).len() < t.len(),
        !is_digit(t[k + nat_text(n).len()]),
    ensures
        digits_end(t, k) == k + nat_text(n).len(),
        digits_value(t.subrange(k, k + nat_text(n).len())) == n,
{
    lemma_nat_text(n);
    let e = k + nat_text(n).len();
    assert forall|i: int| k <= i < e implies is_digit(#[trigger] t[i]) by {
        lemma_placed_at(t, k, nat_text(n), i - k);
    }
    lemma_digits_run(t, k, e);
}

proof fn lemma_digits_run(t: Seq<u8>, a: int, b: int)
    requires
        0 <= a <= b <= t.len(),
        forall|i: int| a <= i < b ==> is_digit(#[trigger] t[i]),
        !(b < t.len() && is_digit(t[b])),
    ensures
        digits_end(t, a) == b,
    decreases b - a,
{
    if a < b {
        lemma_digits_run(t, a + 1, b);
    }
}

/// `, x` for each of `parts`.
pub open spec fn tail_text(parts: Seq<Seq<u8>>) -> Seq<u8>
    decreases parts.len(),
{
    if parts.len() == 0 {
        Seq::empty()
    } else {
        seq![COMMA, SPACE] + parts[0] + tail_text(parts.drop_first())
    }
}

pub proof fn lemma_joined_front(parts: Seq<Seq<u8>>)
    requires
        parts.len() > 0,
    ensures
        crate::print::joined(parts) == parts[0] + tail_text(parts.drop_first()),
    decreases parts.len(),
{
    if parts.len() == 1 {
        assert(parts.drop_first() =~= Seq::<Seq<u8>>::empty());
        assert(parts[0] + Seq::<u8>::empty() =~= parts[0]);
    } else {
        lemma_joined_front(parts.drop_last());
        lemma_tail_push(parts.drop_first().drop_last(), parts.last());
        assert(parts.drop_last().drop_first() =~= parts.drop_first().drop_last());
        assert(parts.drop_first().drop_last().push(parts.last()) =~= parts.drop_first());
        assert(parts.drop_last()[0] == parts[0]);
        assert(crate::print::joined(parts) =~= parts[0] + tail_text(parts.drop_first()));
    }
}

proof fn lemma_tail_push(parts: Seq<Seq<u8>>, x: Seq<u8>)
    ensures
        tail_text(parts.push(x)) == tail_text(parts) + seq![COMMA, SPACE] + x,
    decreases parts.len(),
{
    if parts.len() == 0 {
        assert(parts.push(x).drop_first() =~= Seq::<Seq<u8>>::empty());
        assert(tail_text(parts.push(x).drop_first()) == Seq::<u8>::empty());
        assert(tail_text(parts) == Seq::<u8>::empty());
        assert(parts.push(x)[0] == x);
        assert(tail_text(parts.push(x)) =~= tail_text(parts) + seq![COMMA, SPACE] + x);
    } else {
        lemma_tail_push(parts.drop_first(), x);
        assert(parts.push(x).drop_first() =~= parts.drop_first().push(x));
        assert(parts.push(x)[0] == parts[0]);
        assert(tail_text(parts.push(x)) == seq![COMMA, SPACE] + parts[0] + tail_text(
            parts.drop_first().push(x),
        ));
        assert(tail_text(parts.push(x)) =~= tail_text(parts) + seq![COMMA, SPACE] + x);
    }
}

pub open spec fn wf_variable(v: VariableModel) -> bool {
    match v {
        VariableModel::String(sv) => is_upper(sv.letter),
        VariableModel::Numeric(nv) => wf_expr(NumExprModel::Variable(nv)),
    }
}

pub open spec fn wf_datum(d: DatumModel) -> bool {
    match d {
        DatumModel::Number(n) => wf_lit(n),
        DatumModel::String(q) => wf_string_text(q),
    }
}

pub open spec fn line_end_or(t: Seq<u8>, m: int, c: u8) -> bool {
    0 <= m < t.len() && (t[m] == c || t[m] == NEWLINE)
}

/// A numeric variable's text, followed by a character that ends a primary,
/// is read as that variable.
#[verifier::rlimit(100)]
#[verifier::spinoff_prover]
pub proof fn lemma_num_var_reads_back(t: Seq<u8>, k: int, v: NumericVariableModel)
    requires
        wf_expr(NumExprModel::Variable(v)),
        placed(t, k, var_text(v)),
        k + var_text(v).len() < t.len(),
        stop_char(t[k + var_text(v).len()]),
    ensures
        num_var_at(t, k) == Some((v, k + var_text(v).len())),
        string_var_at(t, k) is None,
{
    let e = NumExprModel::Variable(v);
    let text = expr_text(e);
    lemma_primary_reads_back(t, k, e);
    lemma_placed_at(t, k, text, 0);
    match v {
        NumericVariableModel::Simple { letter, digit } => {
            if digit is Some {
                lemma_placed_at(t, k, text, 1);
            }
        },
        NumericVariableModel::Array(l, d1, d2) => {
            assert(text == seq![l] + paren(
                expr_text(*d1) + match d2 {
                    Some(b) => seq![COMMA, SPACE] + expr_text(*b),
                    None => Seq::empty(),
                },
            ));
            lemma_placed_at(t, k, text, 1);
        },
    }
    lemma_no_func(t, k);
}

pub proof fn lemma_variable_reads_back(t: Seq<u8>, k: int, v: VariableModel)
    requires
        wf_variable(v),
        placed(t, k, variable_text(v)),
        line_end_or(t, k + variable_text(v).len(), COMMA),
    ensures
        variable_at(t, k) == Some((v, k + variable_text(v).len())),
{
    match v {
        VariableModel::String(sv) => {
            lemma_placed_at(t, k, variable_text(v), 0);
            lemma_placed_at(t, k, variable_text(v), 1);
        },
        VariableModel::Numeric(nv) => {
            lemma_num_var_reads_back(t, k, nv);
        },
    }
}

pub open spec fn variable_texts(vs: Seq<VariableModel>) -> Seq<Seq<u8>> {
    vs.map_values(|v: VariableModel| variable_text(v))
}

#[verifier::rlimit(100)]
#[verifier::spinoff_prover]
pub proof fn lemma_var_more_reads_back(t: Seq<u8>, j: int, vs: Seq<VariableModel>)
    requires
        forall|i: int| 0 <= i < vs.len() ==> wf_variable(#[trigger] vs[i]),
        placed(t, j, tail_text(variable_texts(vs))),
        j + tail_text(variable_texts(vs)).len() < t.len(),
        t[j + tail_text(variable_texts(vs)).len()] == NEWLINE,
    ensures
        var_more(t, j) == (vs, j + tail_text(variable_texts(vs)).len()),
    decreases vs.len(),
{
    let parts = variable_texts(vs);
    if vs.len() == 0 {
        assert(vs =~= Seq::<VariableModel>::empty());
    } else {
        let rest = vs.drop_first();
        assert(parts.drop_first() =~= variable_texts(rest));
        let x = variable_text(vs[0]);
        lemma_placed_split(t, j, seq![COMMA, SPACE] + x, tail_text(variable_texts(rest)));
        lemma_placed_split(t, j, seq![COMMA, SPACE], x);
        lemma_placed_at(t, j, seq![COMMA, SPACE], 0);
        lemma_placed_at(t, j, seq![COMMA, SPACE], 1);
        let e = j + 2 + x.len();
        if rest.len() > 0 {
            lemma_placed_at(t, e, tail_text(variable_texts(rest)), 0);
        }
        lemma_variable_reads_back(t, j + 2, vs[0]);
        lemma_placed_at(t, j + 2, x, 0);
        assert(skip_spaces(t, j + 2) == j + 2);
        assert(skip_spaces(t, j + 1) == j + 2);
        assert(skip_spaces(t, e) == e);
        assert forall|i: int| 0 <= i < rest.len() implies wf_variable(#[trigger] rest[i]) by {
            assert(rest[i] == vs[i + 1]);
        }
        lemma_var_more_reads_back(t, e, rest);
        assert(seq![vs[0]] + rest =~= vs);
    }
}

pub proof fn lemma_placed_join(t: Seq<u8>, k: int, x: Seq<u8>, y: Seq<u8>)
    requires
        placed(t, k, x),
        placed(t, k + x.len(), y),
    ensures
        placed(t, k, x + y),
{
    assert forall|i: int| 0 <= i < (x + y).len() implies t.subrange(k, k + (x + y).len())[i]
        == (x + y)[i] by {
        if i < x.len() {
            lemma_placed_at(t, k, x, i);
        } else {
            lemma_placed_at(t, k + x.len(), y, i - x.len());
        }
    }
    assert(t.subrange(k, k + (x + y).len()) =~= x + y);
}

pub proof fn lemma_quoted_reads_back(t: Seq<u8>, k: int, q: Seq<u8>)
    requires
        wf_string_text(q),
        placed(t, k, quoted_text(q)),
    ensures
        quoted_at(t, k) == Some((q, k + q.len() + 2)),
        t[k] == QUOTE,
{
    lemma_placed_split(t, k, seq![QUOTE] + q, seq![QUOTE]);
    lemma_placed_split(t, k, seq![QUOTE], q);
    lemma_placed_at(t, k, seq![QUOTE], 0);
    lemma_placed_at(t, k + 1 + q.len(), seq![QUOTE], 0);
    assert forall|i: int| k + 1 <= i < k + 1 + q.len() implies is_quoted(#[trigger] t[i]) by {
        lemma_placed_at(t, k + 1, q, i - k - 1);
    }
    lemma_quoted_run(t, k + 1, k + 1 + q.len());
}

pub proof fn lemma_datum_reads_back(t: Seq<u8>, i: int, p: int, d: DatumModel)
    requires
        wf_datum(d),
        i <= p,
        skip_spaces(t, i) == p,
        placed(t, p, datum_text(d)),
        line_end_or(t, p + datum_text(d).len(), COMMA),
    ensures
        datum_at(t, i) == (d, p + datum_text(d).len()),
{
    let m = p + datum_text(d).len();
    assert(skip_spaces(t, m) == m);
    match d {
        DatumModel::Number(n) => {
            lemma_lit_reads_back(t, p, n);
        },
        DatumModel::String(q) => {
            lemma_quoted_reads_back(t, p, q);
            assert(digits_end(t, p) == p);
            assert(num_lit_at(t, p) is None);
        },
    }
}

pub open spec fn datum_texts(ds: Seq<DatumModel>) -> Seq<Seq<u8>> {
    ds.map_values(|d: DatumModel| datum_text(d))
}

#[verifier::rlimit(100)]
#[verifier::spinoff_prover]
pub proof fn lemma_data_reads_back(t: Seq<u8>, i: int, p: int, ds: Seq<DatumModel>)
    requires
        ds.len() > 0,
        forall|k: int| 0 <= k < ds.len() ==> wf_datum(#[trigger] ds[k]),
        i <= p,
        skip_spaces(t, i) == p,
        placed(t, p, datum_text(ds[0]) + tail_text(datum_texts(ds.drop_first()))),
        p + (datum_text(ds[0]) + tail_text(datum_texts(ds.drop_first()))).len() < t.len(),
        t[p + (datum_text(ds[0]) + tail_text(datum_texts(ds.drop_first()))).len()] == NEWLINE,
    ensures
        data_list_at(t, i) == (
            ds,
            p + (datum_text(ds[0]) + tail_text(datum_texts(ds.drop_first()))).len(),
        ),
    decreases ds.len(),
{
    let x = datum_text(ds[0]);
    let rest = ds.drop_first();
    let tail = tail_text(datum_texts(rest));
    lemma_placed_split(t, p, x, tail);
    let j = p + x.len();
    if rest.len() > 0 {
        lemma_placed_at(t, j, tail, 0);
    }
    lemma_datum_reads_back(t, i, p, ds[0]);
    if rest.len() > 0 {
        let parts = datum_texts(rest);
        assert(parts.drop_first() =~= datum_texts(rest.drop_first()));
        assert(parts[0] == datum_text(rest[0]));
        lemma_placed_split(t, j, seq![COMMA, SPACE] + parts[0], tail_text(parts.drop_first()));
        lemma_placed_split(t, j, seq![COMMA, SPACE], parts[0]);
        lemma_placed_at(t, j, seq![COMMA, SPACE], 1);
        lemma_text_start(rest[0]);
        lemma_placed_at(t, j + 2, parts[0], 0);
        assert(skip_spaces(t, j + 2) == j + 2);
        assert(skip_spaces(t, j + 1) == j + 2);
        assert forall|k: int| 0 <= k < rest.len() implies wf_datum(#[trigger] rest[k]) by {
            assert(rest[k] == ds[k + 1]);
        }
        lemma_placed_join(t, j + 2, parts[0], tail_text(parts.drop_first()));
        lemma_data_reads_back(t, j + 1, j + 2, rest);
        assert(seq![ds[0]] + rest =~= ds);
    } else {
        assert(tail == Seq::<u8>::empty());
        assert(seq![ds[0]] =~= ds);
    }
}

proof fn lemma_text_start(d: DatumModel)
    requires
        wf_datum(d),
    ensures
        datum_text(d).len() > 0,
        datum_text(d)[0] != SPACE,
{
    match d {
        DatumModel::Number(n) => {
            if !n.negative {
                assert(num_lit_text(n)[0] == n.int_digits[0]);
            }
        },
        DatumModel::String(q) => {},
    }
}

#[verifier::rlimit(100)]
#[verifier::spinoff_prover]
pub proof fn lemma_dim_decl_reads_back(t: Seq<u8>, i: int, d: DimDecl)
    requires
        is_upper(d.letter),
        placed(t, i, dim_text(d)),
        line_end_or(t, i + dim_text(d).len(), COMMA),
    ensures
        dim_decl_at(t, i) == Some((d, i + dim_text(d).len())),
{
    let n1 = nat_text(d.dim1 as nat);
    let opt: Seq<u8> = match d.dim2 {
        Some(m) => seq![COMMA, SPACE] + nat_text(m as nat),
        None => Seq::empty(),
    };
    lemma_placed_split(t, i, seq![d.letter], paren(n1 + opt));
    lemma_placed_at(t, i, seq![d.letter], 0);
    lemma_paren(t, i + 1, n1 + opt);
    lemma_placed_split(t, i + 2, n1, opt);
    lemma_nat_text(d.dim1 as nat);
    lemma_placed_at(t, i + 2, n1, 0);
    let e = i + 2 + n1.len();
    assert(skip_spaces(t, i + 1) == i + 1);
    assert(skip_spaces(t, i + 2) == i + 2);
    match d.dim2 {
        Some(m) => {
            let n2 = nat_text(m as nat);
            lemma_placed_split(t, e, seq![COMMA, SPACE], n2);
            lemma_placed_at(t, e, seq![COMMA, SPACE], 0);
            lemma_placed_at(t, e, seq![COMMA, SPACE], 1);
            lemma_nat_text(m as nat);
            lemma_placed_at(t, e + 2, n2, 0);
            lemma_nat_reads_back(t, i + 2, d.dim1 as nat);
            lemma_nat_reads_back(t, e + 2, m as nat);
            let g = e + 2 + n2.len();
            assert(skip_spaces(t, e) == e);
            assert(skip_spaces(t, e + 2) == e + 2);
            assert(skip_spaces(t, e + 1) == e + 2);
            assert(skip_spaces(t, g) == g);
            assert(bound_at(t, i + 2) == Some((d.dim1, e)));
            assert(bound_at(t, e + 2) == Some((m, g)));
        },
        None => {
            assert(n1 + opt =~= n1);
            lemma_nat_reads_back(t, i + 2, d.dim1 as nat);
            assert(skip_spaces(t, e) == e);
            assert(bound_at(t, i + 2) == Some((d.dim1, e)));
        },
    }
}

pub open spec fn dim_texts(ds: Seq<DimDecl>) -> Seq<Seq<u8>> {
    ds.map_values(|d: DimDecl| dim_text(d))
}

#[verifier::rlimit(100)]
#[verifier::spinoff_prover]
pub proof fn lemma_dim_more_reads_back(t: Seq<u8>, j: int, ds: Seq<DimDecl>)
    requires
        forall|i: int| 0 <= i < ds.len() ==> is_upper(#[trigger] ds[i].letter),
        placed(t, j, tail_text(dim_texts(ds))),
        j + tail_text(dim_texts(ds)).len() < t.len(),
        t[j + tail_text(dim_texts(ds)).len()] == NEWLINE,
    ensures
        dim_more(t, j) == (ds, j + tail_text(dim_texts(ds)).len()),
    decreases ds.len(),
{
    let parts = dim_texts(ds);
    if ds.len() == 0 {
        assert(ds =~= Seq::<DimDecl>::empty());
    } else {
        let rest = ds.drop_first();
        assert(parts.drop_first() =~= dim_texts(rest));
        let x = dim_text(ds[0]);
        lemma_placed_split(t, j, seq![COMMA, SPACE] + x, tail_text(dim_texts(rest)));
        lemma_placed_split(t, j, seq![COMMA, SPACE], x);
        lemma_placed_at(t, j, seq![COMMA, SPACE], 0);
        lemma_placed_at(t, j, seq![COMMA, SPACE], 1);
        let e = j + 2 + x.len();
        if rest.len() > 0 {
            lemma_placed_at(t, e, tail_text(dim_texts(rest)), 0);
        }
        lemma_dim_decl_reads_back(t, j + 2, ds[0]);
        lemma_placed_at(t, j + 2, x, 0);
        assert(skip_spaces(t, j) == j);
        assert(skip_spaces(t, j + 2) == j + 2);
        assert(skip_spaces(t, j + 1) == j + 2);
        assert(skip_spaces(t, e) == e);
        assert forall|i: int| 0 <= i < rest.len() implies is_upper(#[trigger] rest[i].letter) by {
            assert(rest[i] == ds[i + 1]);
        }
        lemma_dim_more_reads_back(t, e, rest);
        assert(seq![ds[0]] + rest =~= ds);
    }
}

pub proof fn lemma_string_expr_reads_back(t: Seq<u8>, c: int, se: StringExprModel)
    requires
        wf_string_expr(se),
        placed(t, c, string_expr_text(se)),
        c + string_expr_text(se).len() < t.len(),
    ensures
        string_expr_at(t, c) == Some((se, c + string_expr_text(se).len())),
{
    match se {
        StringExprModel::Literal(q) => {
            lemma_quoted_reads_back(t, c, q);
        },
        StringExprModel::Variable(v) => {
            lemma_placed_at(t, c, string_expr_text(se), 0);
            lemma_placed_at(t, c, string_expr_text(se), 1);
        },
    }
}

pub open spec fn let_body(l: LetStatementModel) -> Seq<u8> {
    match l {
        LetStatementModel::String(v, e) => seq![v.letter, DOLLAR, SPACE, EQUALS, SPACE]
            + string_expr_text(e),
        LetStatementModel::Numeric(v, e) => var_text(v) + seq![SPACE, EQUALS, SPACE] + expr_text(e),
    }
}

pub open spec fn wf_let(l: LetStatementModel) -> bool {
    match l {
        LetStatementModel::String(v, e) => is_upper(v.letter) && wf_string_expr(e),
        LetStatementModel::Numeric(v, e) => wf_expr(NumExprModel::Variable(v)) && wf_expr(e),
    }
}

#[verifier::rlimit(100)]
#[verifier::spinoff_prover]
pub proof fn lemma_let_reads_back(t: Seq<u8>, k: int, l: LetStatementModel)
    requires
        wf_let(l),
        placed(t, k, seq![SPACE] + let_body(l)),
        k + 1 + let_body(l).len() < t.len(),
        t[k + 1 + let_body(l).len()] == NEWLINE,
    ensures
        let_at(t, k) == Some((l, k + 1 + let_body(l).len())),
{
    let a = k + 1;
    lemma_placed_split(t, k, seq![SPACE], let_body(l));
    lemma_placed_at(t, k, seq![SPACE], 0);
    match l {
        LetStatementModel::String(v, e) => {
            let head = seq![v.letter, DOLLAR, SPACE, EQUALS, SPACE];
            lemma_placed_split(t, a, head, string_expr_text(e));
            lemma_placed_at(t, a, head, 0);
            lemma_placed_at(t, a, head, 1);
            lemma_placed_at(t, a, head, 2);
            lemma_placed_at(t, a, head, 3);
            lemma_placed_at(t, a, head, 4);
            assert(skip_spaces(t, a) == a);
            assert(skip_spaces(t, k) == a);
            assert(skip_spaces(t, a + 3) == a + 3);
            assert(skip_spaces(t, a + 2) == a + 3);
            let c = a + 5;
            match e {
                StringExprModel::Literal(q) => {
                    lemma_quoted_reads_back(t, c, q);
                },
                StringExprModel::Variable(w) => {
                    lemma_placed_at(t, c, string_expr_text(e), 0);
                },
            }
            assert(skip_spaces(t, c) == c);
            assert(skip_spaces(t, a + 4) == c);
            lemma_string_expr_reads_back(t, c, e);
        },
        LetStatementModel::Numeric(v, e) => {
            let vt = var_text(v);
            lemma_placed_split(t, a, vt + seq![SPACE, EQUALS, SPACE], expr_text(e));
            lemma_placed_split(t, a, vt, seq![SPACE, EQUALS, SPACE]);
            let m = a + vt.len();
            lemma_placed_at(t, m, seq![SPACE, EQUALS, SPACE], 0);
            lemma_placed_at(t, m, seq![SPACE, EQUALS, SPACE], 1);
            lemma_placed_at(t, m, seq![SPACE, EQUALS, SPACE], 2);
            lemma_text_first(NumExprModel::Variable(v));
            lemma_placed_at(t, a, vt, 0);
            assert(skip_spaces(t, a) == a);
            assert(skip_spaces(t, k) == a);
            lemma_num_var_reads_back(t, a, v);
            lemma_text_first(e);
            let c = m + 3;
            lemma_placed_at(t, c, expr_text(e), 0);
            assert(skip_spaces(t, m + 1) == m + 1);
            assert(skip_spaces(t, m) == m + 1);
            assert(skip_spaces(t, c) == c);
            assert(skip_spaces(t, m + 2) == c);
            let end = c + expr_text(e).len();
            assert(skip_spaces(t, end) == end);
            assert(ends_expr(t, end));
            lemma_expr_reads_back(t, c, e);
        },
    }
}

/// A statement as the parser builds it.
pub open spec fn wf_statement(st: StatementModel) -> bool {
    match st {
        StatementModel::Print(items) => wf_print_list(items),
        StatementModel::Let(l) => wf_let(l),
        StatementModel::Dim(ds) => ds.len() > 0 && forall|i: int|
            0 <= i < ds.len() ==> is_upper(#[trigger] ds[i].letter),
        StatementModel::Read(vs) => vs.len() > 0 && forall|i: int|
            0 <= i < vs.len() ==> wf_variable(#[trigger] vs[i]),
        StatementModel::Input(vs) => vs.len() > 0 && forall|i: int|
            0 <= i < vs.len() ==> wf_variable(#[trigger] vs[i]),
        StatementModel::Data(ds) => ds.len() > 0 && forall|i: int|
            0 <= i < ds.len() ==> wf_datum(#[trigger] ds[i]),
        StatementModel::End => false,
        _ => true,
    }
}

pub open spec fn keyword_of(st: StatementModel) -> Word {
    match st {
        StatementModel::Print(_) => Word::Print,
        StatementModel::Let(_) => Word::Let,
        StatementModel::Dim(_) => Word::Dim,
        StatementModel::Read(_) => Word::Read,
        StatementModel::Input(_) => Word::Input,
        StatementModel::Data(_) => Word::Data,
        StatementModel::Comment => Word::Rem,
        StatementModel::Randomize => Word::Randomize,
        StatementModel::Restore => Word::Restore,
        StatementModel::Return => Word::Return,
        StatementModel::Stop => Word::Stop,
        StatementModel::End => Word::End,
    }
}

/// What follows the keyword in a statement's text.
pub open spec fn arguments_text(st: StatementModel) -> Seq<u8> {
    statement_text(st).subrange(word_text(keyword_of(st)).len() as int, statement_text(st).len() as int)
}

proof fn lemma_statement_split(st: StatementModel)
    requires
        wf_statement(st),
    ensures
        statement_text(st) == word_text(keyword_of(st)) + arguments_text(st),
        arguments_text(st).len() == 0 || arguments_text(st)[0] == SPACE,
{
    let w = word_text(keyword_of(st));
    assert(statement_text(st).subrange(0, w.len() as int) =~= w);
    assert(statement_text(st) =~= w + arguments_text(st));
}

#[verifier::rlimit(100)]
#[verifier::spinoff_prover]
proof fn lemma_print_reads_back(t: Seq<u8>, p: int, items: Seq<crate::ast::PrintItemModel>)
    requires
        wf_print_list(items),
        placed(t, p, arguments_text(StatementModel::Print(items))),
        p + arguments_text(StatementModel::Print(items)).len() < t.len(),
        t[p + arguments_text(StatementModel::Print(items)).len()] == NEWLINE,
    ensures
        print_statement_at(t, p) == (
            StatementModel::Print(items),
            p + arguments_text(StatementModel::Print(items)).len(),
        ),
{
    let st = StatementModel::Print(items);
    let w = word_text(Word::Print);
    if items.len() == 0 {
        assert(arguments_text(st) =~= Seq::<u8>::empty());
        assert(items =~= Seq::<crate::ast::PrintItemModel>::empty());
    } else {
        let it = print_items_text(items);
        assert(arguments_text(st) =~= seq![SPACE] + it);
        lemma_placed_split(t, p, seq![SPACE], it);
        lemma_placed_at(t, p, seq![SPACE], 0);
        lemma_items_text_front(items);
        lemma_item_first(items[0]);
        lemma_placed_at(t, p + 1, it, 0);
        assert(skip_spaces(t, p + 1) == p + 1);
        assert(skip_spaces(t, p) == p + 1);
        lemma_print_list_reads_back(t, p + 1, items);
    }
}

#[verifier::rlimit(100)]
#[verifier::spinoff_prover]
proof fn lemma_var_list_reads_back(t: Seq<u8>, p: int, vs: Seq<VariableModel>)
    requires
        vs.len() > 0,
        forall|i: int| 0 <= i < vs.len() ==> wf_variable(#[trigger] vs[i]),
        placed(t, p, seq![SPACE] + joined(variable_texts(vs))),
        p + 1 + joined(variable_texts(vs)).len() < t.len(),
        t[p + 1 + joined(variable_texts(vs)).len()] == NEWLINE,
    ensures
        var_list_at(t, p) == Some((vs, p + 1 + joined(variable_texts(vs)).len())),
{
    let parts = variable_texts(vs);
    lemma_joined_front(parts);
    assert(parts.drop_first() =~= variable_texts(vs.drop_first()));
    let x = parts[0];
    lemma_placed_split(t, p, seq![SPACE], joined(parts));
    lemma_placed_at(t, p, seq![SPACE], 0);
    lemma_placed_split(t, p + 1, x, tail_text(parts.drop_first()));
    let e = p + 1 + x.len();
    if vs.len() > 1 {
        lemma_placed_at(t, e, tail_text(parts.drop_first()), 0);
    }
    lemma_variable_reads_back(t, p + 1, vs[0]);
    lemma_placed_at(t, p + 1, x, 0);
    assert(skip_spaces(t, p + 1) == p + 1);
    assert(skip_spaces(t, p) == p + 1);
    assert(skip_spaces(t, e) == e);
    let rest = vs.drop_first();
    assert forall|i: int| 0 <= i < rest.len() implies wf_variable(#[trigger] rest[i]) by {
        assert(rest[i] == vs[i + 1]);
    }
    lemma_var_more_reads_back(t, e, rest);
    assert(seq![vs[0]] + rest =~= vs);
}

#[verifier::rlimit(100)]
#[verifier::spinoff_prover]
proof fn lemma_dim_list_reads_back(t: Seq<u8>, p: int, ds: Seq<DimDecl>)
    requires
        ds.len() > 0,
        forall|i: int| 0 <= i < ds.len() ==> is_upper(#[trigger] ds[i].letter),
        placed(t, p, seq![SPACE] + joined(dim_texts(ds))),
        p + 1 + joined(dim_texts(ds)).len() < t.len(),
        t[p + 1 + joined(dim_texts(ds)).len()] == NEWLINE,
    ensures
        dim_statement_at(t, p) == Some(
            (StatementModel::Dim(ds), p + 1 + joined(dim_texts(ds)).len()),
        ),
{
    let parts = dim_texts(ds);
    lemma_joined_front(parts);
    assert(parts.drop_first() =~= dim_texts(ds.drop_first()));
    let x = parts[0];
    lemma_placed_split(t, p, seq![SPACE], joined(parts));
    lemma_placed_at(t, p, seq![SPACE], 0);
    lemma_placed_split(t, p + 1, x, tail_text(parts.drop_first()));
    let e = p + 1 + x.len();
    if ds.len() > 1 {
        lemma_placed_at(t, e, tail_text(parts.drop_first()), 0);
    }
    lemma_dim_decl_reads_back(t, p + 1, ds[0]);
    lemma_placed_at(t, p + 1, x, 0);
    assert(skip_spaces(t, p + 1) == p + 1);
    assert(skip_spaces(t, p) == p + 1);
    let rest = ds.drop_first();
    assert forall|i: int| 0 <= i < rest.len() implies is_upper(#[trigger] rest[i].letter) by {
        assert(rest[i] == ds[i + 1]);
    }
    lemma_dim_more_reads_back(t, e, rest);
    assert(seq![ds[0]] + rest =~= ds);
}

#[verifier::rlimit(100)]
#[verifier::spinoff_prover]
proof fn lemma_data_list_reads_back(t: Seq<u8>, p: int, ds: Seq<DatumModel>)
    requires
        ds.len() > 0,
        forall|i: int| 0 <= i < ds.len() ==> wf_datum(#[trigger] ds[i]),
        placed(t, p, seq![SPACE] + joined(datum_texts(ds))),
        p + 1 + joined(datum_texts(ds)).len() < t.len(),
        t[p + 1 + joined(datum_texts(ds)).len()] == NEWLINE,
    ensures
        at(t, p, SPACE),
        data_list_at(t, skip_spaces(t, p)) == (ds, p + 1 + joined(datum_texts(ds)).len()),
{
    let parts = datum_texts(ds);
    lemma_joined_front(parts);
    assert(parts.drop_first() =~= datum_texts(ds.drop_first()));
    lemma_placed_split(t, p, seq![SPACE], joined(parts));
    lemma_placed_at(t, p, seq![SPACE], 0);
    lemma_text_start(ds[0]);
    lemma_placed_at(t, p + 1, joined(parts), 0);
    assert(skip_spaces(t, p + 1) == p + 1);
    assert(skip_spaces(t, p) == p + 1);
    lemma_data_reads_back(t, p + 1, p + 1, ds);
}

/// The canonical text of a well-formed statement, followed by a line end,
/// reads back as that statement.
#[verifier::rlimit(100)]
#[verifier::spinoff_prover]
pub proof fn lemma_statement_reads_back(t: Seq<u8>, a: int, st: StatementModel)
    requires
        wf_statement(st),
        placed(t, a, statement_text(st)),
        a + statement_text(st).len() < t.len(),
        t[a + statement_text(st).len()] == NEWLINE,
    ensures
        statement_at(t, a) == Some((st, a + statement_text(st).len())),
{
    let w = keyword_of(st);
    let args = arguments_text(st);
    lemma_statement_split(st);
    lemma_placed_split(t, a, word_text(w), args);
    let p = a + word_text(w).len();
    if args.len() > 0 {
        lemma_placed_at(t, p, args, 0);
    }
    lemma_is_word(t, a, w);
    assert(after(a, w) == p);
    let end = a + statement_text(st).len();
    match st {
        StatementModel::Print(items) => {
            lemma_print_reads_back(t, p, items);
        },
        StatementModel::Let(l) => {
            assert(args =~= seq![SPACE] + let_body(l));
            lemma_let_reads_back(t, p, l);
        },
        StatementModel::Dim(ds) => {
            assert(args =~= seq![SPACE] + joined(dim_texts(ds)));
            lemma_dim_list_reads_back(t, p, ds);
        },
        StatementModel::Read(vs) => {
            assert(args =~= seq![SPACE] + joined(variable_texts(vs)));
            lemma_var_list_reads_back(t, p, vs);
        },
        StatementModel::Input(vs) => {
            assert(args =~= seq![SPACE] + joined(variable_texts(vs)));
            lemma_var_list_reads_back(t, p, vs);
        },
        StatementModel::Data(ds) => {
            assert(args =~= seq![SPACE] + joined(datum_texts(ds)));
            lemma_data_list_reads_back(t, p, ds);
        },
        StatementModel::Comment => {
            assert(args.len() == 0);
            assert(skip_spaces(t, p) == p);
            assert(remark_end(t, p) == p);
        },
        _ => {
            assert(args.len() == 0);
        },
    }
}

/// A line as the parser builds it, other than the `END` line.
pub open spec fn wf_entry(e: EntryModel) -> bool {
    match e.block {
        BlockModel::Line(st) => (e.line matches Some(n) && n > 0) && wf_statement(st),
        BlockModel::NoOp => (e.line matches Some(n) ==> n > 0),
        BlockModel::End => false,
    }
}

/// The `END` line with the number `n`.
pub open spec fn is_end_entry(e: EntryModel) -> bool {
    &&& e.block is End
    &&& (e.line matches Some(n) && n > 0)
}

/// A program as the parser builds it: at least one line, then the `END`
/// line.
pub open spec fn wf_program(p: Seq<EntryModel>) -> bool {
    &&& p.len() >= 2
    &&& is_end_entry(p.last())
    &&& forall|i: int| 0 <= i < p.len() - 1 ==> wf_entry(#[trigger] p[i])
}

/// A numbered line with a statement.
#[verifier::rlimit(100)]
#[verifier::spinoff_prover]
proof fn lemma_statement_line_reads_back(t: Seq<u8>, k: int, n: usize, st: StatementModel)
    requires
        n > 0,
        wf_statement(st),
        placed(t, k, nat_text(n as nat) + (seq![SPACE] + statement_text(st)) + seq![NEWLINE]),
    ensures
        line_at(t, k) == LineModel::Entry(
            EntryModel { line: Some(n), block: BlockModel::Line(st) },
            k + (nat_text(n as nat) + (seq![SPACE] + statement_text(st)) + seq![NEWLINE]).len(),
        ),
{
    let number = nat_text(n as nat);
    let body = seq![SPACE] + statement_text(st);
    lemma_placed_split(t, k, number + body, seq![NEWLINE]);
    lemma_placed_split(t, k, number, body);
    let d = k + number.len();
    let last = d + body.len();
    lemma_placed_at(t, last, seq![NEWLINE], 0);
    lemma_placed_at(t, d, body, 0);
    lemma_nat_reads_back(t, k, n as nat);
    lemma_placed_split(t, d, seq![SPACE], statement_text(st));
    let a = d + 1;
    lemma_statement_split(st);
    lemma_word_len(keyword_of(st));
    lemma_placed_split(t, a, word_text(keyword_of(st)), arguments_text(st));
    lemma_placed_at(t, a, word_text(keyword_of(st)), 0);
    assert(is_upper(word_text(keyword_of(st))[0]));
    assert(skip_spaces(t, a) == a);
    assert(skip_spaces(t, d) == a);
    let p = a + word_text(keyword_of(st)).len();
    if arguments_text(st).len() > 0 {
        lemma_placed_at(t, p, arguments_text(st), 0);
    }
    lemma_is_word(t, a, keyword_of(st));
    assert(end_line_at(t, d) is None);
    lemma_statement_reads_back(t, a, st);
    assert(skip_spaces(t, last) == last);
    assert(statement_line_at(t, a) == Some((st, last + 1)));
}

/// A numbered blank line.
#[verifier::rlimit(100)]
#[verifier::spinoff_prover]
proof fn lemma_blank_line_reads_back(t: Seq<u8>, k: int, n: usize)
    requires
        n > 0,
        placed(t, k, nat_text(n as nat) + seq![NEWLINE]),
    ensures
        line_at(t, k) == LineModel::Entry(
            EntryModel { line: Some(n), block: BlockModel::NoOp },
            k + nat_text(n as nat).len() + 1,
        ),
{
    let number = nat_text(n as nat);
    lemma_placed_split(t, k, number, seq![NEWLINE]);
    let d = k + number.len();
    lemma_placed_at(t, d, seq![NEWLINE], 0);
    lemma_nat_reads_back(t, k, n as nat);
    assert(skip_spaces(t, d) == d);
}

/// The `END` line.
#[verifier::rlimit(100)]
#[verifier::spinoff_prover]
proof fn lemma_end_line_reads_back(t: Seq<u8>, k: int, n: usize)
    requires
        n > 0,
        placed(t, k, nat_text(n as nat) + (seq![SPACE] + word_text(Word::End)) + seq![NEWLINE]),
    ensures
        line_at(t, k) == LineModel::End(
            n,
            k + (nat_text(n as nat) + (seq![SPACE] + word_text(Word::End)) + seq![NEWLINE]).len(),
        ),
{
    let number = nat_text(n as nat);
    let body = seq![SPACE] + word_text(Word::End);
    lemma_placed_split(t, k, number + body, seq![NEWLINE]);
    lemma_placed_split(t, k, number, body);
    let d = k + number.len();
    let last = d + body.len();
    lemma_placed_at(t, last, seq![NEWLINE], 0);
    lemma_placed_at(t, d, body, 0);
    lemma_nat_reads_back(t, k, n as nat);
    lemma_placed_split(t, d, seq![SPACE], word_text(Word::End));
    assert(word_text(Word::End).len() == 3);
    lemma_placed_at(t, d + 1, word_text(Word::End), 0);
    assert(skip_spaces(t, d + 1) == d + 1);
    assert(skip_spaces(t, d) == d + 1);
    lemma_is_word(t, d + 1, Word::End);
    assert(after(d + 1, Word::End) == last);
    assert(skip_spaces(t, last) == last);
    assert(end_line_at(t, d) == Some(last + 1));
}

pub proof fn lemma_line_reads_back(t: Seq<u8>, k: int, e: EntryModel)
    requires
        wf_entry(e) || is_end_entry(e),
        placed(t, k, entry_text(e)),
    ensures
        line_at(t, k) == if is_end_entry(e) {
            LineModel::End(e.line.unwrap(), k + entry_text(e).len())
        } else {
            LineModel::Entry(e, k + entry_text(e).len())
        },
{
    match e.block {
        BlockModel::Line(st) => {
            lemma_statement_line_reads_back(t, k, e.line.unwrap(), st);
        },
        BlockModel::NoOp => match e.line {
            Some(n) => {
                assert(entry_text(e) =~= nat_text(n as nat) + seq![NEWLINE]);
                lemma_blank_line_reads_back(t, k, n);
            },
            None => {
                assert(entry_text(e) =~= seq![NEWLINE]);
                lemma_placed_at(t, k, entry_text(e), 0);
                assert(digits_end(t, k) == k);
                assert(skip_spaces(t, k) == k);
            },
        },
        BlockModel::End => {
            lemma_end_line_reads_back(t, k, e.line.unwrap());
        },
    }
}

pub proof fn lemma_program_text_front(p: Seq<EntryModel>)
    requires
        p.len() > 0,
    ensures
        program_text(p) == entry_text(p[0]) + program_text(p.drop_first()),
    decreases p.len(),
{
    if p.len() == 1 {
        assert(p.drop_first() =~= Seq::<EntryModel>::empty());
        assert(p.drop_last() =~= Seq::<EntryModel>::empty());
        assert(program_text(p.drop_last()) == Seq::<u8>::empty());
        assert(program_text(p.drop_first()) == Seq::<u8>::empty());
        assert(p.last() == p[0]);
        assert(program_text(p) =~= entry_text(p[0]) + program_text(p.drop_first()));
    } else {
        lemma_program_text_front(p.drop_last());
        assert(p.drop_last().drop_first() =~= p.drop_first().drop_last());
        assert(p.drop_first().last() == p.last());
        assert(p.drop_last()[0] == p[0]);
        assert(program_text(p) =~= entry_text(p[0]) + program_text(p.drop_first()));
    }
}

#[verifier::rlimit(100)]
#[verifier::spinoff_prover]
pub proof fn lemma_program_from_reads_back(
    t: Seq<u8>,
    pos: int,
    acc: Seq<EntryModel>,
    rest: Seq<EntryModel>,
)
    requires
        rest.len() >= 1,
        acc.len() + rest.len() >= 2,
        is_end_entry(rest.last()),
        forall|i: int| 0 <= i < rest.len() - 1 ==> wf_entry(#[trigger] rest[i]),
        placed(t, pos, program_text(rest)),
        pos + program_text(rest).len() == t.len(),
    ensures
        program_from(t, pos, acc) == Ok::<Seq<EntryModel>, crate::program::ParseError>(acc + rest),
    decreases rest.len(),
{
    lemma_program_text_front(rest);
    let x = rest[0];
    let xt = entry_text(x);
    lemma_placed_split(t, pos, xt, program_text(rest.drop_first()));
    assert(xt.len() > 0);
    if rest.len() == 1 {
        assert(rest.last() == x);
        assert(program_text(rest.drop_first()) == Seq::<u8>::empty()) by {
            assert(rest.drop_first() =~= Seq::<EntryModel>::empty());
        }
        lemma_line_reads_back(t, pos, x);
        assert(acc.push(EntryModel { line: x.line, block: BlockModel::End }) =~= acc + rest);
    } else {
        assert(wf_entry(x));
        lemma_line_reads_back(t, pos, x);
        let more = rest.drop_first();
        assert(more.last() == rest.last());
        assert forall|i: int| 0 <= i < more.len() - 1 implies wf_entry(#[trigger] more[i]) by {
            assert(more[i] == rest[i + 1]);
        }
        lemma_program_from_reads_back(t, pos + xt.len(), acc.push(x), more);
        assert(acc.push(x) + more =~= acc + rest);
    }
}

// ---------------------------------------------------------------- parsed programs are well formed

proof fn lemma_quoted_wf(s: Seq<u8>, i: int)
    requires
        quoted_at(s, i) is Some,
    ensures
        wf_string_text(quoted_at(s, i).unwrap().0),
{
    crate::lex::lemma_quoted_end(s, i + 1);
    let e = quoted_end(s, i + 1);
    assert forall|k: int| 0 <= k < e - (i + 1) implies is_quoted(#[trigger] s.subrange(i + 1, e)[k]) by {
        assert(s.subrange(i + 1, e)[k] == s[i + 1 + k]);
    }
}

proof fn lemma_string_expr_wf(s: Seq<u8>, i: int)
    requires
        string_expr_at(s, i) is Some,
    ensures
        wf_string_expr(string_expr_at(s, i).unwrap().0),
{
    if quoted_at(s, i) is Some {
        lemma_quoted_wf(s, i);
    }
}

proof fn lemma_variable_wf(s: Seq<u8>, i: int)
    requires
        variable_at(s, i) is Some,
    ensures
        wf_variable(variable_at(s, i).unwrap().0),
{
    if string_var_at(s, i) is None {
        lemma_wf_num_var_at(s, i);
    }
}

proof fn lemma_var_more_wf(s: Seq<u8>, b: int)
    ensures
        forall|i: int| 0 <= i < var_more(s, b).0.len() ==> wf_variable(#[trigger] var_more(s, b).0[i]),
    decreases s.len() - b,
{
    if at(s, b, COMMA) {
        if let Some((v, c)) = var_item_at(s, b + 1) {
            if crate::expr::forward(s, b, c) {
                lemma_variable_wf(s, skip_spaces(s, b + 1));
                lemma_var_more_wf(s, c);
                let rest = var_more(s, c).0;
                assert forall|i: int| 0 <= i < var_more(s, b).0.len() implies wf_variable(
                    #[trigger] var_more(s, b).0[i],
                ) by {
                    if i > 0 {
                        assert(var_more(s, b).0[i] == rest[i - 1]);
                    }
                }
            }
        }
    }
}

proof fn lemma_var_list_wf(s: Seq<u8>, k: int)
    requires
        var_list_at(s, k) is Some,
    ensures
        var_list_at(s, k).unwrap().0.len() > 0,
        forall|i: int| 0 <= i < var_list_at(s, k).unwrap().0.len() ==> wf_variable(
            #[trigger] var_list_at(s, k).unwrap().0[i],
        ),
{
    let (v, b) = var_item_at(s, k).unwrap();
    lemma_variable_wf(s, skip_spaces(s, k));
    lemma_var_more_wf(s, b);
    let all = var_list_at(s, k).unwrap().0;
    assert forall|i: int| 0 <= i < all.len() implies wf_variable(#[trigger] all[i]) by {
        if i > 0 {
            assert(all[i] == var_more(s, b).0[i - 1]);
        }
    }
}

proof fn lemma_dim_more_wf(s: Seq<u8>, j: int)
    ensures
        forall|i: int| 0 <= i < dim_more(s, j).0.len() ==> is_upper(#[trigger] dim_more(s, j).0[i].letter),
    decreases s.len() - j,
{
    let a = skip_spaces(s, j);
    if at(s, a, COMMA) {
        if let Some((d, c)) = dim_decl_at(s, skip_spaces(s, a + 1)) {
            if crate::expr::forward(s, j, c) {
                lemma_dim_more_wf(s, c);
                let rest = dim_more(s, c).0;
                assert forall|i: int| 0 <= i < dim_more(s, j).0.len() implies is_upper(
                    #[trigger] dim_more(s, j).0[i].letter,
                ) by {
                    if i > 0 {
                        assert(dim_more(s, j).0[i] == rest[i - 1]);
                    }
                }
            }
        }
    }
}

#[verifier::rlimit(100)]
#[verifier::spinoff_prover]
proof fn lemma_datum_wf(s: Seq<u8>, i: int)
    requires
        0 <= i <= s.len(),
    ensures
        wf_datum(datum_at(s, i).0),
{
    let a = skip_spaces(s, i);
    crate::lex::lemma_skip_spaces(s, i);
    if num_lit_at(s, a) is Some {
        crate::laws::lemma_lit_wf(s, a);
    } else if quoted_at(s, a) is Some {
        lemma_quoted_wf(s, a);
    } else {
        let j = bare_end(s, a);
        crate::lex::lemma_bare_end(s, a);
        crate::lex::lemma_skip_spaces(s, a);
        assert(skip_spaces(s, a) == a);
        crate::lex::lemma_trim_end(s, a, j);
        let e = trim_end(s, a, j);
        assert forall|k: int| 0 <= k < e - a implies is_quoted(#[trigger] s.subrange(a, e)[k]) by {
            assert(s.subrange(a, e)[k] == s[a + k]);
            assert(is_bare(s[a + k]));
        }
    }
}

proof fn lemma_data_list_wf(s: Seq<u8>, i: int)
    requires
        0 <= i <= s.len(),
    ensures
        data_list_at(s, i).0.len() > 0,
        forall|k: int| 0 <= k < data_list_at(s, i).0.len() ==> wf_datum(#[trigger] data_list_at(s, i).0[k]),
    decreases s.len() - i,
{
    let (d, j) = datum_at(s, i);
    lemma_datum_wf(s, i);
    if at(s, j, COMMA) && crate::expr::forward(s, i, j + 1) {
        lemma_data_list_wf(s, j + 1);
        let rest = data_list_at(s, j + 1).0;
        assert forall|k: int| 0 <= k < data_list_at(s, i).0.len() implies wf_datum(
            #[trigger] data_list_at(s, i).0[k],
        ) by {
            if k > 0 {
                assert(data_list_at(s, i).0[k] == rest[k - 1]);
            }
        }
    }
}

/// The parser builds only well-formed statements.
#[verifier::rlimit(100)]
#[verifier::spinoff_prover]
pub proof fn lemma_statement_wf(s: Seq<u8>, a: int)
    requires
        0 <= a <= s.len(),
        statement_at(s, a) is Some,
    ensures
        wf_statement(statement_at(s, a).unwrap().0),
{
    reveal(word_at);
    let st = statement_at(s, a).unwrap().0;
    match st {
        StatementModel::Print(items) => {
            let p = after(a, Word::Print);
            if at(s, p, SPACE) {
                lemma_print_list_wf(s, skip_spaces(s, p));
            }
        },
        StatementModel::Let(l) => {
            let k = after(a, Word::Let);
            let b = skip_spaces(s, k);
            let sv = string_var_at(s, b);
            if sv is Some && crate::stmt::assign_at(s, sv.unwrap().1) is Some && string_expr_at(
                s,
                crate::stmt::assign_at(s, sv.unwrap().1).unwrap(),
            ) is Some {
                lemma_string_expr_wf(s, crate::stmt::assign_at(s, sv.unwrap().1).unwrap());
            } else {
                lemma_wf_num_var_at(s, b);
                let (v, c) = num_var_at(s, b).unwrap();
                lemma_wf_expr_at(s, crate::stmt::assign_at(s, c).unwrap());
            }
        },
        StatementModel::Dim(ds) => {
            let k = after(a, Word::Dim);
            let (d, j) = dim_decl_at(s, skip_spaces(s, k)).unwrap();
            lemma_dim_more_wf(s, j);
            assert forall|i: int| 0 <= i < ds.len() implies is_upper(#[trigger] ds[i].letter) by {
                if i > 0 {
                    assert(ds[i] == dim_more(s, j).0[i - 1]);
                }
            }
        },
        StatementModel::Read(vs) => {
            lemma_var_list_wf(s, after(a, Word::Read));
        },
        StatementModel::Input(vs) => {
            lemma_var_list_wf(s, after(a, Word::Input));
        },
        StatementModel::Data(ds) => {
            let k = skip_spaces(s, after(a, Word::Data));
            crate::lex::lemma_skip_spaces(s, after(a, Word::Data));
            lemma_data_list_wf(s, k);
        },
        _ => {},
    }
}

#[verifier::rlimit(100)]
#[verifier::spinoff_prover]
proof fn lemma_line_wf(s: Seq<u8>, i: int)
    requires
        0 <= i < s.len(),
    ensures
        line_at(s, i) matches LineModel::Entry(e, _) ==> wf_entry(e),
        line_at(s, i) matches LineModel::End(n, _) ==> n > 0,
{
    let d = digits_end(s, i);
    crate::lex::lemma_digits_end(s, i);
    if d > i {
        crate::lex::lemma_skip_spaces(s, d);
        let v = digits_value(s.subrange(i, d));
        if !(v == 0 || v > usize::MAX) && end_line_at(s, d) is None && at(s, d, SPACE)
            && statement_line_at(s, skip_spaces(s, d)) is Some {
            lemma_statement_wf(s, skip_spaces(s, d));
        }
    }
}

#[verifier::rlimit(100)]
#[verifier::spinoff_prover]
proof fn lemma_program_from_wf(s: Seq<u8>, i: int, acc: Seq<EntryModel>)
    requires
        forall|k: int| 0 <= k < acc.len() ==> wf_entry(#[trigger] acc[k]),
        program_from(s, i, acc) is Ok,
    ensures
        wf_program(program_from(s, i, acc)->Ok_0),
    decreases s.len() - i,
{
    lemma_line_wf(s, i);
    match line_at(s, i) {
        LineModel::End(n, j) => {
            let r = acc.push(EntryModel { line: Some(n), block: BlockModel::End });
            assert forall|k: int| 0 <= k < r.len() - 1 implies wf_entry(#[trigger] r[k]) by {
                assert(r[k] == acc[k]);
            }
        },
        LineModel::Entry(e, j) => {
            let next = acc.push(e);
            assert forall|k: int| 0 <= k < next.len() implies wf_entry(#[trigger] next[k]) by {
                if k < acc.len() {
                    assert(next[k] == acc[k]);
                }
            }
            lemma_program_from_wf(s, j, next);
        },
        LineModel::Fail(_) => {},
    }
}

/// Reading again the canonical text of a program that was read from any
/// text gives the same program back.
pub proof fn lemma_program_reparse(s: Seq<u8>)
    requires
        program_of(s) is Ok,
    ensures
        program_of(program_text(program_of(s)->Ok_0)) == program_of(s),
{
    let p = program_of(s)->Ok_0;
    lemma_program_from_wf(s, 0, Seq::empty());
    let t = program_text(p);
    assert(t.subrange(0, t.len() as int) =~= t);
    lemma_program_from_reads_back(t, 0, Seq::empty(), p);
    assert(Seq::<EntryModel>::empty() + p =~= p);
}

} // verus!
