//! Statements: PRINT, LET, DIM, READ, INPUT, DATA, REM and the statements
//! without arguments.
use vstd::prelude::*;
use crate::ast::{
    views, Datum, DatumModel, DimDecl, LetStatement, LetStatementModel, PrintItem,
    PrintItemModel, Statement, StatementModel, Variable, VariableModel,
};
use crate::expr::{
    advances, expr, expr_at, forward, group_at, prefix_at, reads_as, string_expr, string_expr_at,
    string_var_at, num_var_at, upper_at, variable, variable_at,
};
use crate::lex::{
    at, bare, bare_at, byte_at, digits, digits_end, digits_to_usize, digits_value, keyword, keyword_at, lemma_digits_end, num_lit, num_lit_at, quoted, quoted_at, remark_end,
    remark_run, skip_spaces, spaces, CLOSE_PAREN, COMMA, EQUALS, LETTER_A, LETTER_B, LETTER_D,
    LETTER_E, LETTER_I, LETTER_L, LETTER_M, LETTER_N, LETTER_O, LETTER_P, LETTER_R, LETTER_S,
    LETTER_T, LETTER_U, LETTER_Z, OPEN_PAREN, SEMICOLON, SPACE,
};

verus! {

/// The words that start a statement or stand in one.
#[derive(Debug, Clone, Copy, PartialEq, Eq)]
pub enum Word {
    Print,
    Randomize,
    Restore,
    Return,
    Stop,
    Rem,
    Let,
    Dim,
    Read,
    Input,
    Data,
    End,
    Tab,
}

pub open spec fn word_text(w: Word) -> Seq<u8> {
    match w {
        Word::Print => seq![LETTER_P, LETTER_R, LETTER_I, LETTER_N, LETTER_T],
        Word::Randomize => seq![
            LETTER_R,
            LETTER_A,
            LETTER_N,
            LETTER_D,
            LETTER_O,
            LETTER_M,
            LETTER_I,
            LETTER_Z,
            LETTER_E,
        ],
        Word::Restore => seq![LETTER_R, LETTER_E, LETTER_S, LETTER_T, LETTER_O, LETTER_R, LETTER_E],
        Word::Return => seq![LETTER_R, LETTER_E, LETTER_T, LETTER_U, LETTER_R, LETTER_N],
        Word::Stop => seq![LETTER_S, LETTER_T, LETTER_O, LETTER_P],
        Word::Rem => seq![LETTER_R, LETTER_E, LETTER_M],
        Word::Let => seq![LETTER_L, LETTER_E, LETTER_T],
        Word::Dim => seq![LETTER_D, LETTER_I, LETTER_M],
        Word::Read => seq![LETTER_R, LETTER_E, LETTER_A, LETTER_D],
        Word::Input => seq![LETTER_I, LETTER_N, LETTER_P, LETTER_U, LETTER_T],
        Word::Data => seq![LETTER_D, LETTER_A, LETTER_T, LETTER_A],
        Word::End => seq![LETTER_E, LETTER_N, LETTER_D],
        Word::Tab => seq![LETTER_T, LETTER_A, LETTER_B],
    }
}

/// The keyword `w` stands at `i`.
#[verifier::opaque]
pub open spec fn word_at(s: Seq<u8>, i: int, w: Word) -> bool {
    keyword_at(s, i, word_text(w))
}

/// The position after the keyword `w` that stands at `i`.
pub open spec fn after(i: int, w: Word) -> int {
    i + word_text(w).len()
}

/// One item of a print list: `TAB(expr)`, a string expression, or a numeric
/// expression.
pub open spec fn print_item_at(s: Seq<u8>, i: int) -> Option<(PrintItemModel, int)> {
    let tab = if prefix_at(s, i, word_text(Word::Tab)) {
        group_at(s, i + 3)
    } else {
        None
    };
    if tab is Some {
        Some((PrintItemModel::Tab(tab.unwrap().0), tab.unwrap().1))
    } else {
        match string_expr_at(s, i) {
            Some((e, j)) => Some((PrintItemModel::String(e), j)),
            None => match expr_at(s, i) {
                Some((e, j)) => Some((PrintItemModel::Num(e), j)),
                None => None,
            },
        }
    }
}

/// A print list: items and separators as they are written. Each round reads
/// an optional item and a separator; where no separator follows, a last
/// optional item ends the list.
pub open spec fn print_list_at(s: Seq<u8>, i: int) -> (Seq<PrintItemModel>, int)
    decreases s.len() - i,
{
    let (item, a) = match print_item_at(s, i) {
        Some((x, j)) => (seq![x], j),
        None => (Seq::empty(), i),
    };
    let b = skip_spaces(s, a);
    if (at(s, b, COMMA) || at(s, b, SEMICOLON)) && forward(s, i, skip_spaces(s, b + 1)) {
        let sep = if at(s, b, COMMA) {
            PrintItemModel::Comma
        } else {
            PrintItemModel::Semicolon
        };
        let (rest, e) = print_list_at(s, skip_spaces(s, b + 1));
        (item + seq![sep] + rest, e)
    } else {
        (item, a)
    }
}

/// ` = ` in a LET statement: spaces, `=`, spaces, with at least one space
/// on each side.
pub open spec fn assign_at(s: Seq<u8>, b: int) -> Option<int> {
    if at(s, b, SPACE) && at(s, skip_spaces(s, b), EQUALS) && at(s, skip_spaces(s, b) + 1, SPACE) {
        Some(skip_spaces(s, skip_spaces(s, b) + 1))
    } else {
        None
    }
}

/// The rest of a LET statement after its keyword: a string assignment is
/// tried first, then a numeric one.
pub open spec fn let_at(s: Seq<u8>, k: int) -> Option<(LetStatementModel, int)> {
    if !at(s, k, SPACE) {
        None
    } else {
        let a = skip_spaces(s, k);
        let string_form = match string_var_at(s, a) {
            Some((v, b)) => match assign_at(s, b) {
                Some(c) => match string_expr_at(s, c) {
                    Some((e, d)) => Some((LetStatementModel::String(v, e), d)),
                    None => None,
                },
                None => None,
            },
            None => None,
        };
        if string_form is Some {
            string_form
        } else {
            match num_var_at(s, a) {
                Some((v, b)) => match assign_at(s, b) {
                    Some(c) => match expr_at(s, c) {
                        Some((e, d)) => Some((LetStatementModel::Numeric(v, e), d)),
                        None => None,
                    },
                    None => None,
                },
                None => None,
            }
        }
    }
}

/// A bound of a DIM declaration: digits whose value fits in `usize`.
pub open spec fn bound_at(s: Seq<u8>, c: int) -> Option<(usize, int)> {
    let d = digits_end(s, c);
    if d > c && digits_value(s.subrange(c, d)) <= usize::MAX {
        Some((digits_value(s.subrange(c, d)) as usize, d))
    } else {
        None
    }
}

/// `A(n)` or `A(n, m)`, with spaces allowed before `(` and inside.
pub open spec fn dim_decl_at(s: Seq<u8>, i: int) -> Option<(DimDecl, int)> {
    if upper_at(s, i) && at(s, skip_spaces(s, i + 1), OPEN_PAREN) {
        let c = skip_spaces(s, skip_spaces(s, i + 1) + 1);
        match bound_at(s, c) {
            None => None,
            Some((n, d)) => {
                let e = skip_spaces(s, d);
                if at(s, e, CLOSE_PAREN) {
                    Some((DimDecl { letter: s[i], dim1: n, dim2: None }, e + 1))
                } else if at(s, e, COMMA) {
                    match bound_at(s, skip_spaces(s, e + 1)) {
                        None => None,
                        Some((m, g)) => if at(s, skip_spaces(s, g), CLOSE_PAREN) {
                            Some(
                                (
                                    DimDecl { letter: s[i], dim1: n, dim2: Some(m) },
                                    skip_spaces(s, g) + 1,
                                ),
                            )
                        } else {
                            None
                        },
                    }
                } else {
                    None
                }
            },
        }
    } else {
        None
    }
}

/// Further declarations, each after a comma.
pub open spec fn dim_more(s: Seq<u8>, j: int) -> (Seq<DimDecl>, int)
    decreases s.len() - j,
{
    let a = skip_spaces(s, j);
    if at(s, a, COMMA) {
        match dim_decl_at(s, skip_spaces(s, a + 1)) {
            Some((d, c)) => if forward(s, j, c) {
                let (rest, e) = dim_more(s, c);
                (seq![d] + rest, e)
            } else {
                (Seq::empty(), j)
            },
            None => (Seq::empty(), j),
        }
    } else {
        (Seq::empty(), j)
    }
}

/// A variable with the spaces around it.
pub open spec fn var_item_at(s: Seq<u8>, i: int) -> Option<(VariableModel, int)> {
    match variable_at(s, skip_spaces(s, i)) {
        Some((v, j)) => Some((v, skip_spaces(s, j))),
        None => None,
    }
}

/// Further variables, each after a comma.
pub open spec fn var_more(s: Seq<u8>, b: int) -> (Seq<VariableModel>, int)
    decreases s.len() - b,
{
    if at(s, b, COMMA) {
        match var_item_at(s, b + 1) {
            Some((v, c)) => if forward(s, b, c) {
                let (rest, e) = var_more(s, c);
                (seq![v] + rest, e)
            } else {
                (Seq::empty(), b)
            },
            None => (Seq::empty(), b),
        }
    } else {
        (Seq::empty(), b)
    }
}

/// One or more variables separated by commas, after the keyword's space.
pub open spec fn var_list_at(s: Seq<u8>, k: int) -> Option<(Seq<VariableModel>, int)> {
    if at(s, k, SPACE) {
        match var_item_at(s, k) {
            Some((v, b)) => Some((seq![v] + var_more(s, b).0, var_more(s, b).1)),
            None => None,
        }
    } else {
        None
    }
}

/// One datum with the spaces around it: a numeric literal, a quoted string,
/// or an unquoted string, tried in that order.
pub open spec fn datum_at(s: Seq<u8>, i: int) -> (DatumModel, int) {
    let a = skip_spaces(s, i);
    match num_lit_at(s, a) {
        Some((n, j)) => (DatumModel::Number(n), skip_spaces(s, j)),
        None => match quoted_at(s, a) {
            Some((t, j)) => (DatumModel::String(t), skip_spaces(s, j)),
            None => (DatumModel::String(bare_at(s, a).0), skip_spaces(s, bare_at(s, a).1)),
        },
    }
}

/// Data separated by commas.
pub open spec fn data_list_at(s: Seq<u8>, i: int) -> (Seq<DatumModel>, int)
    decreases s.len() - i,
{
    let (d, j) = datum_at(s, i);
    if at(s, j, COMMA) && forward(s, i, j + 1) {
        let (rest, e) = data_list_at(s, j + 1);
        (seq![d] + rest, e)
    } else {
        (seq![d], j)
    }
}

/// The rest of a PRINT statement after its keyword: a space and a print
/// list, or nothing.
pub open spec fn print_statement_at(s: Seq<u8>, p: int) -> (StatementModel, int) {
    if at(s, p, SPACE) {
        let (items, e) = print_list_at(s, skip_spaces(s, p));
        (StatementModel::Print(items), e)
    } else {
        (StatementModel::Print(Seq::empty()), p)
    }
}

/// The rest of a DIM statement after its keyword: declarations separated by
/// commas.
pub open spec fn dim_statement_at(s: Seq<u8>, k: int) -> Option<(StatementModel, int)> {
    if at(s, k, SPACE) {
        match dim_decl_at(s, skip_spaces(s, k)) {
            Some((d, j)) => Some((StatementModel::Dim(seq![d] + dim_more(s, j).0), dim_more(s, j).1)),
            None => None,
        }
    } else {
        None
    }
}

/// A statement at `i`, without the end of its line.
pub open spec fn statement_at(s: Seq<u8>, i: int) -> Option<(StatementModel, int)> {
    if word_at(s, i, Word::Print) {
        Some(print_statement_at(s, after(i, Word::Print)))
    } else if word_at(s, i, Word::Randomize) {
        Some((StatementModel::Randomize, after(i, Word::Randomize)))
    } else if word_at(s, i, Word::Restore) {
        Some((StatementModel::Restore, after(i, Word::Restore)))
    } else if word_at(s, i, Word::Return) {
        Some((StatementModel::Return, after(i, Word::Return)))
    } else if word_at(s, i, Word::Stop) {
        Some((StatementModel::Stop, after(i, Word::Stop)))
    } else if word_at(s, i, Word::Rem) {
        Some((StatementModel::Comment, remark_end(s, skip_spaces(s, after(i, Word::Rem)))))
    } else if word_at(s, i, Word::Let) {
        match let_at(s, after(i, Word::Let)) {
            Some((l, j)) => Some((StatementModel::Let(l), j)),
            None => None,
        }
    } else if word_at(s, i, Word::Dim) {
        dim_statement_at(s, after(i, Word::Dim))
    } else if word_at(s, i, Word::Read) {
        match var_list_at(s, after(i, Word::Read)) {
            Some((vs, j)) => Some((StatementModel::Read(vs), j)),
            None => None,
        }
    } else if word_at(s, i, Word::Input) {
        match var_list_at(s, after(i, Word::Input)) {
            Some((vs, j)) => Some((StatementModel::Input(vs), j)),
            None => None,
        }
    } else if word_at(s, i, Word::Data) && at(s, after(i, Word::Data), SPACE) {
        let (ds, j) = data_list_at(s, skip_spaces(s, after(i, Word::Data)));
        Some((StatementModel::Data(ds), j))
    } else {
        None
    }
}

// ---------------------------------------------------------------- exec

pub proof fn lemma_views_push<T: View>(v: Seq<T>, x: T)
    ensures
        views(v.push(x)) == views(v).push(x@),
{
    assert(views(v.push(x)) =~= views(v).push(x@));
}

pub(crate) fn word_bytes(w: Word) -> (r: Vec<u8>)
    ensures
        r@ == word_text(w),
{
    let r = match w {
        Word::Print => vec![LETTER_P, LETTER_R, LETTER_I, LETTER_N, LETTER_T],
        Word::Randomize => vec![
            LETTER_R,
            LETTER_A,
            LETTER_N,
            LETTER_D,
            LETTER_O,
            LETTER_M,
            LETTER_I,
            LETTER_Z,
            LETTER_E,
        ],
        Word::Restore => vec![LETTER_R, LETTER_E, LETTER_S, LETTER_T, LETTER_O, LETTER_R, LETTER_E],
        Word::Return => vec![LETTER_R, LETTER_E, LETTER_T, LETTER_U, LETTER_R, LETTER_N],
        Word::Stop => vec![LETTER_S, LETTER_T, LETTER_O, LETTER_P],
        Word::Rem => vec![LETTER_R, LETTER_E, LETTER_M],
        Word::Let => vec![LETTER_L, LETTER_E, LETTER_T],
        Word::Dim => vec![LETTER_D, LETTER_I, LETTER_M],
        Word::Read => vec![LETTER_R, LETTER_E, LETTER_A, LETTER_D],
        Word::Input => vec![LETTER_I, LETTER_N, LETTER_P, LETTER_U, LETTER_T],
        Word::Data => vec![LETTER_D, LETTER_A, LETTER_T, LETTER_A],
        Word::End => vec![LETTER_E, LETTER_N, LETTER_D],
        Word::Tab => vec![LETTER_T, LETTER_A, LETTER_B],
    };
    assert(r@ =~= word_text(w));
    r
}

/// The keyword `w` stands at `i`.
/// The keyword `w` at `i`, and the position after it.
pub fn word(s: &[u8], i: usize, w: Word) -> (r: Option<usize>)
    requires
        i <= s@.len(),
    ensures
        r is Some == word_at(s@, i as int, w),
        r matches Some(j) ==> j == after(i as int, w) && i < j <= s@.len(),
{
    let k = word_bytes(w);
    let n = s.len();
    proof {
        reveal(word_at);
    }
    if keyword(s, i, k.as_slice()) {
        Some(i + k.len())
    } else {
        None
    }
}

fn tab_prefix(s: &[u8], i: usize) -> (r: bool)
    requires
        i <= s@.len(),
    ensures
        r == prefix_at(s@, i as int, word_text(Word::Tab)),
        r ==> i + 3 <= s@.len(),
        s@.len() <= usize::MAX,
{
    let n = s.len();
    if n - i < 3 {
        return false;
    }
    let r = s[i] == LETTER_T && s[i + 1] == LETTER_A && s[i + 2] == LETTER_B;
    proof {
        let t = s@.subrange(i as int, i + 3);
        let v = word_text(Word::Tab);
        assert(t[0] == s@[i as int] && t[1] == s@[i + 1] && t[2] == s@[i + 2]);
        if r {
            assert(t =~= v);
        }
    }
    r
}

fn print_item(s: &[u8], i: usize) -> (r: Option<(PrintItem, usize)>)
    requires
        i <= s@.len(),
    ensures
        reads_as(print_item_at(s@, i as int), r),
        advances(s@, i as int, r),
{
    if tab_prefix(s, i) {
        if let Some((e, j)) = crate::expr::group(s, i + 3) {
            return Some((PrintItem::Tab(e), j));
        }
    }
    if let Some((e, j)) = string_expr(s, i) {
        return Some((PrintItem::String(e), j));
    }
    match expr(s, i) {
        Some((e, j)) => Some((PrintItem::Num(e), j)),
        None => None,
    }
}

/// Reads a print list at `i`, as `print_list_at` states it.
pub fn print_list(s: &[u8], i: usize) -> (r: (Vec<PrintItem>, usize))
    requires
        i <= s@.len(),
    ensures
        print_list_at(s@, i as int) == (views(r.0@), r.1 as int),
        i <= r.1 <= s@.len(),
{
    let mut acc: Vec<PrintItem> = Vec::new();
    let mut pos = i;
    assert(views(acc@) =~= Seq::<PrintItemModel>::empty());
    loop
        invariant
            i <= pos <= s@.len(),
            print_list_at(s@, i as int) == (
                views(acc@) + print_list_at(s@, pos as int).0,
                print_list_at(s@, pos as int).1,
            ),
        decreases s@.len() - pos,
    {
        let item = print_item(s, pos);
        let a = match &item {
            Some((_, j)) => *j,
            None => pos,
        };
        let b = spaces(s, a);
        let is_comma = byte_at(s, b, COMMA);
        let is_semi = byte_at(s, b, SEMICOLON);
        let ghost old_acc = acc@;
        let ghost item_seq: Seq<PrintItemModel> = match print_item_at(s@, pos as int) {
            Some((x, _)) => seq![x],
            None => Seq::empty(),
        };
        if let Some((x, _)) = item {
            proof {
                lemma_views_push(acc@, x);
            }
            acc.push(x);
        }
        assert(views(acc@) =~= views(old_acc) + item_seq);
        if is_comma || is_semi {
            let c = spaces(s, b + 1);
            let sep = if is_comma {
                PrintItem::Comma
            } else {
                PrintItem::Semicolon
            };
            let ghost mid = acc@;
            proof {
                lemma_views_push(acc@, sep);
            }
            acc.push(sep);
            let ghost rest = print_list_at(s@, c as int);
            assert(views(old_acc) + (item_seq + seq![sep@] + rest.0) =~= views(acc@) + rest.0);
            pos = c;
        } else {
            return (acc, a);
        }
    }
}

fn assign(s: &[u8], b: usize) -> (r: Option<usize>)
    requires
        b <= s@.len(),
    ensures
        r matches Some(c) ==> assign_at(s@, b as int) == Some(c as int) && b < c <= s@.len(),
        r is None ==> assign_at(s@, b as int) is None,
{
    if !byte_at(s, b, SPACE) {
        return None;
    }
    let a = spaces(s, b);
    if byte_at(s, a, EQUALS) && byte_at(s, a + 1, SPACE) {
        Some(spaces(s, a + 1))
    } else {
        None
    }
}

fn let_rest(s: &[u8], k: usize) -> (r: Option<(LetStatement, usize)>)
    requires
        k <= s@.len(),
    ensures
        reads_as(let_at(s@, k as int), r),
        advances(s@, k as int, r),
{
    if !byte_at(s, k, SPACE) {
        return None;
    }
    let a = spaces(s, k);
    if let Some((v, b)) = crate::expr::string_var(s, a) {
        if let Some(c) = assign(s, b) {
            if let Some((e, d)) = string_expr(s, c) {
                return Some((LetStatement::String(v, e), d));
            }
        }
    }
    let (v, b) = match crate::expr::num_var(s, a) {
        None => return None,
        Some(x) => x,
    };
    let c = match assign(s, b) {
        None => return None,
        Some(c) => c,
    };
    match expr(s, c) {
        Some((e, d)) => Some((LetStatement::Numeric(v, e), d)),
        None => None,
    }
}

fn bound(s: &[u8], c: usize) -> (r: Option<(usize, usize)>)
    requires
        c <= s@.len(),
    ensures
        r matches Some((n, d)) ==> bound_at(s@, c as int) == Some((n, d as int)) && c < d
            <= s@.len(),
        r is None ==> bound_at(s@, c as int) is None,
{
    let d = digits(s, c);
    if d == c {
        return None;
    }
    proof {
        lemma_digits_end(s@, c as int);
    }
    match digits_to_usize(s, c, d) {
        Some(n) => Some((n, d)),
        None => None,
    }
}

fn dim_decl(s: &[u8], i: usize) -> (r: Option<(DimDecl, usize)>)
    requires
        i <= s@.len(),
    ensures
        r matches Some((d, j)) ==> dim_decl_at(s@, i as int) == Some((d, j as int)) && i < j
            <= s@.len(),
        r is None ==> dim_decl_at(s@, i as int) is None,
{
    if !crate::expr::upper(s, i) {
        return None;
    }
    let b = spaces(s, i + 1);
    if !byte_at(s, b, OPEN_PAREN) {
        return None;
    }
    let c = spaces(s, b + 1);
    let (n, d) = match bound(s, c) {
        None => return None,
        Some(x) => x,
    };
    let e = spaces(s, d);
    if byte_at(s, e, CLOSE_PAREN) {
        return Some((DimDecl { letter: s[i], dim1: n, dim2: None }, e + 1));
    }
    if !byte_at(s, e, COMMA) {
        return None;
    }
    let f = spaces(s, e + 1);
    let (m, g) = match bound(s, f) {
        None => return None,
        Some(x) => x,
    };
    let h = spaces(s, g);
    if byte_at(s, h, CLOSE_PAREN) {
        Some((DimDecl { letter: s[i], dim1: n, dim2: Some(m) }, h + 1))
    } else {
        None
    }
}

/// Reads declarations after the first one, as `dim_more` states it.
fn dim_rest(s: &[u8], j: usize) -> (r: (Vec<DimDecl>, usize))
    requires
        j <= s@.len(),
    ensures
        dim_more(s@, j as int) == (r.0@, r.1 as int),
        j <= r.1 <= s@.len(),
{
    let mut acc: Vec<DimDecl> = Vec::new();
    let mut pos = j;
    loop
        invariant
            j <= pos <= s@.len(),
            dim_more(s@, j as int) == (acc@ + dim_more(s@, pos as int).0, dim_more(s@, pos as int).1),
        decreases s@.len() - pos,
    {
        let a = spaces(s, pos);
        if !byte_at(s, a, COMMA) {
            assert(acc@ + Seq::<DimDecl>::empty() =~= acc@);
            return (acc, pos);
        }
        let b = spaces(s, a + 1);
        match dim_decl(s, b) {
            None => {
                assert(acc@ + Seq::<DimDecl>::empty() =~= acc@);
                return (acc, pos);
            },
            Some((d, c)) => {
                let ghost rest = dim_more(s@, c as int);
                let ghost before = acc@;
                acc.push(d);
                assert(before + (seq![d] + rest.0) =~= acc@ + rest.0);
                pos = c;
            },
        }
    }
}

fn var_item(s: &[u8], i: usize) -> (r: Option<(Variable, usize)>)
    requires
        i <= s@.len(),
    ensures
        reads_as(var_item_at(s@, i as int), r),
        advances(s@, i as int, r),
{
    let a = spaces(s, i);
    match variable(s, a) {
        Some((v, j)) => Some((v, spaces(s, j))),
        None => None,
    }
}

/// Reads one or more variables at `k`, as `var_list_at` states it.
fn var_list(s: &[u8], k: usize) -> (r: Option<(Vec<Variable>, usize)>)
    requires
        k <= s@.len(),
    ensures
        r matches Some((vs, j)) ==> var_list_at(s@, k as int) == Some((views(vs@), j as int)) && k
            < j <= s@.len(),
        r is None ==> var_list_at(s@, k as int) is None,
{
    if !byte_at(s, k, SPACE) {
        return None;
    }
    let (first, b) = match var_item(s, k) {
        None => return None,
        Some(x) => x,
    };
    let mut acc: Vec<Variable> = Vec::new();
    proof {
        lemma_views_push(acc@, first);
    }
    acc.push(first);
    assert(views(acc@) =~= seq![first@]);
    let mut pos = b;
    loop
        invariant
            k < b <= pos <= s@.len(),
            var_list_at(s@, k as int) == Some(
                (views(acc@) + var_more(s@, pos as int).0, var_more(s@, pos as int).1),
            ),
        decreases s@.len() - pos,
    {
        if !byte_at(s, pos, COMMA) {
            assert(views(acc@) + Seq::<VariableModel>::empty() =~= views(acc@));
            return Some((acc, pos));
        }
        match var_item(s, pos + 1) {
            None => {
                assert(views(acc@) + Seq::<VariableModel>::empty() =~= views(acc@));
                return Some((acc, pos));
            },
            Some((v, c)) => {
                let ghost rest = var_more(s@, c as int);
                let ghost before = views(acc@);
                proof {
                    lemma_views_push(acc@, v);
                }
                acc.push(v);
                assert(before + (seq![v@] + rest.0) =~= views(acc@) + rest.0);
                pos = c;
            },
        }
    }
}

fn datum(s: &[u8], i: usize) -> (r: (Datum, usize))
    requires
        i <= s@.len(),
    ensures
        datum_at(s@, i as int) == (r.0@, r.1 as int),
        i <= r.1 <= s@.len(),
{
    let a = spaces(s, i);
    if let Some((n, j)) = num_lit(s, a) {
        return (Datum::Number(n), spaces(s, j));
    }
    if let Some((t, j)) = quoted(s, a) {
        return (Datum::String(t), spaces(s, j));
    }
    let (t, j) = bare(s, a);
    (Datum::String(t), spaces(s, j))
}

/// Reads data at `i`, as `data_list_at` states it.
fn data_list(s: &[u8], i: usize) -> (r: (Vec<Datum>, usize))
    requires
        i <= s@.len(),
    ensures
        data_list_at(s@, i as int) == (views(r.0@), r.1 as int),
        i <= r.1 <= s@.len(),
{
    let mut acc: Vec<Datum> = Vec::new();
    let mut pos = i;
    assert(views(acc@) =~= Seq::<DatumModel>::empty());
    loop
        invariant
            i <= pos <= s@.len(),
            data_list_at(s@, i as int) == (
                views(acc@) + data_list_at(s@, pos as int).0,
                data_list_at(s@, pos as int).1,
            ),
        decreases s@.len() - pos,
    {
        let (d, j) = datum(s, pos);
        let ghost before = views(acc@);
        proof {
            lemma_views_push(acc@, d);
        }
        acc.push(d);
        if !byte_at(s, j, COMMA) {
            assert(before + seq![d@] =~= views(acc@));
            return (acc, j);
        }
        let ghost rest = data_list_at(s@, j + 1);
        assert(before + (seq![d@] + rest.0) =~= views(acc@) + rest.0);
        pos = j + 1;
    }
}

fn print_statement(s: &[u8], p: usize) -> (r: (Statement, usize))
    requires
        p <= s@.len(),
    ensures
        print_statement_at(s@, p as int) == (r.0@, r.1 as int),
        p <= r.1 <= s@.len(),
{
    if byte_at(s, p, SPACE) {
        let (items, e) = print_list(s, spaces(s, p));
        (Statement::Print(items), e)
    } else {
        let items: Vec<PrintItem> = Vec::new();
        assert(views(items@) =~= Seq::<PrintItemModel>::empty());
        (Statement::Print(items), p)
    }
}

fn dim_statement(s: &[u8], k: usize) -> (r: Option<(Statement, usize)>)
    requires
        k <= s@.len(),
    ensures
        reads_as(dim_statement_at(s@, k as int), r),
        advances(s@, k as int, r),
{
    if !byte_at(s, k, SPACE) {
        return None;
    }
    let (d, j) = match dim_decl(s, spaces(s, k)) {
        None => return None,
        Some(x) => x,
    };
    let (mut rest, e) = dim_rest(s, j);
    let mut decls: Vec<DimDecl> = Vec::new();
    decls.push(d);
    let ghost rest_seq = rest@;
    decls.append(&mut rest);
    assert(decls@ =~= seq![d] + rest_seq);
    Some((Statement::Dim(decls), e))
}

/// Reads a statement at `i`, as `statement_at` states it; the end of the
/// line is left to the caller.
pub fn statement(s: &[u8], i: usize) -> (r: Option<(Statement, usize)>)
    requires
        i <= s@.len(),
    ensures
        reads_as(statement_at(s@, i as int), r),
        r matches Some((_, j)) ==> i <= j <= s@.len(),
{
    if let Some(p) = word(s, i, Word::Print) {
        return Some(print_statement(s, p));
    }
    if let Some(j) = word(s, i, Word::Randomize) {
        return Some((Statement::Randomize, j));
    }
    if let Some(j) = word(s, i, Word::Restore) {
        return Some((Statement::Restore, j));
    }
    if let Some(j) = word(s, i, Word::Return) {
        return Some((Statement::Return, j));
    }
    if let Some(j) = word(s, i, Word::Stop) {
        return Some((Statement::Stop, j));
    }
    if let Some(k) = word(s, i, Word::Rem) {
        return Some((Statement::Comment, remark_run(s, spaces(s, k))));
    }
    if let Some(k) = word(s, i, Word::Let) {
        return match let_rest(s, k) {
            Some((l, j)) => Some((Statement::Let(l), j)),
            None => None,
        };
    }
    if let Some(k) = word(s, i, Word::Dim) {
        return dim_statement(s, k);
    }
    if let Some(k) = word(s, i, Word::Read) {
        return match var_list(s, k) {
            Some((vs, j)) => Some((Statement::Read(vs), j)),
            None => None,
        };
    }
    if let Some(k) = word(s, i, Word::Input) {
        return match var_list(s, k) {
            Some((vs, j)) => Some((Statement::Input(vs), j)),
            None => None,
        };
    }
    if let Some(k) = word(s, i, Word::Data) {
        if byte_at(s, k, SPACE) {
            let (ds, j) = data_list(s, spaces(s, k));
            return Some((Statement::Data(ds), j));
        }
    }
    None
}

} // verus!
