//! Lines and whole programs, and the errors that end a parse.
use vstd::prelude::*;
use crate::ast::{views, Block, BlockModel, EntryModel, NumExpr, NumExprModel, ProgramEntry, Variable, VariableModel};
use crate::expr::{expr, expr_at, reads_as, variable, variable_at};
use crate::lex::{
    digits, digits_end, digits_to_usize, digits_value, lemma_digits_end, newline, newline_at,
    skip_spaces, spaces, at, byte_at, SPACE,
};
use crate::stmt::{after, statement, statement_at, word, word_at, Word};

verus! {

#[derive(Debug, Clone, Copy, PartialEq, Eq)]
pub enum ErrorKind {
    /// The text does not follow the grammar.
    Syntax,
    /// A line number is zero or does not fit in `usize`.
    LineNumber,
    /// The text ends before an `END` line.
    UnterminatedProgram,
    /// Something follows the `END` line.
    TrailingInput,
}

/// What stopped a parse, and where: for a line that cannot be read, the
/// position of the start of that line.
#[derive(Debug, Clone, Copy, PartialEq, Eq)]
pub struct ParseError {
    pub kind: ErrorKind,
    pub position: usize,
}

pub open spec fn error(kind: ErrorKind, i: int) -> ParseError {
    ParseError { kind, position: i as usize }
}

/// What one line holds.
pub enum LineModel {
    Entry(EntryModel, int),
    /// The `END` line: its number and the position after it.
    End(usize, int),
    Fail(ParseError),
}

/// A statement and the end of its line.
pub open spec fn statement_line_at(s: Seq<u8>, a: int) -> Option<(crate::ast::StatementModel, int)> {
    match statement_at(s, a) {
        Some((st, b)) => match newline_at(s, skip_spaces(s, b)) {
            Some(c) => Some((st, c)),
            None => None,
        },
        None => None,
    }
}

/// `N END`, spaces, and the end of the line, after the number `N` that ends
/// at `d`.
pub open spec fn end_line_at(s: Seq<u8>, d: int) -> Option<int> {
    if at(s, d, SPACE) && word_at(s, skip_spaces(s, d), Word::End) {
        newline_at(s, skip_spaces(s, after(skip_spaces(s, d), Word::End)))
    } else {
        None
    }
}

/// The line that starts at `i`: a number and a statement, the `END` line,
/// or a blank line with or without a number.
pub open spec fn line_at(s: Seq<u8>, i: int) -> LineModel {
    let d = digits_end(s, i);
    if d > i {
        let v = digits_value(s.subrange(i, d));
        if v == 0 || v > usize::MAX {
            LineModel::Fail(error(ErrorKind::LineNumber, i))
        } else if end_line_at(s, d) is Some {
            LineModel::End(v as usize, end_line_at(s, d).unwrap())
        } else if at(s, d, SPACE) && statement_line_at(s, skip_spaces(s, d)) is Some {
            let (st, c) = statement_line_at(s, skip_spaces(s, d)).unwrap();
            LineModel::Entry(EntryModel { line: Some(v as usize), block: BlockModel::Line(st) }, c)
        } else if newline_at(s, skip_spaces(s, d)) is Some {
            LineModel::Entry(
                EntryModel { line: Some(v as usize), block: BlockModel::NoOp },
                newline_at(s, skip_spaces(s, d)).unwrap(),
            )
        } else {
            LineModel::Fail(error(ErrorKind::Syntax, i))
        }
    } else if newline_at(s, skip_spaces(s, i)) is Some {
        LineModel::Entry(
            EntryModel { line: None, block: BlockModel::NoOp },
            newline_at(s, skip_spaces(s, i)).unwrap(),
        )
    } else {
        LineModel::Fail(error(ErrorKind::Syntax, i))
    }
}

/// The program from line `i` on, after the entries `acc`: at least one
/// entry, then the `END` line, then nothing.
pub open spec fn program_from(s: Seq<u8>, i: int, acc: Seq<EntryModel>) -> Result<
    Seq<EntryModel>,
    ParseError,
>
    decreases s.len() - i,
{
    if !(0 <= i < s.len()) {
        Err(error(ErrorKind::UnterminatedProgram, i))
    } else {
        match line_at(s, i) {
            LineModel::End(n, j) => if acc.len() == 0 {
                Err(error(ErrorKind::Syntax, i))
            } else if j < s.len() {
                Err(error(ErrorKind::TrailingInput, j))
            } else {
                Ok(acc.push(EntryModel { line: Some(n), block: BlockModel::End }))
            },
            LineModel::Entry(e, j) => if i < j {
                program_from(s, j, acc.push(e))
            } else {
                Err(error(ErrorKind::Syntax, i))
            },
            LineModel::Fail(e) => Err(e),
        }
    }
}

/// The program that the text `s` holds, or the first error in it.
pub open spec fn program_of(s: Seq<u8>) -> Result<Seq<EntryModel>, ParseError> {
    program_from(s, 0, Seq::empty())
}

/// The whole text `s` is what `r` read from its start.
pub open spec fn whole<T>(s: Seq<u8>, r: Option<(T, int)>) -> Result<T, ParseError> {
    match r {
        Some((v, j)) => if j == s.len() {
            Ok(v)
        } else {
            Err(error(ErrorKind::Syntax, j))
        },
        None => Err(error(ErrorKind::Syntax, 0)),
    }
}

// ---------------------------------------------------------------- exec

enum LineRead {
    Entry(ProgramEntry, usize),
    End(usize, usize),
    Fail(ParseError),
}

spec fn line_read_matches(r: LineRead, m: LineModel) -> bool {
    match r {
        LineRead::Entry(e, j) => m == LineModel::Entry(e@, j as int),
        LineRead::End(n, j) => m == LineModel::End(n, j as int),
        LineRead::Fail(e) => m == LineModel::Fail(e),
    }
}

fn end_line(s: &[u8], d: usize) -> (r: Option<usize>)
    requires
        d <= s@.len(),
    ensures
        r matches Some(j) ==> end_line_at(s@, d as int) == Some(j as int) && d < j <= s@.len(),
        r is None ==> end_line_at(s@, d as int) is None,
{
    if !byte_at(s, d, SPACE) {
        return None;
    }
    let a = spaces(s, d);
    match word(s, a, Word::End) {
        Some(k) => newline(s, spaces(s, k)),
        None => None,
    }
}

fn statement_line(s: &[u8], a: usize) -> (r: Option<(crate::ast::Statement, usize)>)
    requires
        a <= s@.len(),
    ensures
        reads_as(statement_line_at(s@, a as int), r),
        r matches Some((_, j)) ==> a < j <= s@.len(),
{
    let (st, b) = match statement(s, a) {
        None => return None,
        Some(x) => x,
    };
    match newline(s, spaces(s, b)) {
        Some(c) => Some((st, c)),
        None => None,
    }
}

fn line(s: &[u8], i: usize) -> (r: LineRead)
    requires
        i <= s@.len(),
    ensures
        line_read_matches(r, line_at(s@, i as int)),
        r matches LineRead::Entry(_, j) ==> i < j <= s@.len(),
        r matches LineRead::End(_, j) ==> i < j <= s@.len(),
{
    let d = digits(s, i);
    if d > i {
        proof {
            lemma_digits_end(s@, i as int);
        }
        let n = match digits_to_usize(s, i, d) {
            None => return LineRead::Fail(ParseError { kind: ErrorKind::LineNumber, position: i }),
            Some(n) => n,
        };
        if n == 0 {
            return LineRead::Fail(ParseError { kind: ErrorKind::LineNumber, position: i });
        }
        if let Some(j) = end_line(s, d) {
            return LineRead::End(n, j);
        }
        if byte_at(s, d, SPACE) {
            if let Some((st, c)) = statement_line(s, spaces(s, d)) {
                return LineRead::Entry(ProgramEntry { line: Some(n), block: Block::Line(st) }, c);
            }
        }
        match newline(s, spaces(s, d)) {
            Some(c) => LineRead::Entry(ProgramEntry { line: Some(n), block: Block::NoOp }, c),
            None => LineRead::Fail(ParseError { kind: ErrorKind::Syntax, position: i }),
        }
    } else {
        match newline(s, spaces(s, i)) {
            Some(c) => LineRead::Entry(ProgramEntry { line: None, block: Block::NoOp }, c),
            None => LineRead::Fail(ParseError { kind: ErrorKind::Syntax, position: i }),
        }
    }
}

/// Parses a whole program: numbered statements and blank lines, then one
/// `END` line that ends the text.
pub fn parse_program(s: &[u8]) -> (r: Result<Vec<ProgramEntry>, ParseError>)
    ensures
        match r {
            Ok(p) => program_of(s@) == Ok::<Seq<EntryModel>, ParseError>(views(p@)),
            Err(e) => program_of(s@) == Err::<Seq<EntryModel>, ParseError>(e),
        },
{
    let mut acc: Vec<ProgramEntry> = Vec::new();
    let mut pos: usize = 0;
    assert(views(acc@) =~= Seq::<EntryModel>::empty());
    loop
        invariant
            pos <= s@.len(),
            program_of(s@) == program_from(s@, pos as int, views(acc@)),
        decreases s@.len() - pos,
    {
        if pos >= s.len() {
            return Err(ParseError { kind: ErrorKind::UnterminatedProgram, position: pos });
        }
        match line(s, pos) {
            LineRead::Fail(e) => return Err(e),
            LineRead::End(n, j) => {
                if acc.len() == 0 {
                    return Err(ParseError { kind: ErrorKind::Syntax, position: pos });
                }
                if j < s.len() {
                    return Err(ParseError { kind: ErrorKind::TrailingInput, position: j });
                }
                let end = ProgramEntry { line: Some(n), block: Block::End };
                proof {
                    crate::stmt::lemma_views_push(acc@, end);
                }
                acc.push(end);
                return Ok(acc);
            },
            LineRead::Entry(e, j) => {
                proof {
                    crate::stmt::lemma_views_push(acc@, e);
                }
                acc.push(e);
                pos = j;
            },
        }
    }
}

/// Parses the whole text as one numeric expression.
pub fn parse_expression(s: &[u8]) -> (r: Result<NumExpr, ParseError>)
    ensures
        match r {
            Ok(e) => whole(s@, expr_at(s@, 0)) == Ok::<NumExprModel, ParseError>(e@),
            Err(e) => whole(s@, expr_at(s@, 0)) == Err::<NumExprModel, ParseError>(e),
        },
{
    match expr(s, 0) {
        Some((e, j)) => if j == s.len() {
            Ok(e)
        } else {
            Err(ParseError { kind: ErrorKind::Syntax, position: j })
        },
        None => Err(ParseError { kind: ErrorKind::Syntax, position: 0 }),
    }
}

/// Parses the whole text as one variable reference.
pub fn parse_variable(s: &[u8]) -> (r: Result<Variable, ParseError>)
    ensures
        match r {
            Ok(v) => whole(s@, variable_at(s@, 0)) == Ok::<VariableModel, ParseError>(v@),
            Err(e) => whole(s@, variable_at(s@, 0)) == Err::<VariableModel, ParseError>(e),
        },
{
    match variable(s, 0) {
        Some((v, j)) => if j == s.len() {
            Ok(v)
        } else {
            Err(ParseError { kind: ErrorKind::Syntax, position: j })
        },
        None => Err(ParseError { kind: ErrorKind::Syntax, position: 0 }),
    }
}

} // verus!
