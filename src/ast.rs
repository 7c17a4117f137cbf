//! The program tree that the parser builds, and its mathematical model.
//!
//! Every executable type has a view into a spec type of the same shape, in
//! which byte vectors become `Seq<u8>` and child vectors become sequences of
//! models. The grammar in the other modules is stated over the models.
use vstd::prelude::*;

verus! {

/// The exponent part of a numeric literal, `E[+|-]digits`.
#[derive(Debug, Clone, PartialEq, Eq)]
pub struct Exponent {
    pub negative: bool,
    pub digits: Vec<u8>,
}

/// A numeric literal, kept as its decimal digits.
///
/// `int_digits` is never empty: a literal written `.5` is kept with the
/// integer part `0`. The value is the double that a decimal-to-double
/// conversion gives for `decimal_text`.
#[derive(Debug, Clone, PartialEq, Eq)]
pub struct NumLit {
    pub negative: bool,
    pub int_digits: Vec<u8>,
    pub frac_digits: Vec<u8>,
    pub exponent: Option<Exponent>,
}

/// A string variable: one uppercase letter followed by `$`.
#[derive(Debug, Clone, Copy, PartialEq, Eq)]
pub struct StringVariable {
    pub letter: u8,
}

/// Functions that a numeric expression can call.
#[derive(Debug, Clone, Copy, PartialEq, Eq)]
pub enum Func {
    Abs,
    Atn,
    Cos,
    Exp,
    Int,
    Log,
    Sgn,
    Sin,
    Sqr,
    Tan,
    Rnd,
    /// A user function `FN` followed by a letter.
    User(u8),
}

#[derive(Debug, PartialEq)]
pub enum NumericVariable {
    /// A letter with an optional digit, such as `A` or `A1`.
    Simple { letter: u8, digit: Option<u8> },
    /// An array element with one or two subscripts, such as `A(1)`.
    Array(u8, Box<NumExpr>, Option<Box<NumExpr>>),
}

#[derive(Debug, PartialEq)]
pub enum Variable {
    String(StringVariable),
    Numeric(NumericVariable),
}

#[derive(Debug, PartialEq)]
pub enum NumExpr {
    Num(NumLit),
    Variable(NumericVariable),
    Neg(Box<NumExpr>),
    Add(Box<NumExpr>, Box<NumExpr>),
    Sub(Box<NumExpr>, Box<NumExpr>),
    Mul(Box<NumExpr>, Box<NumExpr>),
    Div(Box<NumExpr>, Box<NumExpr>),
    Pow(Box<NumExpr>, Box<NumExpr>),
    /// A call without an argument: `RND`, or a user function.
    Call(Func),
    /// A call with one parenthesised argument.
    CallArg(Func, Box<NumExpr>),
}

#[derive(Debug, PartialEq)]
pub enum StringExpr {
    Literal(Vec<u8>),
    Variable(StringVariable),
}

/// One literal element of a `DATA` statement.
#[derive(Debug, PartialEq)]
pub enum Datum {
    Number(NumLit),
    String(Vec<u8>),
}

#[derive(Debug, PartialEq)]
pub enum PrintItem {
    String(StringExpr),
    Num(NumExpr),
    Tab(NumExpr),
    Comma,
    Semicolon,
}

#[derive(Debug, PartialEq)]
pub enum LetStatement {
    String(StringVariable, StringExpr),
    Numeric(NumericVariable, NumExpr),
}

/// One array declaration of a `DIM` statement.
#[derive(Debug, Clone, Copy, PartialEq, Eq)]
pub struct DimDecl {
    pub letter: u8,
    pub dim1: usize,
    pub dim2: Option<usize>,
}

#[derive(Debug, PartialEq)]
pub enum Statement {
    Print(Vec<PrintItem>),
    Let(LetStatement),
    Dim(Vec<DimDecl>),
    Read(Vec<Variable>),
    Data(Vec<Datum>),
    Input(Vec<Variable>),
    Comment,
    Randomize,
    Restore,
    Return,
    Stop,
    End,
}

#[derive(Debug, PartialEq)]
pub enum Block {
    Line(Statement),
    NoOp,
    End,
}

/// One line of a program. Only a blank line may lack a number.
#[derive(Debug, PartialEq)]
pub struct ProgramEntry {
    pub line: Option<usize>,
    pub block: Block,
}

// ---------------------------------------------------------------- models

pub struct ExponentModel {
    pub negative: bool,
    pub digits: Seq<u8>,
}

pub struct NumLitModel {
    pub negative: bool,
    pub int_digits: Seq<u8>,
    pub frac_digits: Seq<u8>,
    pub exponent: Option<ExponentModel>,
}

pub enum NumericVariableModel {
    Simple { letter: u8, digit: Option<u8> },
    Array(u8, Box<NumExprModel>, Option<Box<NumExprModel>>),
}

pub enum VariableModel {
    String(StringVariable),
    Numeric(NumericVariableModel),
}

pub enum NumExprModel {
    Num(NumLitModel),
    Variable(NumericVariableModel),
    Neg(Box<NumExprModel>),
    Add(Box<NumExprModel>, Box<NumExprModel>),
    Sub(Box<NumExprModel>, Box<NumExprModel>),
    Mul(Box<NumExprModel>, Box<NumExprModel>),
    Div(Box<NumExprModel>, Box<NumExprModel>),
    Pow(Box<NumExprModel>, Box<NumExprModel>),
    Call(Func),
    CallArg(Func, Box<NumExprModel>),
}

pub enum StringExprModel {
    Literal(Seq<u8>),
    Variable(StringVariable),
}

pub enum DatumModel {
    Number(NumLitModel),
    String(Seq<u8>),
}

pub enum PrintItemModel {
    String(StringExprModel),
    Num(NumExprModel),
    Tab(NumExprModel),
    Comma,
    Semicolon,
}

pub enum LetStatementModel {
    String(StringVariable, StringExprModel),
    Numeric(NumericVariableModel, NumExprModel),
}

pub enum StatementModel {
    Print(Seq<PrintItemModel>),
    Let(LetStatementModel),
    Dim(Seq<DimDecl>),
    Read(Seq<VariableModel>),
    Data(Seq<DatumModel>),
    Input(Seq<VariableModel>),
    Comment,
    Randomize,
    Restore,
    Return,
    Stop,
    End,
}

pub enum BlockModel {
    Line(StatementModel),
    NoOp,
    End,
}

pub struct EntryModel {
    pub line: Option<usize>,
    pub block: BlockModel,
}

// ---------------------------------------------------------------- views

impl View for Exponent {
    type V = ExponentModel;

    open spec fn view(&self) -> ExponentModel {
        ExponentModel { negative: self.negative, digits: self.digits@ }
    }
}

impl View for NumLit {
    type V = NumLitModel;

    open spec fn view(&self) -> NumLitModel {
        NumLitModel {
            negative: self.negative,
            int_digits: self.int_digits@,
            frac_digits: self.frac_digits@,
            exponent: match self.exponent {
                Some(e) => Some(e@),
                None => None,
            },
        }
    }
}

pub open spec fn num_var_view(v: NumericVariable) -> NumericVariableModel
    decreases v,
{
    match v {
        NumericVariable::Simple { letter, digit } => NumericVariableModel::Simple { letter, digit },
        NumericVariable::Array(l, d1, d2) => NumericVariableModel::Array(
            l,
            Box::new(num_expr_view(*d1)),
            match d2 {
                Some(b) => Some(Box::new(num_expr_view(*b))),
                None => None,
            },
        ),
    }
}

pub open spec fn num_expr_view(e: NumExpr) -> NumExprModel
    decreases e,
{
    match e {
        NumExpr::Num(n) => NumExprModel::Num(n@),
        NumExpr::Variable(v) => NumExprModel::Variable(num_var_view(v)),
        NumExpr::Neg(a) => NumExprModel::Neg(Box::new(num_expr_view(*a))),
        NumExpr::Add(a, b) => NumExprModel::Add(Box::new(num_expr_view(*a)), Box::new(num_expr_view(*b))),
        NumExpr::Sub(a, b) => NumExprModel::Sub(Box::new(num_expr_view(*a)), Box::new(num_expr_view(*b))),
        NumExpr::Mul(a, b) => NumExprModel::Mul(Box::new(num_expr_view(*a)), Box::new(num_expr_view(*b))),
        NumExpr::Div(a, b) => NumExprModel::Div(Box::new(num_expr_view(*a)), Box::new(num_expr_view(*b))),
        NumExpr::Pow(a, b) => NumExprModel::Pow(Box::new(num_expr_view(*a)), Box::new(num_expr_view(*b))),
        NumExpr::Call(f) => NumExprModel::Call(f),
        NumExpr::CallArg(f, a) => NumExprModel::CallArg(f, Box::new(num_expr_view(*a))),
    }
}

impl View for NumericVariable {
    type V = NumericVariableModel;

    open spec fn view(&self) -> NumericVariableModel {
        num_var_view(*self)
    }
}

impl View for NumExpr {
    type V = NumExprModel;

    open spec fn view(&self) -> NumExprModel {
        num_expr_view(*self)
    }
}

impl View for Variable {
    type V = VariableModel;

    open spec fn view(&self) -> VariableModel {
        match self {
            Variable::String(v) => VariableModel::String(*v),
            Variable::Numeric(v) => VariableModel::Numeric(v@),
        }
    }
}

impl View for StringExpr {
    type V = StringExprModel;

    open spec fn view(&self) -> StringExprModel {
        match self {
            StringExpr::Literal(t) => StringExprModel::Literal(t@),
            StringExpr::Variable(v) => StringExprModel::Variable(*v),
        }
    }
}

impl View for Datum {
    type V = DatumModel;

    open spec fn view(&self) -> DatumModel {
        match self {
            Datum::Number(n) => DatumModel::Number(n@),
            Datum::String(t) => DatumModel::String(t@),
        }
    }
}

impl View for PrintItem {
    type V = PrintItemModel;

    open spec fn view(&self) -> PrintItemModel {
        match self {
            PrintItem::String(e) => PrintItemModel::String(e@),
            PrintItem::Num(e) => PrintItemModel::Num(e@),
            PrintItem::Tab(e) => PrintItemModel::Tab(e@),
            PrintItem::Comma => PrintItemModel::Comma,
            PrintItem::Semicolon => PrintItemModel::Semicolon,
        }
    }
}

impl View for LetStatement {
    type V = LetStatementModel;

    open spec fn view(&self) -> LetStatementModel {
        match self {
            LetStatement::String(v, e) => LetStatementModel::String(*v, e@),
            LetStatement::Numeric(v, e) => LetStatementModel::Numeric(v@, e@),
        }
    }
}

pub open spec fn views<T: View>(v: Seq<T>) -> Seq<T::V> {
    v.map_values(|x: T| x@)
}

impl View for Statement {
    type V = StatementModel;

    open spec fn view(&self) -> StatementModel {
        match self {
            Statement::Print(items) => StatementModel::Print(views(items@)),
            Statement::Let(l) => StatementModel::Let(l@),
            Statement::Dim(d) => StatementModel::Dim(d@),
            Statement::Read(vs) => StatementModel::Read(views(vs@)),
            Statement::Data(ds) => StatementModel::Data(views(ds@)),
            Statement::Input(vs) => StatementModel::Input(views(vs@)),
            Statement::Comment => StatementModel::Comment,
            Statement::Randomize => StatementModel::Randomize,
            Statement::Restore => StatementModel::Restore,
            Statement::Return => StatementModel::Return,
            Statement::Stop => StatementModel::Stop,
            Statement::End => StatementModel::End,
        }
    }
}

impl View for Block {
    type V = BlockModel;

    open spec fn view(&self) -> BlockModel {
        match self {
            Block::Line(s) => BlockModel::Line(s@),
            Block::NoOp => BlockModel::NoOp,
            Block::End => BlockModel::End,
        }
    }
}

impl View for ProgramEntry {
    type V = EntryModel;

    open spec fn view(&self) -> EntryModel {
        EntryModel { line: self.line, block: self.block@ }
    }
}

} // verus!
