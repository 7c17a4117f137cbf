use basic_parser::ast::{
    Block, Datum, DimDecl, Func, LetStatement, NumExpr, NumLit, NumericVariable, PrintItem,
    ProgramEntry, Statement, StringExpr, StringVariable, Variable,
};
use basic_parser::print::format_program;
use basic_parser::program::{parse_expression, parse_program, parse_variable, ErrorKind, ParseError};

fn lit(int: &str) -> NumLit {
    NumLit { negative: false, int_digits: int.as_bytes().to_vec(), frac_digits: vec![], exponent: None }
}

fn num(int: &str) -> Box<NumExpr> {
    Box::new(NumExpr::Num(lit(int)))
}

fn simple(letter: u8) -> NumericVariable {
    NumericVariable::Simple { letter, digit: None }
}

fn value(n: &NumLit) -> f64 {
    String::from_utf8(n.decimal_text()).unwrap().parse::<f64>().unwrap()
}

fn eval(e: &NumExpr) -> f64 {
    match e {
        NumExpr::Num(n) => value(n),
        NumExpr::Neg(a) => -eval(a),
        NumExpr::Add(a, b) => eval(a) + eval(b),
        NumExpr::Sub(a, b) => eval(a) - eval(b),
        NumExpr::Mul(a, b) => eval(a) * eval(b),
        NumExpr::Div(a, b) => eval(a) / eval(b),
        NumExpr::Pow(a, b) => eval(a).powf(eval(b)),
        _ => panic!("not a constant expression"),
    }
}

fn expr_literal(src: &str) -> NumLit {
    match parse_expression(src.as_bytes()).unwrap() {
        NumExpr::Num(n) => n,
        other => panic!("not a literal: {:?}", other),
    }
}

fn only_statement(src: &str) -> Statement {
    let mut p = parse_program(src.as_bytes()).unwrap();
    assert_eq!(p.len(), 2);
    match p.remove(0).block {
        Block::Line(st) => st,
        other => panic!("not a statement: {:?}", other),
    }
}

#[test]
fn literal_value_is_decimal_conversion() {
    let n = expr_literal("1.5E3");
    assert_eq!(n.decimal_text(), b"1.5E+3".to_vec());
    assert_eq!(value(&n), "1.5E+3".parse::<f64>().unwrap());
    assert_eq!(value(&n), 1500.0);
    let n = expr_literal(".25");
    assert_eq!(n.decimal_text(), b"0.25".to_vec());
    assert_eq!(value(&n), 0.25);
    let n = expr_literal("7.");
    assert_eq!(n.decimal_text(), b"7".to_vec());
    let n = expr_literal("12E-2");
    assert_eq!(value(&n), "12E-2".parse::<f64>().unwrap());
    let n = expr_literal("0.1E+1");
    assert_eq!(value(&n), 1.0);
}

#[test]
fn negative_literal_in_data() {
    let st = only_statement("10 DATA -2.5E-3\n20 END\n");
    match st {
        Statement::Data(ds) => match &ds[0] {
            Datum::Number(n) => {
                assert!(n.negative);
                assert_eq!(n.decimal_text(), b"-2.5E-3".to_vec());
                assert_eq!(value(n), -0.0025);
            },
            other => panic!("{:?}", other),
        },
        other => panic!("{:?}", other),
    }
}

#[test]
fn variable_forms() {
    assert_eq!(parse_variable(b"A"), Ok(Variable::Numeric(simple(b'A'))));
    assert_eq!(
        parse_variable(b"A(1)"),
        Ok(Variable::Numeric(NumericVariable::Array(b'A', num("1"), None)))
    );
    assert_eq!(
        parse_variable(b"A1"),
        Ok(Variable::Numeric(NumericVariable::Simple { letter: b'A', digit: Some(b'1') }))
    );
    assert_eq!(parse_variable(b"A 1"), Err(ParseError { kind: ErrorKind::Syntax, position: 1 }));
    assert_eq!(parse_variable(b"B$"), Ok(Variable::String(StringVariable { letter: b'B' })));
}

#[test]
fn array_with_two_subscripts() {
    assert_eq!(
        parse_variable(b"M( 1 , J )"),
        Ok(Variable::Numeric(NumericVariable::Array(
            b'M',
            num("1"),
            Some(Box::new(NumExpr::Variable(simple(b'J'))))
        )))
    );
    assert!(parse_variable(b"M(1,2,3)").is_err());
}

#[test]
fn precedence_and_left_association() {
    let e = parse_expression(b"2+3*4").unwrap();
    assert_eq!(e, NumExpr::Add(num("2"), Box::new(NumExpr::Mul(num("3"), num("4")))));
    assert_eq!(eval(&e), 14.0);
    let e = parse_expression(b"2^3^2").unwrap();
    assert_eq!(e, NumExpr::Pow(Box::new(NumExpr::Pow(num("2"), num("3"))), num("2")));
    assert_eq!(eval(&e), 64.0);
    let e = parse_expression(b"8 - 2 - 1").unwrap();
    assert_eq!(eval(&e), 5.0);
    let e = parse_expression(b"8 / 2 * 4").unwrap();
    assert_eq!(eval(&e), 16.0);
}

#[test]
fn leading_sign_and_groups() {
    let e = parse_expression(b"-2^2").unwrap();
    assert_eq!(e, NumExpr::Neg(Box::new(NumExpr::Pow(num("2"), num("2")))));
    let e = parse_expression(b"+(1 + 2) * 3").unwrap();
    assert_eq!(eval(&e), 9.0);
    let e = parse_expression(b"2*-3").unwrap();
    assert_eq!(eval(&e), -6.0);
    assert!(parse_expression(b"- 5").is_err());
}

#[test]
fn function_calls() {
    assert_eq!(
        parse_expression(b"ABS(X)").unwrap(),
        NumExpr::CallArg(Func::Abs, Box::new(NumExpr::Variable(simple(b'X'))))
    );
    assert_eq!(parse_expression(b"RND").unwrap(), NumExpr::Call(Func::Rnd));
    assert_eq!(parse_expression(b"FNB").unwrap(), NumExpr::Call(Func::User(b'B')));
    assert_eq!(
        parse_expression(b"FNA( 1 )").unwrap(),
        NumExpr::CallArg(Func::User(b'A'), num("1"))
    );
    assert_eq!(
        parse_expression(b"SQR(4) + TAN(0)").unwrap(),
        NumExpr::Add(
            Box::new(NumExpr::CallArg(Func::Sqr, num("4"))),
            Box::new(NumExpr::CallArg(Func::Tan, num("0")))
        )
    );
}

#[test]
fn data_statement_items() {
    let st = only_statement("10 DATA 1, \"two\", three\n20 END\n");
    assert_eq!(
        st,
        Statement::Data(vec![
            Datum::Number(lit("1")),
            Datum::String(b"two".to_vec()),
            Datum::String(b"three".to_vec()),
        ])
    );
    assert_eq!(value(&lit("1")), 1.0);
}

#[test]
fn print_keeps_separators() {
    let st = only_statement("10 PRINT \"X=\"; X\n20 END\n");
    assert_eq!(
        st,
        Statement::Print(vec![
            PrintItem::String(StringExpr::Literal(b"X=".to_vec())),
            PrintItem::Semicolon,
            PrintItem::Num(NumExpr::Variable(simple(b'X'))),
        ])
    );
}

#[test]
fn print_empty_slots_and_tab() {
    let st = only_statement("10 PRINT ,,A$;TAB(5);\n20 END\n");
    assert_eq!(
        st,
        Statement::Print(vec![
            PrintItem::Comma,
            PrintItem::Comma,
            PrintItem::String(StringExpr::Variable(StringVariable { letter: b'A' })),
            PrintItem::Semicolon,
            PrintItem::Tab(NumExpr::Num(lit("5"))),
            PrintItem::Semicolon,
        ])
    );
    assert_eq!(only_statement("10 PRINT\n20 END\n"), Statement::Print(vec![]));
}

#[test]
fn missing_end_is_unterminated() {
    let r = parse_program(b"10 PRINT\n20 STOP\n");
    assert_eq!(r, Err(ParseError { kind: ErrorKind::UnterminatedProgram, position: 17 }));
    assert_eq!(parse_program(b"").unwrap_err().kind, ErrorKind::UnterminatedProgram);
}

#[test]
fn content_after_end_is_trailing() {
    let r = parse_program(b"10 PRINT\n20 END\n30 STOP\n");
    assert_eq!(r, Err(ParseError { kind: ErrorKind::TrailingInput, position: 16 }));
    assert_eq!(parse_program(b"10 PRINT\n20 END\n\n").unwrap_err().kind, ErrorKind::TrailingInput);
}

#[test]
fn line_number_zero_is_rejected() {
    let r = parse_program(b"10 PRINT\n0 STOP\n20 END\n");
    assert_eq!(r, Err(ParseError { kind: ErrorKind::LineNumber, position: 9 }));
    let r = parse_program(b"99999999999999999999999 PRINT\n20 END\n");
    assert_eq!(r.unwrap_err().kind, ErrorKind::LineNumber);
}

#[test]
fn leading_zeros_and_blank_lines() {
    let p = parse_program(b"0010 STOP\n\n15\n20 END\n").unwrap();
    assert_eq!(
        p,
        vec![
            ProgramEntry { line: Some(10), block: Block::Line(Statement::Stop) },
            ProgramEntry { line: None, block: Block::NoOp },
            ProgramEntry { line: Some(15), block: Block::NoOp },
            ProgramEntry { line: Some(20), block: Block::End },
        ]
    );
}

#[test]
fn end_alone_is_rejected() {
    assert_eq!(parse_program(b"10 END\n"), Err(ParseError { kind: ErrorKind::Syntax, position: 0 }));
}

#[test]
fn syntax_error_reports_line_start() {
    let r = parse_program(b"10 PRINT\n20 GOTO 10\n30 END\n");
    assert_eq!(r, Err(ParseError { kind: ErrorKind::Syntax, position: 9 }));
}

#[test]
fn let_statements() {
    assert_eq!(
        only_statement("10 LET A$ = \"HI\"\n20 END\n"),
        Statement::Let(LetStatement::String(
            StringVariable { letter: b'A' },
            StringExpr::Literal(b"HI".to_vec())
        ))
    );
    assert_eq!(
        only_statement("10 LET X1 = 2 * Y\n20 END\n"),
        Statement::Let(LetStatement::Numeric(
            NumericVariable::Simple { letter: b'X', digit: Some(b'1') },
            NumExpr::Mul(num("2"), Box::new(NumExpr::Variable(simple(b'Y'))))
        ))
    );
    assert!(parse_program(b"10 LET A$ = 5\n20 END\n").is_err());
}

#[test]
fn dim_read_input_statements() {
    assert_eq!(
        only_statement("10 DIM A(10), B (3, 4)\n20 END\n"),
        Statement::Dim(vec![
            DimDecl { letter: b'A', dim1: 10, dim2: None },
            DimDecl { letter: b'B', dim1: 3, dim2: Some(4) },
        ])
    );
    assert_eq!(
        only_statement("10 READ A, B$ , C(1)\n20 END\n"),
        Statement::Read(vec![
            Variable::Numeric(simple(b'A')),
            Variable::String(StringVariable { letter: b'B' }),
            Variable::Numeric(NumericVariable::Array(b'C', num("1"), None)),
        ])
    );
    assert_eq!(
        only_statement("10 INPUT X\n20 END\n"),
        Statement::Input(vec![Variable::Numeric(simple(b'X'))])
    );
}

#[test]
fn keyword_statements() {
    assert_eq!(only_statement("10 REM anything \"at all\"\n20 END\n"), Statement::Comment);
    assert_eq!(only_statement("10 RANDOMIZE\n20 END\n"), Statement::Randomize);
    assert_eq!(only_statement("10 RESTORE\n20 END\n"), Statement::Restore);
    assert_eq!(only_statement("10 RETURN  \r\n20 END\r\n"), Statement::Return);
    assert!(parse_program(b"10 STOPPED\n20 END\n").is_err());
}

#[test]
fn reparse_canonical_form() {
    let src = b"10 PRINT \"A\";TAB(3),X , ;\n20 LET A(1, 2) = -B^2 + 3 * (C - 4) / FNZ(RND)\n\n\
30 DIM Q(5)\n40 READ A$, B\n50 DATA 1.5E-3, \"x\", hello world, -7\n60 LET Z = 2*-3\n\
70 REM note\n80 PRINT\n99 END\n";
    let p = parse_program(src).unwrap();
    let text = format_program(&p);
    let again = parse_program(&text).unwrap();
    assert_eq!(again, p);
    assert_eq!(format_program(&again), text);
}
