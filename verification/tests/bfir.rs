use bfjit::bfir::BfIR;
use bfjit::bfir::CompileError;
use bfjit::bfir::CompileErrorKind;
use bfjit::bfir::compile;
use bfjit::bfir::optimize;
use bfjit::bfir::pretty;

#[test]
fn test_compile() {
    assert_eq!(
        compile("+[,.]").unwrap(),
        vec![
            BfIR::AddVal(1),
            BfIR::Jz,
            BfIR::GetByte,
            BfIR::PutByte,
            BfIR::Jnz,
        ]
    );

    match compile("[").unwrap_err().kind {
        CompileErrorKind::UnclosedLeftBracket => {}
        _ => panic!(),
    };

    match compile("]").unwrap_err().kind {
        CompileErrorKind::UnexpectedRightBracket => {}
        _ => panic!(),
    };

    let mut code = compile("[+++++]").unwrap();
    optimize(&mut code);
    assert_eq!(code, vec![BfIR::Jz, BfIR::AddVal(5), BfIR::Jnz]);
}

#[test]
fn error_locations_first_line() {
    let e: CompileError = compile("[").unwrap_err();
    assert_eq!(e.kind, CompileErrorKind::UnclosedLeftBracket);
    assert_eq!(e.line, 1);
    assert_eq!(e.col, 1);

    let e = compile("]").unwrap_err();
    assert_eq!(e.kind, CompileErrorKind::UnexpectedRightBracket);
    assert_eq!(e.line, 1);
    assert_eq!(e.col, 1);
}

#[test]
fn error_locations_across_lines() {
    // the stray bracket sits on line 2, column 2
    let e = compile("+\n ]").unwrap_err();
    assert_eq!(e.kind, CompileErrorKind::UnexpectedRightBracket);
    assert_eq!(e.line, 2);
    assert_eq!(e.col, 2);

    // the innermost unclosed bracket is reported
    let e = compile("[\n[[]").unwrap_err();
    assert_eq!(e.kind, CompileErrorKind::UnclosedLeftBracket);
    assert_eq!(e.line, 2);
    assert_eq!(e.col, 1);
}

#[test]
fn ignores_everything_but_operators() {
    assert_eq!(
        compile("a + b\n< ! > , . - comment").unwrap(),
        vec![
            BfIR::AddVal(1),
            BfIR::SubPtr(1),
            BfIR::AddPtr(1),
            BfIR::GetByte,
            BfIR::PutByte,
            BfIR::SubVal(1),
        ]
    );
}

#[test]
fn optimize_folds_runs() {
    let mut ir = compile(">>>+++--<<").unwrap();
    optimize(&mut ir);
    assert_eq!(
        ir,
        vec![
            BfIR::AddPtr(3),
            BfIR::AddVal(3),
            BfIR::SubVal(2),
            BfIR::SubPtr(2),
        ]
    );
}

#[test]
fn optimize_wraps_to_zero_operand() {
    // 256 consecutive '+' fold to AddVal(0), a correct no-op modulo 256
    let src: String = std::iter::repeat('+').take(256).collect();
    let mut ir = compile(&src).unwrap();
    optimize(&mut ir);
    assert_eq!(ir, vec![BfIR::AddVal(0)]);
}

#[test]
fn optimize_is_idempotent() {
    let mut once = compile("++[>>><<-]--++").unwrap();
    optimize(&mut once);
    let mut twice = once.clone();
    optimize(&mut twice);
    assert_eq!(once, twice);
}

#[test]
fn optimize_keeps_loop_markers() {
    let mut ir = compile("[[++][--]]").unwrap();
    optimize(&mut ir);
    assert_eq!(
        ir,
        vec![
            BfIR::Jz,
            BfIR::Jz,
            BfIR::AddVal(2),
            BfIR::Jnz,
            BfIR::Jz,
            BfIR::SubVal(2),
            BfIR::Jnz,
            BfIR::Jnz,
        ]
    );
}

#[test]
fn pretty_round_trip() {
    let ir = compile("a + b[,.]x-<>\n").unwrap();
    let toks = pretty(&ir);
    let expected: Vec<char> = "+[,.]-<>".chars().collect();
    assert_eq!(toks, expected);
}
