use bfjit::bfir::BfIR;
use bfjit::bfir::compile;
use bfjit::bfir::optimize;
use bfjit::codegen::codegen;
use bfjit::codegen::well_formed;
use bfjit::vm::MAX_MEM_SIZE;
use bfjit::vm::build_program;

const GB: u64 = 0x00007FFF12345678;
const PB: u64 = 0x00007FFF87654321;
const OV: u64 = 0x0123456789ABCDEF;

fn prologue() -> Vec<u8> {
    vec![
        0x50, 0x41, 0x54, 0x41, 0x55, 0x41, 0x56, 0x41, 0x57, // push rax, r12..r15
        0x49, 0x89, 0xFC, // mov r12, rdi
        0x49, 0x89, 0xF5, // mov r13, rsi
        0x49, 0x89, 0xD6, // mov r14, rdx
        0x49, 0x89, 0xF7, // mov r15, rsi
    ]
}

fn tail() -> Vec<u8> {
    vec![
        0x48, 0x31, 0xC0, // xor rax, rax
        0xE9, 0x11, 0x00, 0x00, 0x00, // jmp exit
        0x48, 0xB8, 0xEF, 0xCD, 0xAB, 0x89, 0x67, 0x45, 0x23, 0x01, // mov rax, OV
        0xFF, 0xD0, // call rax
        0xE9, 0x00, 0x00, 0x00, 0x00, // jmp exit
        0x41, 0x5F, 0x41, 0x5E, 0x41, 0x5D, 0x41, 0x5C, // pop r15..r12
        0x5A, // pop rdx (discard the alignment slot; rax holds the result)
        0xC3, // ret
    ]
}

#[test]
fn codegen_empty_program() {
    let ir: Vec<BfIR> = vec![];
    let code = codegen(&ir, GB, PB, OV);
    let mut expected = prologue();
    expected.extend_from_slice(&tail());
    assert_eq!(code, expected);
}

#[test]
fn codegen_loop_jumps_point_at_each_other() {
    let ir = compile("[-]").unwrap();
    let code = codegen(&ir, GB, PB, OV);
    let mut expected = prologue();
    // Jz at 21: cmp byte [r15], 0; jz to label right at 45
    expected.extend_from_slice(&[0x41, 0x80, 0x3F, 0x00, 0x0F, 0x84, 0x0E, 0x00, 0x00, 0x00]);
    // SubVal(1) at 31
    expected.extend_from_slice(&[0x41, 0x80, 0x2F, 0x01]);
    // Jnz at 35: cmp byte [r15], 0; jnz back to label left at 31
    expected.extend_from_slice(&[0x41, 0x80, 0x3F, 0x00, 0x0F, 0x85, 0xF2, 0xFF, 0xFF, 0xFF]);
    expected.extend_from_slice(&tail());
    assert_eq!(code, expected);
}

#[test]
fn codegen_pointer_move_checks_bounds() {
    let ir = compile(">").unwrap();
    let code = codegen(&ir, GB, PB, OV);
    let mut expected = prologue();
    // add r15, 1; jc overflow (at 51); cmp r15, r14; jnb overflow
    expected.extend_from_slice(&[
        0x49, 0x81, 0xC7, 0x01, 0x00, 0x00, 0x00, // add r15, 1
        0x0F, 0x82, 0x11, 0x00, 0x00, 0x00, // jc -> overflow
        0x4D, 0x39, 0xF7, // cmp r15, r14
        0x0F, 0x83, 0x08, 0x00, 0x00, 0x00, // jnb -> overflow
    ]);
    expected.extend_from_slice(&tail());
    assert_eq!(code, expected);
}

#[test]
fn codegen_getbyte_calls_host() {
    let ir = compile(",").unwrap();
    let code = codegen(&ir, GB, PB, OV);
    let mut expected = prologue();
    expected.extend_from_slice(&[
        0x4C, 0x89, 0xE7, // mov rdi, r12
        0x4C, 0x89, 0xFE, // mov rsi, r15
        0x48, 0xB8, 0x78, 0x56, 0x34, 0x12, 0xFF, 0x7F, 0x00, 0x00, // mov rax, GB
        0xFF, 0xD0, // call rax
        0x48, 0x85, 0xC0, // test rax, rax
        0x0F, 0x85, 0x19, 0x00, 0x00, 0x00, // jnz -> io_error
    ]);
    expected.extend_from_slice(&tail());
    assert_eq!(code, expected);
}

#[test]
fn well_formed_checks_loop_markers() {
    assert!(well_formed(&compile("[[]][]").unwrap()));
    assert!(well_formed(&vec![]));
    assert!(!well_formed(&vec![BfIR::Jnz]));
    assert!(!well_formed(&vec![BfIR::Jz]));
    assert!(!well_formed(&vec![BfIR::Jnz, BfIR::Jz]));
}

#[test]
fn build_program_matches_manual_pipeline() {
    let code = build_program("+[,.]", false, GB, PB, OV).unwrap();
    let ir = compile("+[,.]").unwrap();
    assert_eq!(code, codegen(&ir, GB, PB, OV));

    let code_opt = build_program("++[>>><<-]", true, GB, PB, OV).unwrap();
    let mut ir = compile("++[>>><<-]").unwrap();
    optimize(&mut ir);
    assert_eq!(code_opt, codegen(&ir, GB, PB, OV));
}

#[test]
fn build_program_reports_parse_errors() {
    let e = build_program("[", true, GB, PB, OV).unwrap_err();
    assert_eq!(e.kind, bfjit::bfir::CompileErrorKind::UnclosedLeftBracket);
    assert_eq!((e.line, e.col), (1, 1));

    let e = build_program("]", false, GB, PB, OV).unwrap_err();
    assert_eq!(e.kind, bfjit::bfir::CompileErrorKind::UnexpectedRightBracket);
}

#[test]
fn tape_size_is_four_mebibytes() {
    assert_eq!(MAX_MEM_SIZE, 4 * 1024 * 1024);
}
