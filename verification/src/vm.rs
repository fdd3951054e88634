//! The compile → optimise → code-generate pipeline that prepares a source
//! text for execution. The host wraps the result in executable memory,
//! supplies the tape and the I/O trampolines, and invokes offset 0.

use vstd::prelude::*;
use crate::bfir::CompileError;
use crate::bfir::balanced;
use crate::bfir::compile;
use crate::bfir::compile_err_spec;
use crate::bfir::ir_of;
use crate::bfir::lemma_ir_of_len;
use crate::bfir::lemma_opt_len;
use crate::bfir::opt;
use crate::bfir::optimize;
use crate::codegen::code_of;
use crate::codegen::codegen;
use crate::codegen::lemma_optimize_preserves_wf;
use crate::codegen::lemma_parse_wf;

verus! {

/// Size of the tape: 4 MiB of zero-initialised cells.
pub const MAX_MEM_SIZE: usize = 4 * 1024 * 1024;

/// The IR that `build_program` hands to the code generator.
pub open spec fn pipeline_ir(s: Seq<char>, optimize_flag: bool) -> Seq<crate::bfir::BfIR> {
    if optimize_flag {
        opt(ir_of(s))
    } else {
        ir_of(s)
    }
}

/// Parse a source text, optionally optimise it, and assemble it into native
/// code; the three addresses are those of the host's I/O and overflow
/// trampolines. Succeeds exactly on balanced sources and otherwise reports
/// the parse diagnostic unchanged.
pub fn build_program(
    src: &str,
    optimize_flag: bool,
    getbyte_addr: u64,
    putbyte_addr: u64,
    overflow_addr: u64,
) -> (r: Result<Vec<u8>, CompileError>)
    requires
        src@.len() <= 0x0400_0000,
    ensures
        r.is_ok() <==> balanced(src@),
        r matches Ok(code) ==> code@ == code_of(
            pipeline_ir(src@, optimize_flag),
            getbyte_addr,
            putbyte_addr,
            overflow_addr,
        ),
        r matches Err(e) ==> compile_err_spec(src@, e),
{
    let mut ir = match compile(src) {
        Ok(ir) => ir,
        Err(e) => {
            return Err(e);
        },
    };
    proof {
        lemma_parse_wf(src@);
        lemma_ir_of_len(src@);
    }
    if optimize_flag {
        proof {
            lemma_optimize_preserves_wf(ir_of(src@));
            lemma_opt_len(ir_of(src@));
        }
        optimize(&mut ir);
    }
    Ok(codegen(&ir, getbyte_addr, putbyte_addr, overflow_addr))
}

} // verus!
