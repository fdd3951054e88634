//! IR-level semantics of the foldable instructions: what one instruction
//! does to the current cell and to the tape pointer, and proofs that the
//! optimiser's fusing preserves both.

use vstd::prelude::*;
use crate::bfir::BfIR;
use crate::bfir::combine;
use crate::bfir::fold_tag;
use crate::bfir::same_run;
use crate::vm::MAX_MEM_SIZE;

verus! {

/// What a cell-arithmetic instruction does to the current cell: wrapping
/// add or subtract modulo 256. Other instructions leave the cell alone.
pub open spec fn cell_effect(a: BfIR, c: u8) -> u8 {
    match a {
        BfIR::AddVal(x) => vstd::wrapping::u8_specs::wrapping_add(c, x),
        BfIR::SubVal(x) => vstd::wrapping::u8_specs::wrapping_sub(c, x),
        _ => c,
    }
}

/// What a pointer move does to the tape pointer `p`: the move succeeds
/// exactly when the new pointer stays inside [0, 4 MiB), and fails
/// terminally otherwise.
pub open spec fn ptr_effect(a: BfIR, p: int) -> Option<int> {
    match a {
        BfIR::AddPtr(k) => {
            if p + k < MAX_MEM_SIZE {
                Option::Some(p + k)
            } else {
                Option::None
            }
        },
        BfIR::SubPtr(k) => {
            if p - k >= 0 {
                Option::Some(p - k)
            } else {
                Option::None
            }
        },
        _ => Option::Some(p),
    }
}

/// Fusing two cell-arithmetic instructions of the same kind leaves the cell
/// semantics unchanged: the wrapped operand sum acts like the two operands
/// in turn. In particular a run that folds to operand 0 is a correct no-op.
pub proof fn lemma_fold_preserves_cell(a: BfIR, b: BfIR, c: u8)
    requires
        same_run(a, b),
        fold_tag(a) == 1 || fold_tag(a) == 2,
    ensures
        cell_effect(combine(a, b), c) == cell_effect(b, cell_effect(a, c)),
{
}

/// Fusing two pointer moves of the same kind leaves the pointer semantics
/// unchanged, provided the operand sum does not wrap: the fused move
/// succeeds with the same target exactly when the two moves in turn do, and
/// fails exactly when either of them fails.
pub proof fn lemma_fold_preserves_ptr(a: BfIR, b: BfIR, p: int)
    requires
        same_run(a, b),
        fold_tag(a) == 3 || fold_tag(a) == 4,
        ({
            &&& (a matches BfIR::AddPtr(x) ==> b matches BfIR::AddPtr(y) && x + y <= u32::MAX)
            &&& (a matches BfIR::SubPtr(x) ==> b matches BfIR::SubPtr(y) && x + y <= u32::MAX)
        }),
        0 <= p < MAX_MEM_SIZE,
    ensures
        ptr_effect(combine(a, b), p) == (match ptr_effect(a, p) {
            Option::Some(q) => ptr_effect(b, q),
            Option::None => Option::None::<int>,
        }),
{
}

/// Wherever a pointer move succeeds, the new pointer again lies in
/// [0, 4 MiB): starting from cell 0, the pointer stays in range at every
/// checkpoint a host callback can observe.
pub proof fn lemma_ptr_stays_in_bounds(a: BfIR, p: int)
    requires
        0 <= p < MAX_MEM_SIZE,
        ptr_effect(a, p) is Some,
    ensures
        0 <= ptr_effect(a, p)->0 < MAX_MEM_SIZE,
{
}

/// The observable machine state of a run: the tape, the tape pointer, the
/// input bytes not yet read, and the output bytes written so far.
pub struct MachState {
    pub tape: Seq<u8>,
    pub ptr: int,
    pub input: Seq<u8>,
    pub output: Seq<u8>,
}

/// One instruction's effect on the machine state; `None` is the terminal
/// pointer-overflow failure. Loop markers are given no meaning here: this
/// semantics covers straight-line code.
pub open spec fn apply(a: BfIR, m: MachState) -> Option<MachState> {
    match a {
        BfIR::AddVal(x) => Option::Some(
            MachState {
                tape: m.tape.update(
                    m.ptr,
                    vstd::wrapping::u8_specs::wrapping_add(m.tape[m.ptr], x),
                ),
                ptr: m.ptr,
                input: m.input,
                output: m.output,
            },
        ),
        BfIR::SubVal(x) => Option::Some(
            MachState {
                tape: m.tape.update(
                    m.ptr,
                    vstd::wrapping::u8_specs::wrapping_sub(m.tape[m.ptr], x),
                ),
                ptr: m.ptr,
                input: m.input,
                output: m.output,
            },
        ),
        BfIR::AddPtr(k) => {
            if m.ptr + k < MAX_MEM_SIZE {
                Option::Some(MachState { tape: m.tape, ptr: m.ptr + k, input: m.input, output: m.output })
            } else {
                Option::None
            }
        },
        BfIR::SubPtr(k) => {
            if m.ptr - k >= 0 {
                Option::Some(MachState { tape: m.tape, ptr: m.ptr - k, input: m.input, output: m.output })
            } else {
                Option::None
            }
        },
        BfIR::GetByte => {
            if m.input.len() == 0 {
                Option::Some(m)
            } else {
                Option::Some(
                    MachState {
                        tape: m.tape.update(m.ptr, m.input[0]),
                        ptr: m.ptr,
                        input: m.input.drop_first(),
                        output: m.output,
                    },
                )
            }
        },
        BfIR::PutByte => Option::Some(
            MachState {
                tape: m.tape,
                ptr: m.ptr,
                input: m.input,
                output: m.output.push(m.tape[m.ptr]),
            },
        ),
        BfIR::Jz => Option::None,
        BfIR::Jnz => Option::None,
    }
}

/// Run a straight-line program to completion, or to its first failure.
pub open spec fn run(s: Seq<BfIR>, m: MachState) -> Option<MachState>
    decreases s.len(),
{
    if s.len() == 0 {
        Option::Some(m)
    } else {
        match run(s.drop_last(), m) {
            Option::Some(t) => apply(s.last(), t),
            Option::None => Option::None,
        }
    }
}

/// A straight-line program: no loop markers.
pub open spec fn no_jumps(s: Seq<BfIR>) -> bool {
    forall|i: int| 0 <= i < s.len() ==> !crate::bfir::is_jump(#[trigger] s[i])
}

/// The operand of a pointer move, 0 for anything else.
pub open spec fn ptr_operand(a: BfIR) -> int {
    match a {
        BfIR::AddPtr(k) => k as int,
        BfIR::SubPtr(k) => k as int,
        _ => 0,
    }
}

/// No fusing step of the optimiser wraps a pointer operand: whenever two
/// pointer moves of the same kind fuse, their operand sum fits in 32 bits.
/// (Cell operands are free to wrap; that is their semantics.)
pub open spec fn opt_nowrap(s: Seq<BfIR>) -> bool
    decreases s.len(),
{
    if s.len() == 0 {
        true
    } else {
        let f = opt_spec(s.drop_last());
        &&& opt_nowrap(s.drop_last())
        &&& ((f.len() > 0 && same_run(f.last(), s.last()) && (fold_tag(s.last()) == 3 || fold_tag(
            s.last(),
        ) == 4)) ==> ptr_operand(f.last()) + ptr_operand(s.last()) <= u32::MAX)
    }
}

/// Shorthand for the optimiser's result.
pub open spec fn opt_spec(s: Seq<BfIR>) -> Seq<BfIR> {
    crate::bfir::opt(s)
}

/// A state the machine can actually be in: the tape is the full 4 MiB and
/// the pointer lies inside it.
pub open spec fn valid(m: MachState) -> bool {
    m.tape.len() == MAX_MEM_SIZE && 0 <= m.ptr < MAX_MEM_SIZE
}

/// Runs keep the machine state valid: started inside the tape, the pointer
/// lies in [0, 4 MiB) at every state a run reaches — in particular at every
/// checkpoint a host callback can observe; a move that would leave the range
/// fails instead.
pub proof fn lemma_run_valid(s: Seq<BfIR>, m: MachState)
    requires
        valid(m),
    ensures
        run(s, m) is Some ==> valid(run(s, m)->0),
    decreases s.len(),
{
    if s.len() > 0 {
        lemma_run_valid(s.drop_last(), m);
    }
}

proof fn lemma_apply_combine(a: BfIR, b: BfIR, t: MachState)
    requires
        valid(t),
        same_run(a, b),
        (fold_tag(a) == 3 || fold_tag(a) == 4) ==> ptr_operand(a) + ptr_operand(b) <= u32::MAX,
    ensures
        apply(combine(a, b), t) == (match apply(a, t) {
            Option::Some(u) => apply(b, u),
            Option::None => Option::None::<MachState>,
        }),
{
    if fold_tag(a) == 1 || fold_tag(a) == 2 {
        lemma_fold_preserves_cell(a, b, t.tape[t.ptr]);
        let u = apply(a, t)->0;
        let lhs = apply(combine(a, b), t)->0;
        let rhs = apply(b, u)->0;
        assert(u.tape[t.ptr] == cell_effect(a, t.tape[t.ptr]));
        assert(lhs.tape =~= rhs.tape);
    }
}

/// Optimisation preserves observable behaviour of straight-line code: run
/// on the same state, the optimised program produces the same tape, output
/// and verdict as the unoptimised program, provided no fused pointer operand wraps
/// (runs of 2^32 or more single moves would fail the bounds check anyway
/// long before the operand wraps).
pub proof fn lemma_optimize_preserves_behaviour(s: Seq<BfIR>, m: MachState)
    requires
        valid(m),
        no_jumps(s),
        opt_nowrap(s),
    ensures
        run(opt_spec(s), m) == run(s, m),
    decreases s.len(),
{
    if s.len() > 0 {
        let d = s.drop_last();
        let x = s.last();
        let f = opt_spec(d);
        assert(no_jumps(d)) by {
            assert(forall|i: int| 0 <= i < d.len() ==> d[i] == s[i]);
        }
        lemma_optimize_preserves_behaviour(d, m);
        if f.len() > 0 && same_run(f.last(), x) {
            let c = combine(f.last(), x);
            let r = f.drop_last().push(c);
            assert(opt_spec(s) == r);
            assert(r.drop_last() =~= f.drop_last());
            assert(r.last() == c);
            lemma_run_valid(f.drop_last(), m);
            match run(f.drop_last(), m) {
                Option::Some(t) => {
                    lemma_apply_combine(f.last(), x, t);
                },
                Option::None => {},
            }
        } else {
            let r = f.push(x);
            assert(opt_spec(s) == r);
            assert(r.drop_last() =~= f);
            assert(r.last() == x);
        }
    }
}

/// Every pointer operand is 1, as the parser emits them.
pub open spec fn unit_ptr_ops(s: Seq<BfIR>) -> bool {
    forall|i: int| 0 <= i < s.len() ==> ptr_operand(#[trigger] s[i]) <= 1
}

proof fn lemma_opt_operands(s: Seq<BfIR>)
    requires
        unit_ptr_ops(s),
    ensures
        forall|i: int|
            0 <= i < opt_spec(s).len() ==> ptr_operand(#[trigger] opt_spec(s)[i]) <= s.len(),
    decreases s.len(),
{
    if s.len() > 0 {
        let d = s.drop_last();
        let x = s.last();
        let f = opt_spec(d);
        assert(unit_ptr_ops(d)) by {
            assert(forall|i: int| 0 <= i < d.len() ==> d[i] == s[i]);
        }
        lemma_opt_operands(d);
        assert(ptr_operand(x) <= 1);
        if f.len() > 0 && same_run(f.last(), x) {
            let r = f.drop_last().push(combine(f.last(), x));
            assert(opt_spec(s) == r);
            assert(ptr_operand(combine(f.last(), x)) <= ptr_operand(f.last()) + ptr_operand(x));
            assert(forall|i: int| 0 <= i < r.len() - 1 ==> r[i] == f[i]);
        } else {
            let r = f.push(x);
            assert(opt_spec(s) == r);
            assert(forall|i: int| 0 <= i < r.len() - 1 ==> r[i] == f[i]);
        }
    }
}

/// Programs whose pointer moves all carry operand 1 — every program the
/// parser emits — never wrap a fused pointer operand, as long as they fit
/// in 2^32 instructions.
pub proof fn lemma_unit_ops_nowrap(s: Seq<BfIR>)
    requires
        unit_ptr_ops(s),
        s.len() <= u32::MAX,
    ensures
        opt_nowrap(s),
    decreases s.len(),
{
    if s.len() > 0 {
        let d = s.drop_last();
        assert(unit_ptr_ops(d)) by {
            assert(forall|i: int| 0 <= i < d.len() ==> d[i] == s[i]);
        }
        lemma_unit_ops_nowrap(d);
        lemma_opt_operands(d);
        let f = opt_spec(d);
        if f.len() > 0 {
            assert(ptr_operand(f.last()) <= d.len());
        }
    }
}

proof fn lemma_ir_of_unit_ops(s: Seq<char>)
    ensures
        unit_ptr_ops(crate::bfir::ir_of(s)),
    decreases s.len(),
{
    if s.len() > 0 {
        let d = s.drop_last();
        lemma_ir_of_unit_ops(d);
        let t = crate::bfir::ir_of(d);
        let e = crate::bfir::ir_of_char(s.last());
        assert forall|i: int| 0 <= i < crate::bfir::ir_of(s).len() implies ptr_operand(
            #[trigger] crate::bfir::ir_of(s)[i],
        ) <= 1 by {
            if i < t.len() {
                assert(crate::bfir::ir_of(s)[i] == t[i]);
            } else {
                assert(crate::bfir::ir_of(s)[i] == e[i - t.len()]);
            }
        }
    }
}

/// Behaviour preservation through the whole front end: for a source text
/// without brackets, the optimised IR runs exactly like the parsed IR on
/// every starting state.
pub proof fn lemma_pipeline_preserves_straightline(src: Seq<char>, m: MachState)
    requires
        valid(m),
        no_jumps(crate::bfir::ir_of(src)),
        src.len() <= u32::MAX,
    ensures
        run(opt_spec(crate::bfir::ir_of(src)), m) == run(crate::bfir::ir_of(src), m),
{
    crate::bfir::lemma_ir_of_len(src);
    lemma_ir_of_unit_ops(src);
    lemma_unit_ops_nowrap(crate::bfir::ir_of(src));
    lemma_optimize_preserves_behaviour(crate::bfir::ir_of(src), m);
}

} // verus!
