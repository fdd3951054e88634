//! Intermediate representation of the tape-machine language, its parser,
//! and the peephole optimiser.

use vstd::prelude::*;
use vstd::pervasive::VecAdditionalExecFns;

verus! {

/// One IR instruction. Arithmetic and pointer moves carry a fused operand;
/// the parser always emits operand 1 and the optimiser sums runs.
#[derive(Clone, Copy, Debug, PartialEq, Eq, Structural)]
pub enum BfIR {
    /// `+`: add to the current cell, wrapping modulo 256.
    AddVal(u8),
    /// `-`: subtract from the current cell, wrapping modulo 256.
    SubVal(u8),
    /// `>`: move the tape pointer right; out of bounds is a runtime failure.
    AddPtr(u32),
    /// `<`: move the tape pointer left; out of bounds is a runtime failure.
    SubPtr(u32),
    /// `,`: read one byte from input into the current cell; EOF leaves it unchanged.
    GetByte,
    /// `.`: write the current cell to output.
    PutByte,
    /// `[`: loop entry, paired with a later `Jnz` at the same nesting depth.
    Jz,
    /// `]`: loop exit, paired with its matching `Jz`.
    Jnz,
}

/// The two structural parse failures.
#[derive(Clone, Copy, Debug, PartialEq, Eq, Structural)]
pub enum CompileErrorKind {
    UnclosedLeftBracket,
    UnexpectedRightBracket,
}

/// A located parse diagnostic: 1-based line, column of the offending bracket.
#[derive(Clone, Copy, Debug, PartialEq, Eq, Structural)]
pub struct CompileError {
    pub line: usize,
    pub col: usize,
    pub kind: CompileErrorKind,
}

/// The IR a source text denotes: each of the eight operator characters
/// becomes one instruction with operand 1; every other character is ignored.
pub open spec fn ir_of(s: Seq<char>) -> Seq<BfIR>
    decreases s.len(),
{
    if s.len() == 0 {
        Seq::empty()
    } else {
        ir_of(s.drop_last()) + ir_of_char(s.last())
    }
}

/// The instructions (none or one) a single character denotes.
pub open spec fn ir_of_char(c: char) -> Seq<BfIR> {
    if c == '+' {
        seq![BfIR::AddVal(1)]
    } else if c == '-' {
        seq![BfIR::SubVal(1)]
    } else if c == '>' {
        seq![BfIR::AddPtr(1)]
    } else if c == '<' {
        seq![BfIR::SubPtr(1)]
    } else if c == ',' {
        seq![BfIR::GetByte]
    } else if c == '.' {
        seq![BfIR::PutByte]
    } else if c == '[' {
        seq![BfIR::Jz]
    } else if c == ']' {
        seq![BfIR::Jnz]
    } else {
        Seq::empty()
    }
}

/// +1 for `[`, -1 for `]`, 0 for anything else.
pub open spec fn bracket_delta(c: char) -> int {
    if c == '[' {
        1
    } else if c == ']' {
        -1
    } else {
        0
    }
}

/// Number of `[` minus number of `]` in `s`.
pub open spec fn bracket_net(s: Seq<char>) -> int
    decreases s.len(),
{
    if s.len() == 0 {
        0
    } else {
        bracket_net(s.drop_last()) + bracket_delta(s.last())
    }
}

/// Every `[` has a matching later `]` at the same nesting depth: no prefix
/// closes more brackets than it opened, and the whole text closes them all.
pub open spec fn balanced(s: Seq<char>) -> bool {
    &&& bracket_net(s) == 0
    &&& forall|i: int| 0 <= i <= s.len() ==> bracket_net(#[trigger] s.take(i)) >= 0
}

/// Positions of the `[` characters not yet closed, bottom of the stack first.
/// A `]` that arrives with nothing open is ignored here; `first_bad_close`
/// reports it.
pub open spec fn unmatched_opens(s: Seq<char>) -> Seq<int>
    decreases s.len(),
{
    if s.len() == 0 {
        Seq::empty()
    } else {
        let u = unmatched_opens(s.drop_last());
        if s.last() == '[' {
            u.push(s.len() - 1)
        } else if s.last() == ']' && u.len() > 0 {
            u.drop_last()
        } else {
            u
        }
    }
}

/// The position of the first `]` that closes nothing, if any.
pub open spec fn first_bad_close(s: Seq<char>) -> Option<int>
    decreases s.len(),
{
    if s.len() == 0 {
        Option::None
    } else {
        match first_bad_close(s.drop_last()) {
            Option::Some(i) => Option::Some(i),
            Option::None => {
                if s.last() == ']' && unmatched_opens(s.drop_last()).len() == 0 {
                    Option::Some(s.len() - 1)
                } else {
                    Option::None
                }
            },
        }
    }
}

/// Number of newline characters in `s`.
pub open spec fn newline_count(s: Seq<char>) -> int
    decreases s.len(),
{
    if s.len() == 0 {
        0
    } else {
        newline_count(s.drop_last()) + if s.last() == '\n' {
            1int
        } else {
            0int
        }
    }
}

/// 1-based line on which the character at position `i` stands.
pub open spec fn line_at(s: Seq<char>, i: int) -> int {
    1 + newline_count(s.take(i))
}

/// Position of the first character of the line holding position `i`.
pub open spec fn line_start(s: Seq<char>, i: int) -> int
    decreases i,
{
    if i <= 0 {
        0
    } else if s[i - 1] == '\n' {
        i
    } else {
        line_start(s, i - 1)
    }
}

/// 1-based column of the character at position `i`; every character counts,
/// and a newline resets the count.
pub open spec fn col_at(s: Seq<char>, i: int) -> int {
    i - line_start(s, i) + 1
}

/// What `compile` reports when it fails on `s`.
pub open spec fn compile_err_spec(s: Seq<char>, e: CompileError) -> bool {
    match first_bad_close(s) {
        Option::Some(i) => {
            &&& e.kind == CompileErrorKind::UnexpectedRightBracket
            &&& e.line == line_at(s, i)
            &&& e.col == col_at(s, i)
        },
        Option::None => {
            let u = unmatched_opens(s);
            &&& e.kind == CompileErrorKind::UnclosedLeftBracket
            &&& u.len() > 0
            &&& e.line == line_at(s, u.last())
            &&& e.col == col_at(s, u.last())
        },
    }
}

pub(crate) proof fn lemma_take_step<T>(s: Seq<T>, i: int)
    requires
        0 <= i < s.len(),
    ensures
        s.take(i + 1).drop_last() == s.take(i),
        s.take(i + 1).last() == s[i],
{
    assert(s.take(i + 1).drop_last() =~= s.take(i));
}

pub(crate) proof fn lemma_take_all<T>(s: Seq<T>)
    ensures
        s.take(s.len() as int) == s,
{
    assert(s.take(s.len() as int) =~= s);
}

proof fn lemma_fbc_none_prefix(s: Seq<char>, i: int)
    requires
        first_bad_close(s) is None,
        0 <= i <= s.len(),
    ensures
        first_bad_close(s.take(i)) is None,
    decreases s.len(),
{
    if i == s.len() {
        lemma_take_all(s);
    } else {
        assert(s.take(i) =~= s.drop_last().take(i));
        lemma_fbc_none_prefix(s.drop_last(), i);
    }
}

proof fn lemma_fbc_found(s: Seq<char>, i: int)
    requires
        0 <= i < s.len(),
        first_bad_close(s.take(i)) is None,
        s[i] == ']',
        unmatched_opens(s.take(i)).len() == 0,
    ensures
        first_bad_close(s) == Option::Some(i),
    decreases s.len(),
{
    if i == s.len() - 1 {
        assert(s.drop_last() =~= s.take(i));
    } else {
        assert(s.take(i) =~= s.drop_last().take(i));
        lemma_fbc_found(s.drop_last(), i);
    }
}

proof fn lemma_net_eq_unmatched(s: Seq<char>)
    requires
        first_bad_close(s) is None,
    ensures
        bracket_net(s) == unmatched_opens(s).len(),
    decreases s.len(),
{
    if s.len() > 0 {
        lemma_net_eq_unmatched(s.drop_last());
    }
}

proof fn lemma_fbc_some_props(s: Seq<char>)
    requires
        first_bad_close(s) is Some,
    ensures
        ({
            let i = first_bad_close(s)->0;
            &&& 0 <= i < s.len()
            &&& s[i] == ']'
            &&& first_bad_close(s.take(i)) is None
            &&& unmatched_opens(s.take(i)).len() == 0
        }),
    decreases s.len(),
{
    let i = first_bad_close(s)->0;
    if first_bad_close(s.drop_last()) is Some {
        lemma_fbc_some_props(s.drop_last());
        assert(s.take(i) =~= s.drop_last().take(i));
    } else {
        assert(i == s.len() - 1);
        assert(s.take(i) =~= s.drop_last());
    }
}

/// A text parses (no bracket fault) exactly when it is balanced.
pub proof fn lemma_parse_iff_balanced(s: Seq<char>)
    ensures
        (first_bad_close(s) is None && unmatched_opens(s).len() == 0) <==> balanced(s),
{
    if first_bad_close(s) is None && unmatched_opens(s).len() == 0 {
        lemma_net_eq_unmatched(s);
        assert forall|i: int| 0 <= i <= s.len() implies bracket_net(#[trigger] s.take(i)) >= 0 by {
            lemma_fbc_none_prefix(s, i);
            lemma_net_eq_unmatched(s.take(i));
        }
    }
    if balanced(s) {
        if first_bad_close(s) is Some {
            let i = first_bad_close(s)->0;
            lemma_fbc_some_props(s);
            lemma_net_eq_unmatched(s.take(i));
            lemma_take_step(s, i);
            assert(bracket_net(s.take(i + 1)) == -1);
        }
        lemma_net_eq_unmatched(s);
    }
}

/// Parse a source text into IR. Succeeds exactly on balanced bracket
/// structure; otherwise reports the offending bracket's kind and 1-based
/// line and column.
pub fn compile(src: &str) -> (r: Result<Vec<BfIR>, CompileError>)
    requires
        src@.len() < usize::MAX,
    ensures
        r.is_ok() <==> balanced(src@),
        r matches Ok(ir) ==> ir@ == ir_of(src@),
        r matches Err(e) ==> compile_err_spec(src@, e),
{
    let n = src.unicode_len();
    let mut ir: Vec<BfIR> = Vec::new();
    // line and column of each `[` still open
    let mut stk: Vec<(usize, usize)> = Vec::new();
    let mut line: usize = 1;
    let mut col: usize = 0;
    let mut i: usize = 0;

    while i < n
        invariant
            n == src@.len(),
            n < usize::MAX,
            i <= n,
            ir@ == ir_of(src@.take(i as int)),
            first_bad_close(src@.take(i as int)) is None,
            stk@.len() == unmatched_opens(src@.take(i as int)).len(),
            forall|k: int|
                0 <= k < stk@.len() ==> {
                    let u = unmatched_opens(src@.take(i as int));
                    (#[trigger] stk@[k]).0 == line_at(src@, u[k]) && stk@[k].1 == col_at(src@, u[k])
                },
            line == line_at(src@, i as int),
            1 <= line <= i + 1,
            0 <= line_start(src@, i as int) <= i,
            col == i - line_start(src@, i as int),
        decreases n - i,
    {
        let c = src.get_char(i);
        proof {
            lemma_take_step(src@, i as int);
        }
        col = col + 1;
        match c {
            '\n' => {
                line = line + 1;
                col = 0;
            },
            '+' => ir.push(BfIR::AddVal(1)),
            '-' => ir.push(BfIR::SubVal(1)),
            '>' => ir.push(BfIR::AddPtr(1)),
            '<' => ir.push(BfIR::SubPtr(1)),
            ',' => ir.push(BfIR::GetByte),
            '.' => ir.push(BfIR::PutByte),
            '[' => {
                stk.push((line, col));
                ir.push(BfIR::Jz);
            },
            ']' => {
                if stk.len() == 0 {
                    proof {
                        lemma_fbc_found(src@, i as int);
                        lemma_parse_iff_balanced(src@);
                    }
                    return Err(CompileError {
                        line,
                        col,
                        kind: CompileErrorKind::UnexpectedRightBracket,
                    });
                }
                stk.pop();
                ir.push(BfIR::Jnz);
            },
            _ => {},
        }
        i = i + 1;
    }
    proof {
        lemma_take_all(src@);
        lemma_parse_iff_balanced(src@);
    }
    if stk.len() > 0 {
        let (eline, ecol) = stk[stk.len() - 1];
        return Err(CompileError { line: eline, col: ecol, kind: CompileErrorKind::UnclosedLeftBracket });
    }
    Ok(ir)
}

/// Which of the four foldable variants an instruction is: 0 for the
/// non-foldable ones.
pub open spec fn fold_tag(a: BfIR) -> int {
    match a {
        BfIR::AddVal(_) => 1,
        BfIR::SubVal(_) => 2,
        BfIR::AddPtr(_) => 3,
        BfIR::SubPtr(_) => 4,
        _ => 0,
    }
}

/// Two adjacent instructions fuse exactly when they are the same foldable
/// variant.
pub open spec fn same_run(a: BfIR, b: BfIR) -> bool {
    fold_tag(a) != 0 && fold_tag(a) == fold_tag(b)
}

/// The fused instruction: operands summed with wrapping arithmetic in the
/// operand's own width.
pub open spec fn combine(a: BfIR, b: BfIR) -> BfIR {
    match (a, b) {
        (BfIR::AddVal(x), BfIR::AddVal(y)) => BfIR::AddVal(vstd::wrapping::u8_specs::wrapping_add(x, y)),
        (BfIR::SubVal(x), BfIR::SubVal(y)) => BfIR::SubVal(vstd::wrapping::u8_specs::wrapping_add(x, y)),
        (BfIR::AddPtr(x), BfIR::AddPtr(y)) => BfIR::AddPtr(vstd::wrapping::u32_specs::wrapping_add(x, y)),
        (BfIR::SubPtr(x), BfIR::SubPtr(y)) => BfIR::SubPtr(vstd::wrapping::u32_specs::wrapping_add(x, y)),
        _ => b,
    }
}

/// The optimised form of a program: scanning left to right, each instruction
/// either fuses into the run it extends or starts a new position.
pub open spec fn opt(s: Seq<BfIR>) -> Seq<BfIR>
    decreases s.len(),
{
    if s.len() == 0 {
        Seq::empty()
    } else {
        let front = opt(s.drop_last());
        let x = s.last();
        if front.len() > 0 && same_run(front.last(), x) {
            front.drop_last().push(combine(front.last(), x))
        } else {
            front.push(x)
        }
    }
}

/// No two adjacent instructions could still fuse.
pub open spec fn nofold(s: Seq<BfIR>) -> bool {
    forall|i: int| 0 <= i < s.len() - 1 ==> !same_run(s[i], #[trigger] s[i + 1])
}

pub(crate) proof fn lemma_opt_last(s: Seq<BfIR>)
    requires
        s.len() > 0,
    ensures
        opt(s).len() > 0,
        opt(s).len() <= s.len(),
        fold_tag(opt(s).last()) == fold_tag(s.last()),
    decreases s.len(),
{
    if s.drop_last().len() > 0 {
        lemma_opt_last(s.drop_last());
    } else {
        assert(opt(s.drop_last()).len() == 0);
    }
}

proof fn lemma_opt_nofold(s: Seq<BfIR>)
    ensures
        nofold(opt(s)),
    decreases s.len(),
{
    if s.len() > 0 {
        let front = opt(s.drop_last());
        let x = s.last();
        lemma_opt_nofold(s.drop_last());
        if front.len() > 0 && same_run(front.last(), x) {
            let r = front.drop_last().push(combine(front.last(), x));
            assert forall|i: int| 0 <= i < r.len() - 1 implies !same_run(r[i], #[trigger] r[i + 1]) by {
                if i < r.len() - 2 {
                    assert(r[i] == front[i] && r[i + 1] == front[i + 1]);
                } else {
                    assert(r[i] == front[i]);
                    assert(!same_run(front[r.len() - 2], front.last()));
                }
            }
        } else {
            let r = front.push(x);
            assert forall|i: int| 0 <= i < r.len() - 1 implies !same_run(r[i], #[trigger] r[i + 1]) by {
                if i < r.len() - 2 {
                    assert(r[i] == front[i] && r[i + 1] == front[i + 1]);
                } else {
                    assert(r[i] == front.last() && r[i + 1] == x);
                }
            }
        }
    }
}

proof fn lemma_opt_of_nofold(s: Seq<BfIR>)
    requires
        nofold(s),
    ensures
        opt(s) == s,
    decreases s.len(),
{
    if s.len() > 0 {
        let d = s.drop_last();
        assert(nofold(d)) by {
            assert forall|i: int| 0 <= i < d.len() - 1 implies !same_run(d[i], #[trigger] d[i + 1]) by {
                assert(d[i] == s[i] && d[i + 1] == s[i + 1]);
            }
        }
        lemma_opt_of_nofold(d);
        if d.len() > 0 {
            assert(!same_run(s[s.len() - 2], s[s.len() - 1]));
            assert(d.last() == s[s.len() - 2]);
        }
        assert(opt(s) =~= s);
    }
}

/// Optimising twice changes nothing beyond the first pass.
pub proof fn lemma_optimize_idempotent(s: Seq<BfIR>)
    ensures
        opt(opt(s)) == opt(s),
{
    lemma_opt_nofold(s);
    lemma_opt_of_nofold(opt(s));
}

/// A loop marker, `Jz` or `Jnz`.
pub open spec fn is_jump(a: BfIR) -> bool {
    a == BfIR::Jz || a == BfIR::Jnz
}

/// The subsequence of loop markers of a program.
pub open spec fn jumps(s: Seq<BfIR>) -> Seq<BfIR> {
    s.filter(|a: BfIR| is_jump(a))
}

/// Loop markers are never touched: the optimised program has exactly the
/// loop markers of the input program, in order.
pub proof fn lemma_opt_keeps_jumps(s: Seq<BfIR>)
    ensures
        jumps(opt(s)) == jumps(s),
    decreases s.len(),
{
    reveal(Seq::filter);
    if s.len() > 0 {
        let d = s.drop_last();
        let x = s.last();
        let front = opt(d);
        lemma_opt_keeps_jumps(d);
        if front.len() > 0 && same_run(front.last(), x) {
            let c = combine(front.last(), x);
            let r = front.drop_last().push(c);
            assert(r.drop_last() =~= front.drop_last());
            assert(r.last() == c);
            assert(!is_jump(c) && !is_jump(x) && !is_jump(front.last()));
            assert(jumps(r) == jumps(front.drop_last()));
            assert(jumps(front) == jumps(front.drop_last()));
            assert(jumps(s) == jumps(d));
        } else {
            let r = front.push(x);
            assert(r.drop_last() =~= front);
            assert(r.last() == x);
        }
    }
}

proof fn lemma_opt_extend_new(s: Seq<BfIR>, i: int)
    requires
        0 <= i < s.len(),
        i == 0 || !same_run(s[i - 1], s[i]),
    ensures
        opt(s.take(i + 1)) == opt(s.take(i)).push(s[i]),
{
    lemma_take_step(s, i);
    if i == 0 {
        assert(opt(s.take(0)).len() == 0);
    } else {
        lemma_opt_last(s.take(i));
        assert(s.take(i).last() == s[i - 1]);
    }
}

proof fn lemma_opt_extend_merge(s: Seq<BfIR>, i: int, j: int, acc: BfIR)
    requires
        0 <= i < j < s.len(),
        opt(s.take(j)) == opt(s.take(i)).push(acc),
        same_run(acc, s[j]),
    ensures
        opt(s.take(j + 1)) == opt(s.take(i)).push(combine(acc, s[j])),
{
    lemma_take_step(s, j);
    let front = opt(s.take(j));
    assert(front.last() == acc);
    assert(front.drop_last() =~= opt(s.take(i)));
}

/// Fuse every run of identical arithmetic or pointer instructions into one
/// instruction carrying the wrapped sum of the operands; everything else is
/// copied through unchanged, in place.
pub fn optimize(ir: &mut Vec<BfIR>)
    ensures
        final(ir)@ == opt(old(ir)@),
{
    let len = ir.len();
    let mut i: usize = 0;
    let mut pc: usize = 0;

    while i < len
        invariant
            len == old(ir)@.len(),
            ir@.len() == len,
            pc <= i <= len,
            forall|k: int| i <= k < len ==> ir@[k] == old(ir)@[k],
            ir@.take(pc as int) == opt(old(ir)@.take(i as int)),
            i < len ==> (i == 0 || !same_run(old(ir)@[i - 1], old(ir)@[i as int])),
        decreases len - i,
    {
        let cur = ir[i];
        match cur {
            BfIR::AddVal(x0) => {
                let mut x = x0;
                let mut j = i + 1;
                let mut go: usize = 1;
                proof {
                    lemma_opt_extend_new(old(ir)@, i as int);
                }
                while go == 1 && j < len
                    invariant
                        len == old(ir)@.len(),
                        ir@.len() == len,
                        pc <= i,
                        i < j <= len,
                        go <= 1,
                        forall|k: int| i <= k < len ==> ir@[k] == old(ir)@[k],
                        ir@.take(pc as int) == opt(old(ir)@.take(i as int)),
                        opt(old(ir)@.take(j as int)) == opt(old(ir)@.take(i as int)).push(
                            BfIR::AddVal(x),
                        ),
                        go == 0 ==> j < len && fold_tag(old(ir)@[j as int]) != 1,
                    decreases len - j + go,
                {
                    match ir[j] {
                        BfIR::AddVal(d) => {
                            proof {
                                lemma_opt_extend_merge(
                                    old(ir)@,
                                    i as int,
                                    j as int,
                                    BfIR::AddVal(x),
                                );
                            }
                            x = x.wrapping_add(d);
                            j = j + 1;
                        },
                        _ => {
                            go = 0;
                        },
                    }
                }
                proof {
                    lemma_opt_last(old(ir)@.take(j as int));
                    let ghost pre = ir@;
                    assert(pre.take(pc as int).push(BfIR::AddVal(x)) =~= pre.update(
                        pc as int,
                        BfIR::AddVal(x),
                    ).take(pc as int + 1));
                }
                ir.set(pc, BfIR::AddVal(x));
                pc = pc + 1;
                i = j;
            },
            BfIR::SubVal(x0) => {
                let mut x = x0;
                let mut j = i + 1;
                let mut go: usize = 1;
                proof {
                    lemma_opt_extend_new(old(ir)@, i as int);
                }
                while go == 1 && j < len
                    invariant
                        len == old(ir)@.len(),
                        ir@.len() == len,
                        pc <= i,
                        i < j <= len,
                        go <= 1,
                        forall|k: int| i <= k < len ==> ir@[k] == old(ir)@[k],
                        ir@.take(pc as int) == opt(old(ir)@.take(i as int)),
                        opt(old(ir)@.take(j as int)) == opt(old(ir)@.take(i as int)).push(
                            BfIR::SubVal(x),
                        ),
                        go == 0 ==> j < len && fold_tag(old(ir)@[j as int]) != 2,
                    decreases len - j + go,
                {
                    match ir[j] {
                        BfIR::SubVal(d) => {
                            proof {
                                lemma_opt_extend_merge(
                                    old(ir)@,
                                    i as int,
                                    j as int,
                                    BfIR::SubVal(x),
                                );
                            }
                            x = x.wrapping_add(d);
                            j = j + 1;
                        },
                        _ => {
                            go = 0;
                        },
                    }
                }
                proof {
                    lemma_opt_last(old(ir)@.take(j as int));
                    let ghost pre = ir@;
                    assert(pre.take(pc as int).push(BfIR::SubVal(x)) =~= pre.update(
                        pc as int,
                        BfIR::SubVal(x),
                    ).take(pc as int + 1));
                }
                ir.set(pc, BfIR::SubVal(x));
                pc = pc + 1;
                i = j;
            },
            BfIR::AddPtr(k0) => {
                let mut x = k0;
                let mut j = i + 1;
                let mut go: usize = 1;
                proof {
                    lemma_opt_extend_new(old(ir)@, i as int);
                }
                while go == 1 && j < len
                    invariant
                        len == old(ir)@.len(),
                        ir@.len() == len,
                        pc <= i,
                        i < j <= len,
                        go <= 1,
                        forall|k: int| i <= k < len ==> ir@[k] == old(ir)@[k],
                        ir@.take(pc as int) == opt(old(ir)@.take(i as int)),
                        opt(old(ir)@.take(j as int)) == opt(old(ir)@.take(i as int)).push(
                            BfIR::AddPtr(x),
                        ),
                        go == 0 ==> j < len && fold_tag(old(ir)@[j as int]) != 3,
                    decreases len - j + go,
                {
                    match ir[j] {
                        BfIR::AddPtr(d) => {
                            proof {
                                lemma_opt_extend_merge(
                                    old(ir)@,
                                    i as int,
                                    j as int,
                                    BfIR::AddPtr(x),
                                );
                            }
                            x = x.wrapping_add(d);
                            j = j + 1;
                        },
                        _ => {
                            go = 0;
                        },
                    }
                }
                proof {
                    lemma_opt_last(old(ir)@.take(j as int));
                    let ghost pre = ir@;
                    assert(pre.take(pc as int).push(BfIR::AddPtr(x)) =~= pre.update(
                        pc as int,
                        BfIR::AddPtr(x),
                    ).take(pc as int + 1));
                }
                ir.set(pc, BfIR::AddPtr(x));
                pc = pc + 1;
                i = j;
            },
            BfIR::SubPtr(k0) => {
                let mut x = k0;
                let mut j = i + 1;
                let mut go: usize = 1;
                proof {
                    lemma_opt_extend_new(old(ir)@, i as int);
                }
                while go == 1 && j < len
                    invariant
                        len == old(ir)@.len(),
                        ir@.len() == len,
                        pc <= i,
                        i < j <= len,
                        go <= 1,
                        forall|k: int| i <= k < len ==> ir@[k] == old(ir)@[k],
                        ir@.take(pc as int) == opt(old(ir)@.take(i as int)),
                        opt(old(ir)@.take(j as int)) == opt(old(ir)@.take(i as int)).push(
                            BfIR::SubPtr(x),
                        ),
                        go == 0 ==> j < len && fold_tag(old(ir)@[j as int]) != 4,
                    decreases len - j + go,
                {
                    match ir[j] {
                        BfIR::SubPtr(d) => {
                            proof {
                                lemma_opt_extend_merge(
                                    old(ir)@,
                                    i as int,
                                    j as int,
                                    BfIR::SubPtr(x),
                                );
                            }
                            x = x.wrapping_add(d);
                            j = j + 1;
                        },
                        _ => {
                            go = 0;
                        },
                    }
                }
                proof {
                    lemma_opt_last(old(ir)@.take(j as int));
                    let ghost pre = ir@;
                    assert(pre.take(pc as int).push(BfIR::SubPtr(x)) =~= pre.update(
                        pc as int,
                        BfIR::SubPtr(x),
                    ).take(pc as int + 1));
                }
                ir.set(pc, BfIR::SubPtr(x));
                pc = pc + 1;
                i = j;
            },
            _ => {
                proof {
                    lemma_opt_extend_new(old(ir)@, i as int);
                    let ghost pre = ir@;
                    assert(pre.take(pc as int).push(cur) =~= pre.update(pc as int, cur).take(
                        pc as int + 1,
                    ));
                }
                ir.set(pc, cur);
                pc = pc + 1;
                i = i + 1;
            },
        }
    }
    proof {
        lemma_take_all(old(ir)@);
    }
    ir.truncate(pc);
}

/// The optimised program is never longer than the input program.
pub proof fn lemma_opt_len(s: Seq<BfIR>)
    ensures
        opt(s).len() <= s.len(),
{
    if s.len() > 0 {
        lemma_opt_last(s);
    }
}

/// A program's IR has at most one instruction per source character.
pub proof fn lemma_ir_of_len(s: Seq<char>)
    ensures
        ir_of(s).len() <= s.len(),
    decreases s.len(),
{
    if s.len() > 0 {
        lemma_ir_of_len(s.drop_last());
    }
}

/// The operator character an instruction prints back to.
pub open spec fn token_of(a: BfIR) -> char {
    match a {
        BfIR::AddVal(_) => '+',
        BfIR::SubVal(_) => '-',
        BfIR::AddPtr(_) => '>',
        BfIR::SubPtr(_) => '<',
        BfIR::GetByte => ',',
        BfIR::PutByte => '.',
        BfIR::Jz => '[',
        BfIR::Jnz => ']',
    }
}

/// The characters a program prints back to, one per instruction.
pub open spec fn tokens_of(ir: Seq<BfIR>) -> Seq<char>
    decreases ir.len(),
{
    if ir.len() == 0 {
        Seq::empty()
    } else {
        tokens_of(ir.drop_last()).push(token_of(ir.last()))
    }
}

/// One of the eight operator characters.
pub open spec fn is_operator(c: char) -> bool {
    c == '+' || c == '-' || c == '>' || c == '<' || c == ',' || c == '.' || c == '[' || c == ']'
}

/// The operator characters of a source text, everything else dropped.
pub open spec fn significant(s: Seq<char>) -> Seq<char> {
    s.filter(|c: char| is_operator(c))
}

/// Parsing and then printing each instruction back as its character yields
/// exactly the operator characters of the source, in order.
pub proof fn lemma_pretty_round_trip(s: Seq<char>)
    ensures
        tokens_of(ir_of(s)) == significant(s),
    decreases s.len(),
{
    reveal(Seq::filter);
    if s.len() == 0 {
        assert(ir_of(s).len() == 0);
        assert(tokens_of(ir_of(s)) =~= significant(s));
    } else {
        let d = s.drop_last();
        let c = s.last();
        lemma_pretty_round_trip(d);
        if is_operator(c) {
            let x = ir_of_char(c)[0];
            assert(ir_of(s) =~= ir_of(d).push(x));
            assert(ir_of(s).drop_last() =~= ir_of(d));
            assert(token_of(x) == c);
            assert(tokens_of(ir_of(s)) =~= significant(s));
        } else {
            assert(ir_of_char(c).len() == 0);
            assert(ir_of(s) =~= ir_of(d));
            assert(tokens_of(ir_of(s)) =~= significant(s));
        }
    }
}

/// Print a program back as its operator characters, one per instruction.
pub fn pretty(ir: &Vec<BfIR>) -> (out: Vec<char>)
    ensures
        out@ == tokens_of(ir@),
{
    let mut out: Vec<char> = Vec::new();
    let n = ir.len();
    let mut i: usize = 0;
    while i < n
        invariant
            n == ir@.len(),
            i <= n,
            out@ == tokens_of(ir@.take(i as int)),
        decreases n - i,
    {
        proof {
            lemma_take_step(ir@, i as int);
        }
        let c = match ir[i] {
            BfIR::AddVal(_) => '+',
            BfIR::SubVal(_) => '-',
            BfIR::AddPtr(_) => '>',
            BfIR::SubPtr(_) => '<',
            BfIR::GetByte => ',',
            BfIR::PutByte => '.',
            BfIR::Jz => '[',
            BfIR::Jnz => ']',
        };
        out.push(c);
        i = i + 1;
    }
    proof {
        lemma_take_all(ir@);
    }
    out
}

} // verus!