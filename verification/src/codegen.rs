//! x86-64 code generator: walks the IR and emits the machine code of a
//! single native function
//! `entry(vm_self, memory_start, memory_end) -> *VMError`
//! following the System V AMD64 calling convention, with the tape pointer
//! pinned in r15 and inline bounds checks.

use vstd::prelude::*;
use crate::bfir::BfIR;
use crate::bfir::is_jump;

verus! {

/// Positions of the `Jz` instructions whose `Jnz` has not yet been seen,
/// bottom of the stack first. A `Jnz` with nothing open is ignored here;
/// `closes_ok` rules it out.
pub open spec fn open_stack(s: Seq<BfIR>) -> Seq<int>
    decreases s.len(),
{
    if s.len() == 0 {
        Seq::empty()
    } else {
        let u = open_stack(s.drop_last());
        if s.last() == BfIR::Jz {
            u.push(s.len() - 1)
        } else if s.last() == BfIR::Jnz && u.len() > 0 {
            u.drop_last()
        } else {
            u
        }
    }
}

/// Every `Jnz` closes some open `Jz`.
pub open spec fn closes_ok(s: Seq<BfIR>) -> bool {
    forall|j: int|
        0 <= j < s.len() && s[j] == BfIR::Jnz ==> (#[trigger] open_stack(s.take(j))).len() > 0
}

/// The loop markers are properly nested and matched: each `Jz` has a unique
/// later `Jnz` partner at the same nesting depth, and vice versa.
pub open spec fn wf(s: Seq<BfIR>) -> bool {
    closes_ok(s) && open_stack(s).len() == 0
}

/// The pairing of loop markers: maps each matched `Jz` position to its `Jnz`
/// partner and back.
pub open spec fn match_map(s: Seq<BfIR>) -> Map<int, int>
    decreases s.len(),
{
    if s.len() == 0 {
        Map::empty()
    } else {
        let m = match_map(s.drop_last());
        let u = open_stack(s.drop_last());
        if s.last() == BfIR::Jnz && u.len() > 0 {
            m.insert(u.last(), s.len() - 1).insert(s.len() - 1, u.last())
        } else {
            m
        }
    }
}

proof fn lemma_closes_ok_prefix(s: Seq<BfIR>, i: int)
    requires
        closes_ok(s),
        0 <= i <= s.len(),
    ensures
        closes_ok(s.take(i)),
{
    let p = s.take(i);
    assert forall|j: int| 0 <= j < p.len() && p[j] == BfIR::Jnz implies (#[trigger] open_stack(
        p.take(j),
    )).len() > 0 by {
        assert(p.take(j) =~= s.take(j));
        assert(s[j] == BfIR::Jnz);
    }
}

proof fn lemma_os_props(s: Seq<BfIR>)
    ensures
        forall|k: int|
            0 <= k < open_stack(s).len() ==> 0 <= #[trigger] open_stack(s)[k] < s.len()
                && s[open_stack(s)[k]] == BfIR::Jz,
        forall|a: int, b: int|
            0 <= a < b < open_stack(s).len() ==> open_stack(s)[a] < open_stack(s)[b],
    decreases s.len(),
{
    if s.len() > 0 {
        lemma_os_props(s.drop_last());
    }
}

proof fn lemma_mm_props(s: Seq<BfIR>)
    requires
        closes_ok(s),
    ensures
        forall|k: int|
            #[trigger] match_map(s).dom().contains(k) ==> 0 <= k < s.len() && is_jump(s[k])
                && 0 <= match_map(s)[k] < s.len(),
        forall|e: int| open_stack(s).contains(e) ==> !(#[trigger] match_map(s).dom().contains(e)),
        forall|k: int|
            0 <= k < s.len() && is_jump(#[trigger] s[k]) ==> match_map(s).dom().contains(k)
                || open_stack(s).contains(k),
    decreases s.len(),
{
    if s.len() > 0 {
        let d = s.drop_last();
        let u = open_stack(d);
        let m = match_map(d);
        assert(closes_ok(d)) by {
            assert(s.take(s.len() - 1) =~= d);
            lemma_closes_ok_prefix(s, s.len() - 1);
        }
        lemma_mm_props(d);
        lemma_os_props(d);
        lemma_os_props(s);
        if s.last() == BfIR::Jnz {
            assert(u.len() > 0) by {
                assert(s.take(s.len() - 1) =~= d);
                assert(s[s.len() - 1] == BfIR::Jnz);
            }
            let o = u.last();
            assert(0 <= o < d.len() && d[o] == BfIR::Jz);
            assert(!m.dom().contains(o));
            assert(open_stack(s) =~= u.drop_last());
            // an element of the shrunk stack is an earlier, hence different, entry
            assert forall|e: int| open_stack(s).contains(e) implies !(#[trigger] match_map(
                s,
            ).dom().contains(e)) by {
                let idx = choose|idx: int|
                    0 <= idx < open_stack(s).len() && open_stack(s)[idx] == e;
                assert(u[idx] == e);
                assert(u[idx] < u[u.len() - 1]);
                assert(e != o);
                assert(e < d.len());
                assert(u.contains(e));
            }
            assert forall|k: int|
                0 <= k < s.len() && is_jump(#[trigger] s[k]) implies match_map(s).dom().contains(k)
                || open_stack(s).contains(k) by {
                if k < s.len() - 1 {
                    assert(d[k] == s[k]);
                    if u.contains(k) {
                        let idx = choose|idx: int| 0 <= idx < u.len() && u[idx] == k;
                        if idx < u.len() - 1 {
                            assert(open_stack(s)[idx] == k);
                            assert(open_stack(s).contains(k));
                        } else {
                            assert(k == o);
                        }
                    }
                }
            }
        } else if s.last() == BfIR::Jz {
            assert(open_stack(s) =~= u.push(s.len() - 1));
            assert forall|k: int|
                0 <= k < s.len() && is_jump(#[trigger] s[k]) implies match_map(s).dom().contains(k)
                || open_stack(s).contains(k) by {
                if k < s.len() - 1 {
                    assert(d[k] == s[k]);
                    if u.contains(k) {
                        let idx = choose|idx: int| 0 <= idx < u.len() && u[idx] == k;
                        assert(open_stack(s)[idx] == k);
                    }
                } else {
                    assert(open_stack(s).last() == k);
                }
            }
            assert forall|e: int| open_stack(s).contains(e) implies !(#[trigger] match_map(
                s,
            ).dom().contains(e)) by {
                let idx = choose|idx: int|
                    0 <= idx < open_stack(s).len() && open_stack(s)[idx] == e;
                if idx < u.len() {
                    assert(u[idx] == e);
                    assert(u.contains(e));
                }
            }
        } else {
            assert(open_stack(s) =~= u);
            assert forall|k: int|
                0 <= k < s.len() && is_jump(#[trigger] s[k]) implies match_map(s).dom().contains(k)
                || open_stack(s).contains(k) by {
                if k < s.len() - 1 {
                    assert(d[k] == s[k]);
                }
            }
        }
    }
}

/// Bytes of machine code each instruction assembles to.
pub open spec fn insn_len(a: BfIR) -> int {
    match a {
        BfIR::AddVal(_) => 4,
        BfIR::SubVal(_) => 4,
        BfIR::AddPtr(_) => 22,
        BfIR::SubPtr(_) => 22,
        BfIR::GetByte => 27,
        BfIR::PutByte => 27,
        BfIR::Jz => 10,
        BfIR::Jnz => 10,
    }
}

/// Total encoded length of the first `i` instructions.
pub open spec fn body_len_to(s: Seq<BfIR>, i: int) -> int
    decreases i,
{
    if i <= 0 {
        0
    } else {
        body_len_to(s, i - 1) + insn_len(s[i - 1])
    }
}

/// Byte offset at which instruction `i` is encoded (the prologue is 21
/// bytes long).
pub open spec fn offset_of(s: Seq<BfIR>, i: int) -> int {
    21 + body_len_to(s, i)
}

/// Offset one past the last instruction's encoding.
pub open spec fn body_end(s: Seq<BfIR>) -> int {
    offset_of(s, s.len() as int)
}

/// Offset of the shared overflow trampoline.
pub open spec fn overflow_pos(s: Seq<BfIR>) -> int {
    body_end(s) + 8
}

/// Offset of the common epilogue; the I/O error path falls straight into it.
pub open spec fn exit_pos(s: Seq<BfIR>) -> int {
    body_end(s) + 25
}

/// A 32-bit immediate, little endian.
pub open spec fn le32(v: u32) -> Seq<u8> {
    seq![
        (v & 0xff) as u8,
        ((v >> 8) & 0xff) as u8,
        ((v >> 16) & 0xff) as u8,
        ((v >> 24) & 0xff) as u8,
    ]
}

/// A 64-bit immediate, little endian.
pub open spec fn le64(v: u64) -> Seq<u8> {
    seq![
        (v & 0xff) as u8,
        ((v >> 8) & 0xff) as u8,
        ((v >> 16) & 0xff) as u8,
        ((v >> 24) & 0xff) as u8,
        ((v >> 32) & 0xff) as u8,
        ((v >> 40) & 0xff) as u8,
        ((v >> 48) & 0xff) as u8,
        ((v >> 56) & 0xff) as u8,
    ]
}

/// The rel32 field of a jump that lands at `target` and whose next
/// instruction starts at `next`: the difference in two's complement.
pub open spec fn rel_to(target: int, next: int) -> u32 {
    ((target - next) % 0x1_0000_0000) as u32
}

/// Prologue: push the scratch alignment slot and r12-r15, save the three
/// arguments into r12/r13/r14, start the tape pointer r15 at the tape base.
pub open spec fn prologue() -> Seq<u8> {
    seq![
        0x50u8, 0x41, 0x54, 0x41, 0x55, 0x41, 0x56, 0x41, 0x57,
        0x49, 0x89, 0xFC, 0x49, 0x89, 0xF5, 0x49, 0x89, 0xD6, 0x49, 0x89, 0xF7,
    ]
}

/// Tail: null-success exit, the overflow trampoline, and the epilogue.
/// The epilogue discards the alignment slot into rdx: rax carries the
/// error pointer and must survive the pops.
pub open spec fn tail(s: Seq<BfIR>, overflow_addr: u64) -> Seq<u8> {
    seq![0x48u8, 0x31, 0xC0, 0xE9] + le32(rel_to(exit_pos(s), body_end(s) + 8)) + seq![
        0x48u8,
        0xB8,
    ] + le64(overflow_addr) + seq![0xFFu8, 0xD0, 0xE9] + le32(
        rel_to(exit_pos(s), body_end(s) + 25),
    ) + seq![0x41u8, 0x5F, 0x41, 0x5E, 0x41, 0x5D, 0x41, 0x5C, 0x5A, 0xC3]
}

/// The call of a host trampoline: load `vm_self` and the cell pointer into
/// the argument registers, call the absolute address, and leave for the
/// I/O error path if the returned pointer is non-null.
pub open spec fn call_enc(addr: u64, io_pos: int, off: int) -> Seq<u8> {
    seq![0x4Cu8, 0x89, 0xE7, 0x4C, 0x89, 0xFE, 0x48, 0xB8] + le64(addr) + seq![
        0xFFu8,
        0xD0,
        0x48,
        0x85,
        0xC0,
        0x0F,
        0x85,
    ] + le32(rel_to(io_pos, off + 27))
}

/// The machine code of instruction `i`: cell arithmetic directly on
/// `byte [r15]`, pointer moves with a carry check and a bounds compare
/// against r14/r13, calls for the I/O instructions, and the loop jumps
/// against the matching marker's label.
pub open spec fn enc_at(s: Seq<BfIR>, i: int, gb: u64, pb: u64) -> Seq<u8> {
    let off = offset_of(s, i);
    match s[i] {
        BfIR::AddVal(x) => seq![0x41u8, 0x80, 0x07, x],
        BfIR::SubVal(x) => seq![0x41u8, 0x80, 0x2F, x],
        BfIR::AddPtr(x) => seq![0x49u8, 0x81, 0xC7] + le32(x) + seq![0x0Fu8, 0x82] + le32(
            rel_to(overflow_pos(s), off + 13),
        ) + seq![0x4Du8, 0x39, 0xF7, 0x0F, 0x83] + le32(rel_to(overflow_pos(s), off + 22)),
        BfIR::SubPtr(x) => seq![0x49u8, 0x81, 0xEF] + le32(x) + seq![0x0Fu8, 0x82] + le32(
            rel_to(overflow_pos(s), off + 13),
        ) + seq![0x4Du8, 0x39, 0xEF, 0x0F, 0x82] + le32(rel_to(overflow_pos(s), off + 22)),
        BfIR::GetByte => call_enc(gb, exit_pos(s), off),
        BfIR::PutByte => call_enc(pb, exit_pos(s), off),
        BfIR::Jz => seq![0x41u8, 0x80, 0x3F, 0x00, 0x0F, 0x84] + le32(
            rel_to(offset_of(s, match_map(s)[i]) + 10, off + 10),
        ),
        BfIR::Jnz => seq![0x41u8, 0x80, 0x3F, 0x00, 0x0F, 0x85] + le32(
            rel_to(offset_of(s, match_map(s)[i]) + 10, off + 10),
        ),
    }
}

/// The concatenated encodings of the first `i` instructions.
pub open spec fn body_to(s: Seq<BfIR>, i: int, gb: u64, pb: u64) -> Seq<u8>
    decreases i,
{
    if i <= 0 {
        Seq::empty()
    } else {
        body_to(s, i - 1, gb, pb) + enc_at(s, i - 1, gb, pb)
    }
}

/// The whole generated function: prologue, the instruction encodings in
/// order, and the shared tail. Execution enters at offset 0.
pub open spec fn code_of(s: Seq<BfIR>, gb: u64, pb: u64, ov: u64) -> Seq<u8> {
    prologue() + body_to(s, s.len() as int, gb, pb) + tail(s, ov)
}

fn push_le32(out: &mut Vec<u8>, v: u32)
    ensures
        final(out)@ == old(out)@ + le32(v),
{
    proof {
        assert(v & 0xff < 256 && (v >> 8) & 0xff < 256 && (v >> 16) & 0xff < 256 && (v >> 24)
            & 0xff < 256) by (bit_vector);
    }
    out.push((v & 0xff) as u8);
    out.push(((v >> 8) & 0xff) as u8);
    out.push(((v >> 16) & 0xff) as u8);
    out.push(((v >> 24) & 0xff) as u8);
    proof {
        assert(out@ =~= old(out)@ + le32(v));
    }
}

fn push_le64(out: &mut Vec<u8>, v: u64)
    ensures
        final(out)@ == old(out)@ + le64(v),
{
    proof {
        assert(v & 0xff < 256 && (v >> 8) & 0xff < 256 && (v >> 16) & 0xff < 256 && (v >> 24)
            & 0xff < 256 && (v >> 32) & 0xff < 256 && (v >> 40) & 0xff < 256 && (v >> 48) & 0xff
            < 256 && (v >> 56) & 0xff < 256) by (bit_vector);
    }
    out.push((v & 0xff) as u8);
    out.push(((v >> 8) & 0xff) as u8);
    out.push(((v >> 16) & 0xff) as u8);
    out.push(((v >> 24) & 0xff) as u8);
    out.push(((v >> 32) & 0xff) as u8);
    out.push(((v >> 40) & 0xff) as u8);
    out.push(((v >> 48) & 0xff) as u8);
    out.push(((v >> 56) & 0xff) as u8);
    proof {
        assert(out@ =~= old(out)@ + le64(v));
    }
}

fn push_rel32(out: &mut Vec<u8>, target: usize)
    requires
        target < 0x8000_0000,
        old(out)@.len() + 4 < 0x8000_0000,
    ensures
        final(out)@ == old(out)@ + le32(rel_to(target as int, old(out)@.len() as int + 4)),
{
    let next = out.len() + 4;
    let rel: u32 = if target >= next {
        proof {
            vstd::arithmetic::div_mod::lemma_small_mod((target - next) as nat, 0x1_0000_0000nat);
        }
        (target - next) as u32
    } else {
        let d = next - target;
        proof {
            vstd::arithmetic::div_mod::lemma_mod_add_multiples_vanish(
                target as int - next as int,
                0x1_0000_0000,
            );
            vstd::arithmetic::div_mod::lemma_small_mod(
                (0x1_0000_0000 - d as int) as nat,
                0x1_0000_0000nat,
            );
        }
        (0x1_0000_0000u64 - d as u64) as u32
    };
    proof {
        assert(rel == rel_to(target as int, next as int));
    }
    push_le32(out, rel);
}

/// Assemble a well-formed IR program into the bytes of the native entry
/// function. `getbyte_addr` and `putbyte_addr` are the absolute addresses of
/// the two host I/O trampolines, `overflow_addr` that of the overflow-error
/// helper; they are embedded as 64-bit immediates. Execution enters at
/// offset 0 of the returned buffer.
#[verifier::rlimit(100)]
pub fn codegen(ir: &Vec<BfIR>, getbyte_addr: u64, putbyte_addr: u64, overflow_addr: u64) -> (code:
    Vec<u8>)
    requires
        wf(ir@),
        ir@.len() <= 0x0400_0000,
    ensures
        code@ == code_of(ir@, getbyte_addr, putbyte_addr, overflow_addr),
{
    let n = ir.len();

    // first pass: the byte offset of every instruction's encoding
    let mut offs: Vec<usize> = Vec::new();
    let mut cur: usize = 21;
    let mut i: usize = 0;
    while i < n
        invariant
            n == ir@.len(),
            n <= 0x0400_0000,
            i <= n,
            offs@.len() == i,
            forall|k: int|
                0 <= k < i ==> #[trigger] offs@[k] == offset_of(ir@, k) && offs@[k] <= 21 + 27 * k,
            cur == offset_of(ir@, i as int),
            cur <= 21 + 27 * i,
        decreases n - i,
    {
        offs.push(cur);
        let l: usize = match ir[i] {
            BfIR::AddVal(_) => 4,
            BfIR::SubVal(_) => 4,
            BfIR::AddPtr(_) => 22,
            BfIR::SubPtr(_) => 22,
            BfIR::GetByte => 27,
            BfIR::PutByte => 27,
            BfIR::Jz => 10,
            BfIR::Jnz => 10,
        };
        cur = cur + l;
        i = i + 1;
    }
    let total = cur;
    let ovf_target = total + 8;
    let exit_target = total + 25;

    // second pass: pair each loop marker with its partner
    let mut tab: Vec<usize> = Vec::new();
    let mut stk: Vec<usize> = Vec::new();
    let mut i: usize = 0;
    while i < n
        invariant
            n == ir@.len(),
            wf(ir@),
            i <= n,
            tab@.len() == i,
            stk@.map_values(|x: usize| x as int) == open_stack(ir@.take(i as int)),
            forall|k: int|
                #[trigger] match_map(ir@.take(i as int)).dom().contains(k) ==> 0 <= k < i
                    && tab@[k] == match_map(ir@.take(i as int))[k],
        decreases n - i,
    {
        let ghost p = ir@.take(i as int);
        let ghost p1 = ir@.take(i as int + 1);
        proof {
            crate::bfir::lemma_take_step(ir@, i as int);
            lemma_closes_ok_prefix(ir@, i as int);
            lemma_mm_props(p);
            lemma_os_props(p);
        }
        tab.push(0);
        match ir[i] {
            BfIR::Jz => {
                stk.push(i);
                proof {
                    assert(open_stack(p1) =~= open_stack(p).push(i as int));
                    assert(stk@.map_values(|x: usize| x as int) =~= open_stack(p1));
                    assert(match_map(p1) == match_map(p));
                }
            },
            BfIR::Jnz => {
                proof {
                    assert(ir@[i as int] == BfIR::Jnz);
                    assert(open_stack(p).len() > 0);
                    assert(stk@.map_values(|x: usize| x as int).len() == stk@.len());
                }
                let o = stk.pop().unwrap();
                proof {
                    assert(o as int == open_stack(p).last());
                    assert(0 <= o < i);
                }
                tab.set(o, i);
                tab.set(i, o);
                proof {
                    assert(open_stack(p1) =~= open_stack(p).drop_last());
                    assert(stk@.map_values(|x: usize| x as int) =~= open_stack(p1));
                    assert(match_map(p1) == match_map(p).insert(o as int, i as int).insert(
                        i as int,
                        o as int,
                    ));
                    assert(!match_map(p).dom().contains(o as int));
                }
            },
            _ => {
                proof {
                    assert(open_stack(p1) =~= open_stack(p));
                    assert(match_map(p1) == match_map(p));
                }
            },
        }
        i = i + 1;
    }
    proof {
        crate::bfir::lemma_take_all(ir@);
        lemma_mm_props(ir@);
    }

    // third pass: emit
    let mut out: Vec<u8> = Vec::new();
    out.push(0x50);
    out.push(0x41);
    out.push(0x54);
    out.push(0x41);
    out.push(0x55);
    out.push(0x41);
    out.push(0x56);
    out.push(0x41);
    out.push(0x57);
    out.push(0x49);
    out.push(0x89);
    out.push(0xFC);
    out.push(0x49);
    out.push(0x89);
    out.push(0xF5);
    out.push(0x49);
    out.push(0x89);
    out.push(0xD6);
    out.push(0x49);
    out.push(0x89);
    out.push(0xF7);
    proof {
        assert(out@ =~= prologue() + body_to(ir@, 0, getbyte_addr, putbyte_addr));
    }
    let mut i: usize = 0;
    while i < n
        invariant
            n == ir@.len(),
            n <= 0x0400_0000,
            wf(ir@),
            i <= n,
            out@ == prologue() + body_to(ir@, i as int, getbyte_addr, putbyte_addr),
            out@.len() == offset_of(ir@, i as int),
            out@.len() <= 21 + 27 * i,
            total == body_end(ir@),
            ovf_target == overflow_pos(ir@),
            exit_target == exit_pos(ir@),
            total <= 21 + 27 * n,
            offs@.len() == n,
            forall|k: int|
                0 <= k < n ==> #[trigger] offs@[k] == offset_of(ir@, k) && offs@[k] <= 21 + 27 * k,
            tab@.len() == n,
            forall|k: int|
                0 <= k < n && is_jump(#[trigger] ir@[k]) ==> match_map(ir@).dom().contains(k)
                    && tab@[k] == match_map(ir@)[k],
        decreases n - i,
    {
        let ghost pre = out@;
        proof {
            lemma_mm_props(ir@);
        }
        match ir[i] {
            BfIR::AddVal(x) => {
                out.push(0x41);
                out.push(0x80);
                out.push(0x07);
                out.push(x);
            },
            BfIR::SubVal(x) => {
                out.push(0x41);
                out.push(0x80);
                out.push(0x2F);
                out.push(x);
            },
            BfIR::AddPtr(x) => {
                out.push(0x49);
                out.push(0x81);
                out.push(0xC7);
                push_le32(&mut out, x);
                out.push(0x0F);
                out.push(0x82);
                push_rel32(&mut out, ovf_target);
                out.push(0x4D);
                out.push(0x39);
                out.push(0xF7);
                out.push(0x0F);
                out.push(0x83);
                push_rel32(&mut out, ovf_target);
            },
            BfIR::SubPtr(x) => {
                out.push(0x49);
                out.push(0x81);
                out.push(0xEF);
                push_le32(&mut out, x);
                out.push(0x0F);
                out.push(0x82);
                push_rel32(&mut out, ovf_target);
                out.push(0x4D);
                out.push(0x39);
                out.push(0xEF);
                out.push(0x0F);
                out.push(0x82);
                push_rel32(&mut out, ovf_target);
            },
            BfIR::GetByte => {
                out.push(0x4C);
                out.push(0x89);
                out.push(0xE7);
                out.push(0x4C);
                out.push(0x89);
                out.push(0xFE);
                out.push(0x48);
                out.push(0xB8);
                push_le64(&mut out, getbyte_addr);
                out.push(0xFF);
                out.push(0xD0);
                out.push(0x48);
                out.push(0x85);
                out.push(0xC0);
                out.push(0x0F);
                out.push(0x85);
                push_rel32(&mut out, exit_target);
            },
            BfIR::PutByte => {
                out.push(0x4C);
                out.push(0x89);
                out.push(0xE7);
                out.push(0x4C);
                out.push(0x89);
                out.push(0xFE);
                out.push(0x48);
                out.push(0xB8);
                push_le64(&mut out, putbyte_addr);
                out.push(0xFF);
                out.push(0xD0);
                out.push(0x48);
                out.push(0x85);
                out.push(0xC0);
                out.push(0x0F);
                out.push(0x85);
                push_rel32(&mut out, exit_target);
            },
            BfIR::Jz => {
                let t = tab[i];
                let target = offs[t] + 10;
                out.push(0x41);
                out.push(0x80);
                out.push(0x3F);
                out.push(0x00);
                out.push(0x0F);
                out.push(0x84);
                push_rel32(&mut out, target);
            },
            BfIR::Jnz => {
                let t = tab[i];
                let target = offs[t] + 10;
                out.push(0x41);
                out.push(0x80);
                out.push(0x3F);
                out.push(0x00);
                out.push(0x0F);
                out.push(0x85);
                push_rel32(&mut out, target);
            },
        }
        proof {
            assert(out@ =~= pre + enc_at(ir@, i as int, getbyte_addr, putbyte_addr));
            assert(out@ =~= prologue() + body_to(ir@, i as int + 1, getbyte_addr, putbyte_addr));
        }
        i = i + 1;
    }

    // tail: success exit, overflow trampoline, shared epilogue
    let ghost pre = out@;
    out.push(0x48);
    out.push(0x31);
    out.push(0xC0);
    out.push(0xE9);
    push_rel32(&mut out, exit_target);
    out.push(0x48);
    out.push(0xB8);
    push_le64(&mut out, overflow_addr);
    out.push(0xFF);
    out.push(0xD0);
    out.push(0xE9);
    push_rel32(&mut out, exit_target);
    out.push(0x41);
    out.push(0x5F);
    out.push(0x41);
    out.push(0x5E);
    out.push(0x41);
    out.push(0x5D);
    out.push(0x41);
    out.push(0x5C);
    out.push(0x5A);
    out.push(0xC3);
    proof {
        assert(out@ =~= pre + tail(ir@, overflow_addr));
        assert(out@ =~= code_of(ir@, getbyte_addr, putbyte_addr, overflow_addr));
    }
    out
}

proof fn lemma_closes_ok_push(t: Seq<BfIR>, x: BfIR)
    requires
        closes_ok(t),
        x == BfIR::Jnz ==> open_stack(t).len() > 0,
    ensures
        closes_ok(t.push(x)),
{
    let s = t.push(x);
    assert forall|j: int| 0 <= j < s.len() && s[j] == BfIR::Jnz implies (#[trigger] open_stack(
        s.take(j),
    )).len() > 0 by {
        if j < t.len() {
            assert(s.take(j) =~= t.take(j));
            assert(t[j] == BfIR::Jnz);
        } else {
            assert(s.take(j) =~= t);
        }
    }
}

proof fn lemma_opt_structure(s: Seq<BfIR>)
    requires
        closes_ok(s),
    ensures
        closes_ok(crate::bfir::opt(s)),
        open_stack(crate::bfir::opt(s)).len() == open_stack(s).len(),
    decreases s.len(),
{
    if s.len() == 0 {
        assert(crate::bfir::opt(s).len() == 0);
    } else {
        let d = s.drop_last();
        let x = s.last();
        let f = crate::bfir::opt(d);
        assert(closes_ok(d)) by {
            assert(s.take(s.len() - 1) =~= d);
            lemma_closes_ok_prefix(s, s.len() - 1);
        }
        lemma_opt_structure(d);
        if f.len() > 0 && crate::bfir::same_run(f.last(), x) {
            // both ends of the fused run are foldable, so no loop marker moves
            let c = crate::bfir::combine(f.last(), x);
            let r = f.drop_last().push(c);
            assert(crate::bfir::opt(s) == r);
            assert(crate::bfir::fold_tag(c) == crate::bfir::fold_tag(x));
            assert(c != BfIR::Jz && c != BfIR::Jnz);
            assert(f.last() != BfIR::Jz && f.last() != BfIR::Jnz);
            assert(open_stack(f) == open_stack(f.drop_last()));
            assert(closes_ok(f.drop_last())) by {
                assert(f.take(f.len() - 1) =~= f.drop_last());
                lemma_closes_ok_prefix(f, f.len() - 1);
            }
            lemma_closes_ok_push(f.drop_last(), c);
            assert(r.drop_last() =~= f.drop_last());
            assert(open_stack(r) == open_stack(f.drop_last()));
            assert(open_stack(s) == open_stack(d));
        } else {
            let r = f.push(x);
            assert(crate::bfir::opt(s) == r);
            assert(r.drop_last() =~= f);
            if x == BfIR::Jnz {
                assert(open_stack(s.take(s.len() - 1)).len() > 0);
                assert(s.take(s.len() - 1) =~= d);
                assert(open_stack(f).len() > 0);
            }
            lemma_closes_ok_push(f, x);
        }
    }
}

/// Optimisation leaves the loop structure intact: a well-formed program
/// stays well-formed.
pub proof fn lemma_optimize_preserves_wf(s: Seq<BfIR>)
    requires
        wf(s),
    ensures
        wf(crate::bfir::opt(s)),
{
    lemma_opt_structure(s);
}

/// The IR of a balanced source text is well-formed: the parser is the one
/// component that establishes the bracket invariant.
pub proof fn lemma_parse_wf(s: Seq<char>)
    requires
        crate::bfir::balanced(s),
    ensures
        wf(crate::bfir::ir_of(s)),
{
    crate::bfir::lemma_parse_iff_balanced(s);
    lemma_ir_of_structure(s);
}

proof fn lemma_ir_of_structure(s: Seq<char>)
    requires
        crate::bfir::first_bad_close(s) is None,
    ensures
        closes_ok(crate::bfir::ir_of(s)),
        open_stack(crate::bfir::ir_of(s)).len() == crate::bfir::unmatched_opens(s).len(),
    decreases s.len(),
{
    if s.len() == 0 {
        assert(crate::bfir::ir_of(s).len() == 0);
    } else {
        let d = s.drop_last();
        let c = s.last();
        let t = crate::bfir::ir_of(d);
        lemma_ir_of_structure(d);
        if crate::bfir::ir_of_char(c).len() > 0 {
            let x = crate::bfir::ir_of_char(c)[0];
            assert(crate::bfir::ir_of(s) =~= t.push(x));
            if c == ']' {
                assert(crate::bfir::unmatched_opens(d).len() > 0);
                assert(open_stack(t).len() > 0);
            }
            lemma_closes_ok_push(t, x);
            assert((t.push(x)).drop_last() =~= t);
        } else {
            assert(crate::bfir::ir_of(s) =~= t);
            assert(crate::bfir::unmatched_opens(s) == crate::bfir::unmatched_opens(d));
        }
    }
}

/// Check the loop markers of a program: every `]` closes an open `[`, and
/// none stays open at the end. The code generator's precondition, decided
/// at run time.
pub fn well_formed(ir: &Vec<BfIR>) -> (b: bool)
    ensures
        b == wf(ir@),
{
    let n = ir.len();
    let mut depth: usize = 0;
    let mut i: usize = 0;
    while i < n
        invariant
            n == ir@.len(),
            i <= n,
            depth == open_stack(ir@.take(i as int)).len(),
            depth <= i,
            closes_ok(ir@.take(i as int)),
        decreases n - i,
    {
        let ghost p = ir@.take(i as int);
        let ghost p1 = ir@.take(i as int + 1);
        proof {
            crate::bfir::lemma_take_step(ir@, i as int);
            assert(p1.drop_last() == p);
        }
        match ir[i] {
            BfIR::Jz => {
                depth = depth + 1;
                proof {
                    lemma_closes_ok_push(p, BfIR::Jz);
                    assert(p.push(BfIR::Jz) =~= p1);
                }
            },
            BfIR::Jnz => {
                if depth == 0 {
                    proof {
                        if wf(ir@) {
                            assert(ir@[i as int] == BfIR::Jnz);
                            assert(open_stack(ir@.take(i as int)).len() > 0);
                        }
                    }
                    return false;
                }
                depth = depth - 1;
                proof {
                    lemma_closes_ok_push(p, BfIR::Jnz);
                    assert(p.push(BfIR::Jnz) =~= p1);
                }
            },
            _ => {
                proof {
                    lemma_closes_ok_push(p, ir@[i as int]);
                    assert(p.push(ir@[i as int]) =~= p1);
                }
            },
        }
        i = i + 1;
    }
    proof {
        crate::bfir::lemma_take_all(ir@);
    }
    depth == 0
}

} // verus!
