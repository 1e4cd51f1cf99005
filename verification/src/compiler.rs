use vstd::prelude::*;
use vstd::string::StringSliceAdditionalSpecFns;

use crate::parser::{
    balanced, commands, op_view, ops_view, render, render_op, spec_parse, is_command, Op, OpCode,
    GETC_CHAR, OPEN_CHAR,
};

verus! {

/// Assembly text that comes before the compiled program: the tape and the output routine.
pub const PRELUDE: &'static str = "
global start

section .bss
tape:    resb     30000

section .text

dot:
    push    dword 1
    push    esi
    push    dword 1
    mov     eax, 4
    sub     esp, 4
    int     0x80
    add     esp, 16
    ret

start:
    ; Begin, setup rcx as our index
    mov     esi, tape
";

/// Assembly text that comes after the compiled program: exit with status zero.
pub const EPILOGUE: &'static str = "
    ; End, exit zero because everything probably went super well
    push    dword 0
    mov     eax, 1
    push    dword 0
    int     0x80
";

pub const LABEL_START: &'static str = "    isn";
pub const LABEL_END: &'static str = ":\n";
pub const RSHIFT_ASM: &'static str = "    add     esi, dword 1\n";
pub const LSHIFT_ASM: &'static str = "    sub     esi, dword 1\n";
pub const INC_ASM: &'static str = "    add     [esi], dword 1\n";
pub const DEC_ASM: &'static str = "    sub     [esi], dword 1\n";
pub const PUTC_ASM: &'static str = "    call    dot\n";
pub const CMP_ASM: &'static str = "    cmp      [esi], byte 0\n";
pub const JE_START: &'static str = "    je      isn";
pub const JMP_START: &'static str = "    jmp     isn";
pub const LINE_END: &'static str = "\n";

/// One line of the generated assembly listing.
pub enum AsmLine {
    /// The label `isn<n>` that every instruction of the program starts with.
    Label(nat),
    Rshift,
    Lshift,
    Inc,
    Dec,
    Putc,
    /// Compare the current cell with zero.
    CmpZero,
    /// Jump to label `isn<n>` when the compared cell is zero.
    Je(nat),
    /// Jump to label `isn<n>`.
    Jmp(nat),
}

/// Number of labels a program takes: one for each instruction, a loop's body included.
pub open spec fn spec_op_len(op: Op) -> nat
    decreases op, 0int,
{
    match op {
        Op::Loop(body) => 1 + spec_effective_len(body),
        _ => 1,
    }
}

/// Number of labels a sequence of instructions takes.
pub open spec fn spec_effective_len(ops: Seq<Op>) -> nat
    decreases ops, 1int,
{
    if ops.len() == 0 {
        0
    } else {
        spec_effective_len(ops.drop_last()) + spec_op_len(ops.last())
    }
}

/// Whether an instruction reads input, itself or anywhere in a loop's body.
pub open spec fn op_reads(op: Op) -> bool
    decreases op, 0int,
{
    match op {
        Op::Getc => true,
        Op::Loop(body) => reads_input(body),
        _ => false,
    }
}

/// Whether some instruction of the sequence reads input.
pub open spec fn reads_input(ops: Seq<Op>) -> bool
    decreases ops, 1int,
{
    if ops.len() == 0 {
        false
    } else {
        reads_input(ops.drop_last()) || op_reads(ops.last())
    }
}

/// The listing of one instruction whose label is `k`. A loop tests its cell, jumps past its
/// body when the cell is zero, runs its body and jumps back to its own label.
pub open spec fn op_lines(op: Op, k: nat) -> Seq<AsmLine>
    decreases op, 0int,
{
    seq![AsmLine::Label(k)] + match op {
        Op::Rshift => seq![AsmLine::Rshift],
        Op::Lshift => seq![AsmLine::Lshift],
        Op::Inc => seq![AsmLine::Inc],
        Op::Dec => seq![AsmLine::Dec],
        Op::Putc => seq![AsmLine::Putc],
        Op::Getc => Seq::empty(),
        Op::Loop(body) => seq![AsmLine::CmpZero, AsmLine::Je(k + 1 + spec_effective_len(body))]
            + asm_lines(body, k + 1) + seq![AsmLine::Jmp(k)],
    }
}

/// The listing of a sequence of instructions whose first label is `k`.
pub open spec fn asm_lines(ops: Seq<Op>, k: nat) -> Seq<AsmLine>
    decreases ops, 1int,
{
    if ops.len() == 0 {
        Seq::empty()
    } else {
        asm_lines(ops.drop_last(), k) + op_lines(
            ops.last(),
            k + spec_effective_len(ops.drop_last()),
        )
    }
}

/// The listing of a whole program: its instructions, then the label the program ends at.
pub open spec fn listing(ops: Seq<Op>) -> Seq<AsmLine> {
    asm_lines(ops, 0).push(AsmLine::Label(spec_effective_len(ops)))
}

/// The decimal digits of a number, most significant first, without leading zeros.
pub open spec fn decimal(n: nat) -> Seq<u8>
    decreases n,
{
    if n < 10 {
        seq![(48 + n) as u8]
    } else {
        decimal(n / 10).push((48 + n % 10) as u8)
    }
}

/// The text of one listing line.
pub open spec fn line_text(line: AsmLine) -> Seq<u8> {
    match line {
        AsmLine::Label(n) => LABEL_START.spec_bytes() + decimal(n) + LABEL_END.spec_bytes(),
        AsmLine::Rshift => RSHIFT_ASM.spec_bytes(),
        AsmLine::Lshift => LSHIFT_ASM.spec_bytes(),
        AsmLine::Inc => INC_ASM.spec_bytes(),
        AsmLine::Dec => DEC_ASM.spec_bytes(),
        AsmLine::Putc => PUTC_ASM.spec_bytes(),
        AsmLine::CmpZero => CMP_ASM.spec_bytes(),
        AsmLine::Je(n) => JE_START.spec_bytes() + decimal(n) + LINE_END.spec_bytes(),
        AsmLine::Jmp(n) => JMP_START.spec_bytes() + decimal(n) + LINE_END.spec_bytes(),
    }
}

/// The text of a sequence of listing lines.
pub open spec fn lines_text(lines: Seq<AsmLine>) -> Seq<u8>
    decreases lines.len(),
{
    if lines.len() == 0 {
        Seq::empty()
    } else {
        lines_text(lines.drop_last()) + line_text(lines.last())
    }
}

/// The assembly source a program compiles to.
pub open spec fn compiled_text(ops: Seq<Op>) -> Seq<u8> {
    PRELUDE.spec_bytes() + lines_text(listing(ops)) + EPILOGUE.spec_bytes()
}

/// Appends the bytes of `s` to `out`.
fn push_text(out: &mut Vec<u8>, s: &str)
    ensures
        final(out)@ == old(out)@ + s.spec_bytes(),
{
    let bytes = s.as_bytes();
    let mut i: usize = 0;
    while i < bytes.len()
        invariant
            i <= bytes@.len(),
            bytes@ == s.spec_bytes(),
            out@ == old(out)@ + bytes@.take(i as int),
        decreases bytes@.len() - i,
    {
        out.push(bytes[i]);
        i = i + 1;
        assert(old(out)@ + bytes@.take(i as int) =~= (old(out)@ + bytes@.take(i - 1)).push(
            bytes@[i - 1],
        ));
    }
    assert(bytes@.take(bytes@.len() as int) =~= bytes@);
}

/// Appends the decimal digits of `n` to `out`.
fn push_decimal(out: &mut Vec<u8>, n: usize)
    ensures
        final(out)@ == old(out)@ + decimal(n as nat),
    decreases n,
{
    if n >= 10 {
        push_decimal(out, n / 10);
    }
    let ghost mid = out@;
    out.push(48 + (n % 10) as u8);
    assert(old(out)@ + decimal(n as nat) =~= mid.push((48 + n % 10) as u8));
}

/// Appends the text of a label line `isn<n>:`.
fn push_label(out: &mut Vec<u8>, n: usize)
    ensures
        final(out)@ == old(out)@ + line_text(AsmLine::Label(n as nat)),
{
    push_text(out, LABEL_START);
    push_decimal(out, n);
    push_text(out, LABEL_END);
    assert(final(out)@ =~= old(out)@ + line_text(AsmLine::Label(n as nat)));
}


/// Listings, and their text, split where their lines are split.
proof fn lemma_lines_text_append(a: Seq<AsmLine>, b: Seq<AsmLine>)
    ensures
        lines_text(a + b) == lines_text(a) + lines_text(b),
    decreases b.len(),
{
    if b.len() == 0 {
        assert(a + b =~= a);
        assert(lines_text(a) + lines_text(b) =~= lines_text(a));
    } else {
        assert((a + b).drop_last() =~= a + b.drop_last());
        lemma_lines_text_append(a, b.drop_last());
        assert(lines_text(a + b) =~= lines_text(a) + lines_text(b));
    }
}

/// The text of a one-line listing.
proof fn lemma_one_line(a: AsmLine)
    ensures
        lines_text(seq![a]) == line_text(a),
{
    assert(seq![a].drop_last() =~= Seq::<AsmLine>::empty());
    assert(lines_text(Seq::<AsmLine>::empty()) =~= Seq::<u8>::empty());
    assert(Seq::<u8>::empty() + line_text(a) =~= line_text(a));
}

/// The text of a two-line listing.
proof fn lemma_two_lines(a: AsmLine, b: AsmLine)
    ensures
        lines_text(seq![a, b]) == line_text(a) + line_text(b),
{
    assert(seq![a, b].drop_last() =~= seq![a]);
    assert(seq![a].drop_last() =~= Seq::<AsmLine>::empty());
    lemma_one_line(a);
    assert(lines_text(seq![a, b]) == lines_text(seq![a]) + line_text(b));
}

/// A prefix of a sequence takes no more labels than the whole.
proof fn lemma_effective_len_prefix(ops: Seq<Op>, i: int)
    requires
        0 <= i <= ops.len(),
    ensures
        spec_effective_len(ops.take(i)) <= spec_effective_len(ops),
    decreases ops.len(),
{
    if i < ops.len() {
        assert(ops.drop_last().take(i) =~= ops.take(i));
        lemma_effective_len_prefix(ops.drop_last(), i);
    } else {
        assert(ops.take(i) =~= ops);
    }
}

/// An instruction of a sequence that reads no input reads no input.
proof fn lemma_reads_input_index(ops: Seq<Op>, i: int)
    requires
        0 <= i < ops.len(),
        !reads_input(ops),
    ensures
        !op_reads(ops[i]),
    decreases ops.len(),
{
    if i < ops.len() - 1 {
        lemma_reads_input_index(ops.drop_last(), i);
    }
}

/// When a prefix of a program takes more labels than a `usize` holds, so does the program.
proof fn overflow_witness(ops: Seq<OpCode>, i: int)
    requires
        0 <= i < ops.len(),
    ensures
        spec_effective_len(ops_view(ops.take(i + 1))) <= spec_effective_len(ops_view(ops)),
{
    crate::parser::lemma_ops_view_index(ops);
    crate::parser::lemma_ops_view_prefix(ops, i + 1);
    lemma_effective_len_prefix(ops_view(ops), i + 1);
}

/// The number of labels a program takes, when it fits in a `usize`.
pub fn effective_len(program: &[OpCode]) -> (r: Option<usize>)
    ensures
        r == (if spec_effective_len(ops_view(program@)) <= usize::MAX {
            Some(spec_effective_len(ops_view(program@)) as usize)
        } else {
            None::<usize>
        }),
    decreases program@,
{
    let ghost ops = program@;
    let mut len: usize = 0;
    let mut i: usize = 0;
    assert(ops.take(0) =~= Seq::<OpCode>::empty());
    while i < program.len()
        invariant
            i <= ops.len(),
            ops == program@,
            len == spec_effective_len(ops_view(ops.take(i as int))),
        decreases ops.len() - i,
    {
        proof {
            crate::parser::lemma_ops_view_take(ops, i as int);
            assert(ops_view(ops.take(i + 1)).drop_last() =~= ops_view(ops.take(i as int)));
        }
        assert(spec_effective_len(ops_view(ops.take(i + 1))) == len + spec_op_len(op_view(ops[i as int])));
        let step: usize = match &program[i] {
            OpCode::Loop(body) => {
                assert(op_view(ops[i as int]) == Op::Loop(ops_view(body@)));
                assert(decreases_to!(program@ => program@[i as int]));
                match effective_len(body.as_slice()) {
                    Some(n) => {
                        if n == usize::MAX {
                            proof { overflow_witness(ops, i as int); }
                            return None;
                        }
                        n + 1
                    },
                    None => {
                        proof { overflow_witness(ops, i as int); }
                        return None;
                    },
                }
            },
            _ => 1,
        };
        if len > usize::MAX - step {
            proof { overflow_witness(ops, i as int); }
            return None;
        }
        len = len + step;
        i = i + 1;
    }
    assert(ops.take(ops.len() as int) =~= ops);
    Some(len)
}


/// Whether some instruction of the program, at any depth, reads input.
pub fn contains_getc(program: &[OpCode]) -> (r: bool)
    ensures
        r == reads_input(ops_view(program@)),
    decreases program@,
{
    let ghost ops = program@;
    let mut i: usize = 0;
    assert(ops.take(0) =~= Seq::<OpCode>::empty());
    while i < program.len()
        invariant
            i <= ops.len(),
            ops == program@,
            !reads_input(ops_view(ops.take(i as int))),
        decreases ops.len() - i,
    {
        proof {
            crate::parser::lemma_ops_view_take(ops, i as int);
            assert(ops_view(ops.take(i + 1)).drop_last() =~= ops_view(ops.take(i as int)));
        }
        let here: bool = match &program[i] {
            OpCode::Getc => true,
            OpCode::Loop(body) => {
                assert(op_view(ops[i as int]) == Op::Loop(ops_view(body@)));
                assert(decreases_to!(program@ => program@[i as int]));
                contains_getc(body.as_slice())
            },
            _ => false,
        };
        assert(here == op_reads(op_view(ops[i as int])));
        if here {
            proof {
                crate::parser::lemma_ops_view_index(ops);
                crate::parser::lemma_ops_view_index(ops.take(i + 1));
                assert(reads_input(ops_view(ops.take(i + 1))));
                reads_input_prefix(ops_view(ops), i + 1);
                crate::parser::lemma_ops_view_prefix(ops, i + 1);
            }
            return true;
        }
        i = i + 1;
    }
    assert(ops.take(ops.len() as int) =~= ops);
    false
}

/// A program reads input when a prefix of it does.
proof fn reads_input_prefix(ops: Seq<Op>, i: int)
    requires
        0 <= i <= ops.len(),
        reads_input(ops.take(i)),
    ensures
        reads_input(ops),
    decreases ops.len(),
{
    if i < ops.len() {
        assert(ops.drop_last().take(i) =~= ops.take(i));
        reads_input_prefix(ops.drop_last(), i);
    } else {
        assert(ops.take(i) =~= ops);
    }
}

/// Text of a loop's listing after its label line.
spec fn loop_rest_text(body: Seq<Op>, k: nat) -> Seq<u8> {
    line_text(AsmLine::CmpZero) + line_text(AsmLine::Je(k + 1 + spec_effective_len(body)))
        + lines_text(asm_lines(body, k + 1)) + line_text(AsmLine::Jmp(k))
}

/// The listing text of a loop is its label line followed by the rest.
proof fn lemma_loop_text(body: Seq<Op>, k: nat)
    ensures
        lines_text(op_lines(Op::Loop(body), k)) == line_text(AsmLine::Label(k)) + loop_rest_text(body, k),
{
    let head = seq![AsmLine::Label(k), AsmLine::CmpZero, AsmLine::Je(k + 1 + spec_effective_len(body))];
    let mid = asm_lines(body, k + 1);
    let tail = seq![AsmLine::Jmp(k)];
    assert(op_lines(Op::Loop(body), k) =~= head + mid + tail);
    lemma_lines_text_append(head + mid, tail);
    lemma_lines_text_append(head, mid);
    assert(head.drop_last() =~= seq![AsmLine::Label(k), AsmLine::CmpZero]);
    lemma_two_lines(AsmLine::Label(k), AsmLine::CmpZero);
    lemma_one_line(AsmLine::Jmp(k));
    assert(lines_text(op_lines(Op::Loop(body), k)) =~= line_text(AsmLine::Label(k)) + loop_rest_text(body, k));
}

/// Appends a jump line: `start`, the decimal target and a line end.
fn push_jump(out: &mut Vec<u8>, start: &str, n: usize)
    ensures
        final(out)@ == old(out)@ + (start.spec_bytes() + decimal(n as nat) + LINE_END.spec_bytes()),
{
    push_text(out, start);
    push_decimal(out, n);
    push_text(out, LINE_END);
    assert(final(out)@ =~= old(out)@ + (start.spec_bytes() + decimal(n as nat) + LINE_END.spec_bytes()));
}

/// Appends the rest of the listing of a loop whose label `label` is already written:
/// the test, the jump past the body, the body and the jump back.
fn emit_loop(body: &Vec<OpCode>, label: usize, outfile: &mut Vec<u8>, isn: &mut usize)
    requires
        !reads_input(ops_view(body@)),
        *old(isn) == label + 1,
        label + 1 + spec_effective_len(ops_view(body@)) <= usize::MAX,
    ensures
        *final(isn) == *old(isn) + spec_effective_len(ops_view(body@)),
        final(outfile)@ == old(outfile)@ + loop_rest_text(ops_view(body@), label as nat),
    decreases *body, 0int,
{
    let ghost k = label as nat;
    let ghost b = ops_view(body@);
    let ghost t0 = outfile@;
    let target = match effective_len(body.as_slice()) {
        Some(n) => *isn + n,
        None => {
            assert(false);
            0
        },
    };
    push_text(outfile, CMP_ASM);
    let ghost t1 = outfile@;
    push_jump(outfile, JE_START, target);
    let ghost t2 = outfile@;
    inner(body.as_slice(), outfile, isn);
    let ghost t3 = outfile@;
    push_jump(outfile, JMP_START, label);
    assert(t1 == t0 + line_text(AsmLine::CmpZero));
    assert(t2 == t1 + line_text(AsmLine::Je(k + 1 + spec_effective_len(b))));
    assert(t3 == t2 + lines_text(asm_lines(b, k + 1)));
    assert(outfile@ == t3 + line_text(AsmLine::Jmp(k)));
    assert(outfile@ =~= t0 + loop_rest_text(b, k));
}

/// Appends the listing of one instruction whose label is `*isn`, and advances `*isn`
/// past the labels it used.
fn emit(code: &OpCode, outfile: &mut Vec<u8>, isn: &mut usize)
    requires
        !op_reads(op_view(*code)),
        *old(isn) + spec_op_len(op_view(*code)) <= usize::MAX,
    ensures
        *final(isn) == *old(isn) + spec_op_len(op_view(*code)),
        final(outfile)@ == old(outfile)@ + lines_text(op_lines(op_view(*code), *old(isn) as nat)),
    decreases *code, 0int,
{
    let ghost op = op_view(*code);
    let ghost k = *isn as nat;
    let ghost before = outfile@;
    let label = *isn;
    push_label(outfile, label);
    *isn = label + 1;
    match code {
        OpCode::Rshift => {
            push_text(outfile, RSHIFT_ASM);
            proof {
                assert(op_lines(op, k) =~= seq![AsmLine::Label(k), AsmLine::Rshift]);
                lemma_two_lines(AsmLine::Label(k), AsmLine::Rshift);
            }
        },
        OpCode::Lshift => {
            push_text(outfile, LSHIFT_ASM);
            proof {
                assert(op_lines(op, k) =~= seq![AsmLine::Label(k), AsmLine::Lshift]);
                lemma_two_lines(AsmLine::Label(k), AsmLine::Lshift);
            }
        },
        OpCode::Inc => {
            push_text(outfile, INC_ASM);
            proof {
                assert(op_lines(op, k) =~= seq![AsmLine::Label(k), AsmLine::Inc]);
                lemma_two_lines(AsmLine::Label(k), AsmLine::Inc);
            }
        },
        OpCode::Dec => {
            push_text(outfile, DEC_ASM);
            proof {
                assert(op_lines(op, k) =~= seq![AsmLine::Label(k), AsmLine::Dec]);
                lemma_two_lines(AsmLine::Label(k), AsmLine::Dec);
            }
        },
        OpCode::Putc => {
            push_text(outfile, PUTC_ASM);
            proof {
                assert(op_lines(op, k) =~= seq![AsmLine::Label(k), AsmLine::Putc]);
                lemma_two_lines(AsmLine::Label(k), AsmLine::Putc);
            }
        },
        OpCode::Getc => {
            assert(false);
        },
        OpCode::Loop(body) => {
            emit_loop(body, label, outfile, isn);
            assert(op == Op::Loop(ops_view(body@)));
            proof {
                lemma_loop_text(ops_view(body@), k);
            }
            assert(outfile@ =~= before + lines_text(op_lines(op, k)));
        },
    }
}

/// Appends the listing of `program` with labels numbered from `*isn` on, and advances
/// `*isn` past the labels it used.
pub fn inner(program: &[OpCode], outfile: &mut Vec<u8>, isn: &mut usize)
    requires
        !reads_input(ops_view(program@)),
        *old(isn) + spec_effective_len(ops_view(program@)) <= usize::MAX,
    ensures
        *final(isn) == *old(isn) + spec_effective_len(ops_view(program@)),
        final(outfile)@ == old(outfile)@ + lines_text(asm_lines(ops_view(program@), *old(isn) as nat)),
    decreases program@, 1int,
{
    let ghost ops = program@;
    let ghost start = *isn as nat;
    let ghost out0 = outfile@;
    let len = program.len();
    let mut pc: usize = 0;
    assert(ops.take(0) =~= Seq::<OpCode>::empty());
    assert(out0 + lines_text(Seq::empty()) =~= out0);
    proof {
        crate::parser::lemma_ops_view_index(ops);
    }
    while pc < len
        invariant
            len == ops.len(),
            pc <= len,
            ops == program@,
            ops_view(ops).len() == ops.len(),
            !reads_input(ops_view(ops)),
            start + spec_effective_len(ops_view(ops)) <= usize::MAX,
            *isn == start + spec_effective_len(ops_view(ops.take(pc as int))),
            outfile@ == out0 + lines_text(asm_lines(ops_view(ops.take(pc as int)), start)),
        decreases len - pc,
    {
        let ghost k = *isn as nat;
        let ghost op = op_view(ops[pc as int]);
        proof {
            crate::parser::lemma_ops_view_take(ops, pc as int);
            crate::parser::lemma_ops_view_index(ops);
            crate::parser::lemma_ops_view_prefix(ops, pc + 1);
            let next = ops_view(ops.take(pc + 1));
            assert(next.drop_last() =~= ops_view(ops.take(pc as int)));
            lemma_effective_len_prefix(ops_view(ops), pc + 1);
            lemma_reads_input_index(ops_view(ops), pc as int);
            lemma_lines_text_append(asm_lines(ops_view(ops.take(pc as int)), start), op_lines(op, k));
        }
        assert(decreases_to!(program@ => program@[pc as int]));
        emit(&program[pc], outfile, isn);
        pc = pc + 1;
    }
    assert(ops.take(len as int) =~= ops);
}

/// Compiles a program to assembly source for the i386 `nasm` assembler, appended to
/// `outfile`: the prelude, one labelled block per instruction, the end label and the
/// epilogue. Reading input is not supported by the compiler.
pub fn compile(program: &[OpCode], outfile: &mut Vec<u8>)
    requires
        !reads_input(ops_view(program@)),
        spec_effective_len(ops_view(program@)) <= usize::MAX,
    ensures
        final(outfile)@ == old(outfile)@ + compiled_text(ops_view(program@)),
{
    let ghost ops = ops_view(program@);
    let ghost out0 = outfile@;
    push_text(outfile, PRELUDE);
    let ghost t1 = outfile@;
    let mut isn: usize = 0;
    inner(program, outfile, &mut isn);
    let ghost t2 = outfile@;
    push_label(outfile, isn);
    let ghost t3 = outfile@;
    push_text(outfile, EPILOGUE);
    proof {
        let lines = asm_lines(ops, 0);
        assert(listing(ops).drop_last() =~= lines);
        assert(lines_text(listing(ops)) == lines_text(lines) + line_text(AsmLine::Label(spec_effective_len(ops))));
        assert(outfile@ =~= out0 + compiled_text(ops));
    }
}

/// The label a listing line defines, if it is a label line.
pub open spec fn line_label(line: AsmLine) -> Option<nat> {
    match line {
        AsmLine::Label(n) => Some(n),
        _ => None,
    }
}

/// The label a listing line jumps to, if it is a jump.
pub open spec fn jump_target(line: AsmLine) -> Option<nat> {
    match line {
        AsmLine::Je(n) => Some(n),
        AsmLine::Jmp(n) => Some(n),
        _ => None,
    }
}

/// The labels a listing defines, in order.
pub open spec fn labels(lines: Seq<AsmLine>) -> Seq<nat>
    decreases lines.len(),
{
    if lines.len() == 0 {
        Seq::empty()
    } else {
        match line_label(lines.last()) {
            Some(n) => labels(lines.drop_last()).push(n),
            None => labels(lines.drop_last()),
        }
    }
}

/// The numbers from `k` up to, not including, `k + n`.
pub open spec fn label_range(k: nat, n: nat) -> Seq<nat> {
    Seq::new(n, |i: int| (k + i) as nat)
}

/// Every jump of the listing goes to a label from `lo` up to `hi`.
pub open spec fn jumps_within(lines: Seq<AsmLine>, lo: nat, hi: nat) -> bool {
    forall|j: int|
        0 <= j < lines.len() ==> match jump_target(#[trigger] lines[j]) {
            Some(t) => lo <= t <= hi,
            None => true,
        }
}

proof fn lemma_labels_append(a: Seq<AsmLine>, b: Seq<AsmLine>)
    ensures
        labels(a + b) == labels(a) + labels(b),
    decreases b.len(),
{
    if b.len() == 0 {
        assert(a + b =~= a);
        assert(labels(a) + labels(b) =~= labels(a));
    } else {
        assert((a + b).drop_last() =~= a + b.drop_last());
        lemma_labels_append(a, b.drop_last());
        assert(labels(a + b) =~= labels(a) + labels(b));
    }
}

proof fn lemma_labels_no_label(a: Seq<AsmLine>)
    requires
        forall|j: int| 0 <= j < a.len() ==> line_label(#[trigger] a[j]) is None,
    ensures
        labels(a) == Seq::<nat>::empty(),
    decreases a.len(),
{
    if a.len() > 0 {
        lemma_labels_no_label(a.drop_last());
    }
}

/// The listing of an instruction labelled `k` defines the labels `k` to `k + len - 1`, in
/// order, and jumps only to labels from `k` to `k + len`.
proof fn lemma_op_lines_labels(op: Op, k: nat)
    ensures
        labels(op_lines(op, k)) == label_range(k, spec_op_len(op)),
        jumps_within(op_lines(op, k), k, k + spec_op_len(op)),
    decreases op, 0int,
{
    let first = seq![AsmLine::Label(k)];
    lemma_one_line(AsmLine::Label(k));
    assert(first.drop_last() =~= Seq::<AsmLine>::empty());
    assert(labels(Seq::<AsmLine>::empty()) =~= Seq::<nat>::empty());
    assert(line_label(first.last()) == Some(k));
    assert(labels(first) =~= seq![k]);
    match op {
        Op::Loop(body) => {
            let e = spec_effective_len(body);
            let head = seq![AsmLine::CmpZero, AsmLine::Je(k + 1 + e)];
            let mid = asm_lines(body, k + 1);
            let tail = seq![AsmLine::Jmp(k)];
            assert(op_lines(op, k) =~= first + head + mid + tail);
            lemma_asm_lines_labels(body, k + 1);
            lemma_labels_no_label(head);
            lemma_labels_no_label(tail);
            lemma_labels_append(first + head + mid, tail);
            lemma_labels_append(first + head, mid);
            lemma_labels_append(first, head);
            assert(labels(op_lines(op, k)) =~= label_range(k, spec_op_len(op)));
            assert forall|j: int| 0 <= j < op_lines(op, k).len() implies match jump_target(
                #[trigger] op_lines(op, k)[j],
            ) {
                Some(t) => k <= t <= k + spec_op_len(op),
                None => true,
            } by {
                let lines = first + head + mid + tail;
                if 3 <= j < 3 + mid.len() {
                    assert(lines[j] == mid[j - 3]);
                }
            }
        },
        _ => {
            assert(op_lines(op, k).len() <= 2);
            assert(labels(op_lines(op, k)) =~= label_range(k, spec_op_len(op))) by {
                let rest = op_lines(op, k).skip(1);
                assert(op_lines(op, k) =~= first + rest);
                lemma_labels_no_label(rest);
                lemma_labels_append(first, rest);
            }
        },
    }
}

/// The listing of a sequence whose first label is `k` defines the labels `k` to
/// `k + len - 1`, in order, and jumps only to labels from `k` to `k + len`.
proof fn lemma_asm_lines_labels(ops: Seq<Op>, k: nat)
    ensures
        labels(asm_lines(ops, k)) == label_range(k, spec_effective_len(ops)),
        jumps_within(asm_lines(ops, k), k, k + spec_effective_len(ops)),
    decreases ops, 1int,
{
    if ops.len() == 0 {
        assert(labels(asm_lines(ops, k)) =~= label_range(k, 0));
    } else {
        let init = ops.drop_last();
        let e = spec_effective_len(init);
        lemma_asm_lines_labels(init, k);
        lemma_op_lines_labels(ops.last(), k + e);
        let a = asm_lines(init, k);
        let b = op_lines(ops.last(), k + e);
        lemma_labels_append(a, b);
        assert(labels(asm_lines(ops, k)) =~= label_range(k, spec_effective_len(ops)));
        assert forall|j: int| 0 <= j < (a + b).len() implies match jump_target(#[trigger] (a + b)[j]) {
            Some(t) => k <= t <= k + spec_effective_len(ops),
            None => true,
        } by {
            if j < a.len() {
                assert((a + b)[j] == a[j]);
            } else {
                assert((a + b)[j] == b[j - a.len()]);
            }
        }
    }
}

/// The compiled listing of any program is well formed: its labels are `0` to `n`, where
/// `n` is the number of instructions, each defined once and in order, and every jump goes
/// to one of them.
pub proof fn lemma_listing_well_formed(ops: Seq<Op>)
    ensures
        labels(listing(ops)) == label_range(0, spec_effective_len(ops) + 1),
        labels(listing(ops)).no_duplicates(),
        forall|j: int|
            0 <= j < listing(ops).len() ==> match jump_target(#[trigger] listing(ops)[j]) {
                Some(t) => labels(listing(ops)).contains(t),
                None => true,
            },
{
    let n = spec_effective_len(ops);
    let lines = asm_lines(ops, 0);
    lemma_asm_lines_labels(ops, 0);
    assert(listing(ops).drop_last() =~= lines);
    assert(labels(listing(ops)) =~= label_range(0, n + 1));
    assert forall|j: int| 0 <= j < listing(ops).len() implies match jump_target(
        #[trigger] listing(ops)[j],
    ) {
        Some(t) => labels(listing(ops)).contains(t),
        None => true,
    } by {
        if j < lines.len() {
            assert(listing(ops)[j] == lines[j]);
            match jump_target(lines[j]) {
                Some(t) => {
                    assert(labels(listing(ops))[t as int] == t);
                },
                None => {},
            }
        }
    }
}

/// The listing of a joined program is the listing of the first part followed by that of
/// the second, whose labels start right after the first part's: `inner` on `p + q` writes
/// what `inner` on `p` and then on `q` writes, and ends at the same label number.
pub proof fn lemma_asm_lines_joined(p: Seq<Op>, q: Seq<Op>, k: nat)
    ensures
        spec_effective_len(p + q) == spec_effective_len(p) + spec_effective_len(q),
        asm_lines(p + q, k) == asm_lines(p, k) + asm_lines(q, k + spec_effective_len(p)),
        lines_text(asm_lines(p + q, k)) == lines_text(asm_lines(p, k)) + lines_text(
            asm_lines(q, k + spec_effective_len(p)),
        ),
        reads_input(p + q) == (reads_input(p) || reads_input(q)),
    decreases q.len(),
{
    if q.len() == 0 {
        assert(p + q =~= p);
        assert(asm_lines(p, k) + asm_lines(q, k + spec_effective_len(p)) =~= asm_lines(p, k));
    } else {
        let init = q.drop_last();
        assert((p + q).drop_last() =~= p + init);
        assert((p + q).last() == q.last());
        lemma_asm_lines_joined(p, init, k);
        assert(asm_lines(p + q, k) =~= asm_lines(p, k) + asm_lines(q, k + spec_effective_len(p)));
    }
    lemma_lines_text_append(asm_lines(p, k), asm_lines(q, k + spec_effective_len(p)));
}

/// For instruction vectors: what `inner` writes for `p` followed by `q`, and where its label
/// count ends, are what it writes for `p` and then for `q`, labels continuing from `p`'s end.
pub proof fn lemma_inner_joined(p: Seq<OpCode>, q: Seq<OpCode>, k: nat)
    ensures
        spec_effective_len(ops_view(p + q)) == spec_effective_len(ops_view(p)) + spec_effective_len(
            ops_view(q),
        ),
        lines_text(asm_lines(ops_view(p + q), k)) == lines_text(asm_lines(ops_view(p), k)) + lines_text(
            asm_lines(ops_view(q), k + spec_effective_len(ops_view(p))),
        ),
        reads_input(ops_view(p + q)) == (reads_input(ops_view(p)) || reads_input(ops_view(q))),
{
    crate::parser::lemma_ops_view_append(p, q);
    lemma_asm_lines_joined(ops_view(p), ops_view(q), k);
}

/// Number of bytes of a text that take a label when compiled: the command characters
/// other than `[`, a loop's label standing for its `]`.
pub open spec fn label_chars(s: Seq<u8>) -> nat
    decreases s.len(),
{
    if s.len() == 0 {
        0
    } else if is_command(s.last()) && s.last() != OPEN_CHAR {
        label_chars(s.drop_last()) + 1
    } else {
        label_chars(s.drop_last())
    }
}

/// Label-taking bytes of joined texts add up.
proof fn lemma_label_chars_append(a: Seq<u8>, b: Seq<u8>)
    ensures
        label_chars(a + b) == label_chars(a) + label_chars(b),
    decreases b.len(),
{
    if b.len() == 0 {
        assert(a + b =~= a);
    } else {
        assert((a + b).drop_last() =~= a + b.drop_last());
        lemma_label_chars_append(a, b.drop_last());
    }
}

/// Dropping comment bytes keeps the number of label-taking bytes.
proof fn lemma_label_chars_of_commands(s: Seq<u8>)
    ensures
        label_chars(commands(s)) == label_chars(s),
    decreases s.len(),
{
    if s.len() > 0 {
        lemma_label_chars_of_commands(s.drop_last());
        if is_command(s.last()) {
            assert(commands(s).drop_last() =~= commands(s.drop_last()));
        }
    }
}

/// The source text of an instruction has as many label-taking bytes as the instruction
/// takes labels; likewise for sequences.
proof fn lemma_label_chars_of_render_op(op: Op)
    ensures
        label_chars(render_op(op)) == spec_op_len(op),
    decreases op, 0int,
{
    match op {
        Op::Loop(body) => {
            let open = seq![OPEN_CHAR];
            let close = seq![crate::parser::CLOSE_CHAR];
            lemma_label_chars_of_render(body);
            lemma_label_chars_append(open + render(body), close);
            lemma_label_chars_append(open, render(body));
            assert(open.drop_last() =~= Seq::<u8>::empty());
            assert(close.drop_last() =~= Seq::<u8>::empty());
            assert(label_chars(Seq::<u8>::empty()) == 0);
            assert(open.last() == OPEN_CHAR);
            assert(label_chars(open) == 0);
            assert(is_command(close.last()));
            assert(label_chars(close) == 1);
            assert(render_op(op) == open + render(body) + close);
        },
        _ => {
            assert(render_op(op).drop_last() =~= Seq::<u8>::empty());
            assert(label_chars(Seq::<u8>::empty()) == 0);
            assert(is_command(render_op(op).last()) && render_op(op).last() != OPEN_CHAR);
        },
    }
}

proof fn lemma_label_chars_of_render(ops: Seq<Op>)
    ensures
        label_chars(render(ops)) == spec_effective_len(ops),
    decreases ops, 1int,
{
    if ops.len() > 0 {
        lemma_label_chars_of_render(ops.drop_last());
        lemma_label_chars_of_render_op(ops.last());
        lemma_label_chars_append(render(ops.drop_last()), render_op(ops.last()));
    }
}

/// For a text whose brackets are balanced, the parsed program takes one label for each
/// command character other than `[`: one per simple instruction and one per loop, counted
/// at its `]`.
pub proof fn lemma_label_count_of_parse(s: Seq<u8>)
    requires
        balanced(s),
    ensures
        spec_effective_len(spec_parse(s)) == label_chars(s),
{
    crate::parser::lemma_render_parse(s);
    lemma_label_chars_of_render(spec_parse(s));
    lemma_label_chars_of_commands(s);
}

/// Whether a byte is an ASCII decimal digit.
pub open spec fn is_digit(b: u8) -> bool {
    48 <= b <= 57
}

/// The number a string of decimal digits spells, most significant digit first.
pub open spec fn digits_value(s: Seq<u8>) -> int
    decreases s.len(),
{
    if s.len() == 0 {
        0
    } else {
        digits_value(s.drop_last()) * 10 + (s.last() - 48)
    }
}

/// Label numbers are written in decimal: the text of `n` is made of ASCII digits, spells
/// `n`, and has no leading zero; it is one digit long exactly when `n` is below ten.
pub proof fn lemma_decimal_spells_number(n: nat)
    ensures
        decimal(n).len() >= 1,
        decimal(n).len() == 1 <==> n < 10,
        forall|i: int| 0 <= i < decimal(n).len() ==> is_digit(#[trigger] decimal(n)[i]),
        digits_value(decimal(n)) == n,
        decimal(n).len() > 1 ==> decimal(n)[0] != 48,
    decreases n,
{
    if n < 10 {
        assert(seq![(48 + n) as u8].drop_last() =~= Seq::<u8>::empty());
        assert(digits_value(Seq::<u8>::empty()) == 0);
        assert(((48 + n) as u8) == 48 + n);
    } else {
        let m = n / 10;
        lemma_decimal_spells_number(m);
        let d = decimal(m);
        let e = d.push((48 + n % 10) as u8);
        assert(e.drop_last() =~= d);
        assert(((48 + n % 10) as u8) == 48 + n % 10);
        assert(digits_value(e) == digits_value(d) * 10 + (n % 10));
        assert(n == m * 10 + n % 10);
        assert(m >= 1);
        assert(e[0] == d[0]);
        if d.len() == 1 {
            assert(d[0] == (48 + m) as u8);
        }
    }
}

/// Different label numbers are written differently.
pub proof fn lemma_decimal_injective(a: nat, b: nat)
    ensures
        decimal(a) == decimal(b) ==> a == b,
{
    lemma_decimal_spells_number(a);
    lemma_decimal_spells_number(b);
}

/// An instruction reads input exactly when its source text has a `,`.
proof fn lemma_op_reads_iff_getc_in_text(op: Op)
    ensures
        op_reads(op) == render_op(op).contains(GETC_CHAR),
    decreases op, 0int,
{
    match op {
        Op::Loop(body) => {
            let open = seq![OPEN_CHAR];
            let close = seq![crate::parser::CLOSE_CHAR];
            lemma_reads_input_iff_getc_in_text(body);
            crate::parser::lemma_contains_append(open + render(body), close, GETC_CHAR);
            crate::parser::lemma_contains_append(open, render(body), GETC_CHAR);
            crate::parser::lemma_contains_single(OPEN_CHAR, GETC_CHAR);
            crate::parser::lemma_contains_single(crate::parser::CLOSE_CHAR, GETC_CHAR);
        },
        _ => {
            assert(render_op(op) == seq![render_op(op)[0]]);
            crate::parser::lemma_contains_single(render_op(op)[0], GETC_CHAR);
        },
    }
}

/// A program reads input exactly when its source text has a `,`, at any depth.
pub proof fn lemma_reads_input_iff_getc_in_text(ops: Seq<Op>)
    ensures
        reads_input(ops) == render(ops).contains(GETC_CHAR),
    decreases ops, 1int,
{
    if ops.len() == 0 {
        assert(!render(ops).contains(GETC_CHAR));
    } else {
        lemma_reads_input_iff_getc_in_text(ops.drop_last());
        lemma_op_reads_iff_getc_in_text(ops.last());
        crate::parser::lemma_contains_append(render(ops.drop_last()), render_op(ops.last()), GETC_CHAR);
    }
}

/// The program parsed from a balanced text reads input, and so is refused by the compiler,
/// exactly when the text has a `,`.
pub proof fn lemma_reads_input_of_parse(s: Seq<u8>)
    requires
        balanced(s),
    ensures
        reads_input(spec_parse(s)) == s.contains(GETC_CHAR),
{
    crate::parser::lemma_render_parse(s);
    lemma_reads_input_iff_getc_in_text(spec_parse(s));
    crate::parser::lemma_commands_contains(s, GETC_CHAR);
}

/// Line `j` of `lines` is a loop's skip jump that lands right after the loop: line `j - 2`
/// is the loop's label `k`, line `j - 1` its test, and a later line `m` is the loop's jump
/// back to `k` such that the skip's target is `base` plus the number of labels defined
/// before line `m`.
pub open spec fn skips_loop(lines: Seq<AsmLine>, base: nat, j: int) -> bool {
    &&& 2 <= j < lines.len()
    &&& lines[j - 1] == AsmLine::CmpZero
    &&& match (lines[j - 2], lines[j]) {
        (AsmLine::Label(k), AsmLine::Je(t)) => exists|m: int|
            j < m < lines.len() && #[trigger] lines[m] == AsmLine::Jmp(k) && base + labels(
                lines.take(m),
            ).len() == t,
        _ => false,
    }
}

/// Every skip jump of `lines` lands right after its loop.
pub open spec fn all_skips_land(lines: Seq<AsmLine>, base: nat) -> bool {
    forall|j: int| 0 <= j < lines.len() && (#[trigger] lines[j]) is Je ==> skips_loop(lines, base, j)
}

/// Every jump back of `lines` goes to a label from `lo` up to, not including, `hi`.
pub open spec fn jmps_between(lines: Seq<AsmLine>, lo: nat, hi: nat) -> bool {
    forall|a: int|
        0 <= a < lines.len() ==> match #[trigger] lines[a] {
            AsmLine::Jmp(t) => lo <= t < hi,
            _ => true,
        }
}

/// No two jumps back of `lines` go to the same label.
pub open spec fn jmps_distinct(lines: Seq<AsmLine>) -> bool {
    forall|a: int, b: int|
        0 <= a < lines.len() && 0 <= b < lines.len() && (#[trigger] lines[a]) is Jmp && lines[a]
            == #[trigger] lines[b] ==> a == b
}

/// The skip jumps of a block keep landing right after their loops when lines are put before
/// and after the block.
proof fn lemma_skips_embed(pre: Seq<AsmLine>, mid: Seq<AsmLine>, post: Seq<AsmLine>, base: nat)
    requires
        all_skips_land(mid, base + labels(pre).len()),
    ensures
        forall|j: int|
            pre.len() <= j < pre.len() + mid.len() && (#[trigger] (pre + mid + post)[j]) is Je
                ==> skips_loop(pre + mid + post, base, j),
{
    let lines = pre + mid + post;
    assert forall|j: int|
        pre.len() <= j < pre.len() + mid.len() && (#[trigger] lines[j]) is Je implies skips_loop(
        lines,
        base,
        j,
    ) by {
        let jj = j - pre.len();
        assert(lines[j] == mid[jj]);
        assert(skips_loop(mid, base + labels(pre).len(), jj));
        assert(lines[j - 1] == mid[jj - 1]);
        assert(lines[j - 2] == mid[jj - 2]);
        match (mid[jj - 2], mid[jj]) {
            (AsmLine::Label(k), AsmLine::Je(t)) => {
                let m = choose|m: int|
                    jj < m < mid.len() && #[trigger] mid[m] == AsmLine::Jmp(k) && base + labels(pre).len()
                        + labels(mid.take(m)).len() == t;
                let mm = m + pre.len();
                assert(lines[mm] == mid[m]);
                assert(lines.take(mm) =~= pre + mid.take(m));
                lemma_labels_append(pre, mid.take(m));
                assert(j < mm < lines.len() && lines[mm] == AsmLine::Jmp(k) && base + labels(
                    lines.take(mm),
                ).len() == t);
            },
            _ => {},
        }
    }
}

/// Joining two blocks whose jumps back are distinct and go to disjoint label ranges.
proof fn lemma_jmps_join(x: Seq<AsmLine>, y: Seq<AsmLine>, lx: nat, hx: nat, ly: nat, hy: nat)
    requires
        jmps_between(x, lx, hx),
        jmps_between(y, ly, hy),
        jmps_distinct(x),
        jmps_distinct(y),
        hx <= ly || hy <= lx,
    ensures
        jmps_distinct(x + y),
        forall|lo: nat, hi: nat| lo <= lx && lo <= ly && hx <= hi && hy <= hi ==> jmps_between(x + y, lo, hi),
{
    let z = x + y;
    assert forall|a: int, b: int|
        0 <= a < z.len() && 0 <= b < z.len() && (#[trigger] z[a]) is Jmp && z[a] == #[trigger] z[b] implies a
        == b by {
        if a < x.len() {
            assert(z[a] == x[a]);
        } else {
            assert(z[a] == y[a - x.len()]);
        }
        if b < x.len() {
            assert(z[b] == x[b]);
        } else {
            assert(z[b] == y[b - x.len()]);
        }
    }
    assert forall|lo: nat, hi: nat| lo <= lx && lo <= ly && hx <= hi && hy <= hi implies jmps_between(
        z,
        lo,
        hi,
    ) by {
        assert forall|a: int| 0 <= a < z.len() implies match #[trigger] z[a] {
            AsmLine::Jmp(t) => lo <= t < hi,
            _ => true,
        } by {
            if a < x.len() {
                assert(z[a] == x[a]);
            } else {
                assert(z[a] == y[a - x.len()]);
            }
        }
    }
}

/// In the listing of an instruction labelled `k`, every skip jump lands right after its
/// loop, and the jumps back are distinct and go to labels the instruction takes.
proof fn lemma_op_lines_skips(op: Op, k: nat)
    ensures
        all_skips_land(op_lines(op, k), k),
        jmps_between(op_lines(op, k), k, k + spec_op_len(op)),
        jmps_distinct(op_lines(op, k)),
    decreases op, 0int,
{
    let lines = op_lines(op, k);
    match op {
        Op::Loop(body) => {
            let e = spec_effective_len(body);
            let head = seq![AsmLine::Label(k), AsmLine::CmpZero, AsmLine::Je(k + 1 + e)];
            let mid = asm_lines(body, k + 1);
            let tail = seq![AsmLine::Jmp(k)];
            assert(lines =~= head + mid + tail);
            lemma_asm_lines_skips(body, k + 1);
            lemma_asm_lines_labels(body, k + 1);
            // The head defines one label and holds no jump back.
            assert(head.drop_last() =~= seq![AsmLine::Label(k), AsmLine::CmpZero]);
            assert(seq![AsmLine::Label(k), AsmLine::CmpZero].drop_last() =~= seq![AsmLine::Label(k)]);
            assert(seq![AsmLine::Label(k)].drop_last() =~= Seq::<AsmLine>::empty());
            assert(labels(Seq::<AsmLine>::empty()) =~= Seq::<nat>::empty());
            let h2 = seq![AsmLine::Label(k), AsmLine::CmpZero];
            let h1 = seq![AsmLine::Label(k)];
            assert(line_label(h1.last()) == Some(k));
            assert(labels(h1) == labels(Seq::<AsmLine>::empty()).push(k));
            assert(line_label(h2.last()) is None);
            assert(labels(h2) == labels(h1));
            assert(line_label(head.last()) is None);
            assert(labels(head) == labels(h2));
            assert(labels(head).len() == 1);
            lemma_skips_embed(head, mid, tail, k);
            // The loop's own skip jump, at line 2.
            let m: int = (head.len() + mid.len()) as int;
            assert(lines[m] == AsmLine::Jmp(k));
            assert(lines.take(m) =~= head + mid);
            lemma_labels_append(head, mid);
            assert(k + labels(lines.take(m)).len() == k + 1 + e);
            assert(lines[2] == AsmLine::Je(k + 1 + e));
            assert(skips_loop(lines, k, 2));
            assert forall|j: int| 0 <= j < lines.len() && (#[trigger] lines[j]) is Je implies skips_loop(
                lines,
                k,
                j,
            ) by {
                if j < 3 {
                    assert(j == 2);
                } else if j < 3 + mid.len() {
                } else {
                    assert(lines[j] == AsmLine::Jmp(k));
                }
            }
            // Jump backs: the body's, in `k + 1 ..`, then the loop's own, to `k`.
            assert(jmps_between(head, k + 1, k + 1));
            assert(jmps_distinct(head));
            lemma_jmps_join(head, mid, k + 1, k + 1, k + 1, k + 1 + e);
            assert(jmps_between(head + mid, k + 1, k + 1 + e));
            assert(jmps_between(tail, k, k + 1));
            assert(jmps_distinct(tail));
            lemma_jmps_join(head + mid, tail, k + 1, k + 1 + e, k, k + 1);
        },
        _ => {
            assert(lines.len() <= 2);
            assert(lines[0] == AsmLine::Label(k));
        },
    }
}

/// In the listing of a sequence whose first label is `k`, every skip jump lands right after
/// its loop, and the jumps back are distinct and go to labels the sequence takes.
proof fn lemma_asm_lines_skips(ops: Seq<Op>, k: nat)
    ensures
        all_skips_land(asm_lines(ops, k), k),
        jmps_between(asm_lines(ops, k), k, k + spec_effective_len(ops)),
        jmps_distinct(asm_lines(ops, k)),
    decreases ops, 1int,
{
    if ops.len() > 0 {
        let init = ops.drop_last();
        let e = spec_effective_len(init);
        let a = asm_lines(init, k);
        let o = op_lines(ops.last(), k + e);
        lemma_asm_lines_skips(init, k);
        lemma_op_lines_skips(ops.last(), k + e);
        lemma_asm_lines_labels(init, k);
        assert(asm_lines(ops, k) == a + o);
        lemma_skips_embed(Seq::<AsmLine>::empty(), a, o, k);
        assert(Seq::<AsmLine>::empty() + a + o =~= a + o);
        assert(labels(Seq::<AsmLine>::empty()) =~= Seq::<nat>::empty());
        lemma_skips_embed(a, o, Seq::<AsmLine>::empty(), k);
        assert(a + o + Seq::<AsmLine>::empty() =~= a + o);
        lemma_jmps_join(a, o, k, k + e, k + e, k + e + spec_op_len(ops.last()));
    }
}

/// In the compiled listing of any program, the jump that skips a loop whose cell is zero
/// lands right after the loop's whole listing, nested loops included. For each such jump
/// at line `j`, line `j - 2` is the loop's label `k` and line `j - 1` its test; the loop's
/// jump back to `k` is at a later line `m`, the only jump back to `k` in the listing; and
/// the skip's target is the number of labels defined before line `m`. Labels being defined
/// in order `0, 1, 2, ...`, that is the label of whatever follows the loop.
pub proof fn lemma_loop_skip_lands_after_loop(ops: Seq<Op>)
    ensures
        all_skips_land(listing(ops), 0),
        jmps_distinct(listing(ops)),
{
    let lines = asm_lines(ops, 0);
    let end = seq![AsmLine::Label(spec_effective_len(ops))];
    lemma_asm_lines_skips(ops, 0);
    assert(listing(ops) =~= Seq::<AsmLine>::empty() + lines + end);
    assert(labels(Seq::<AsmLine>::empty()) =~= Seq::<nat>::empty());
    lemma_skips_embed(Seq::<AsmLine>::empty(), lines, end, 0);
    assert forall|j: int| 0 <= j < listing(ops).len() && (#[trigger] listing(ops)[j]) is Je implies skips_loop(
        listing(ops),
        0,
        j,
    ) by {
        if j == lines.len() {
            assert(listing(ops)[j] == AsmLine::Label(spec_effective_len(ops)));
        }
    }
    assert(jmps_between(end, 0, 0));
    assert(jmps_distinct(end));
    lemma_jmps_join(lines, end, 0, spec_effective_len(ops), 0, 0);
    assert(listing(ops) =~= lines + end);
}

} // verus!
