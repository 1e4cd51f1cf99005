use vstd::prelude::*;

use crate::parser::{
    balanced, commands, op_view, ops_view, render, render_op, spec_parse, Op, OpCode, CLOSE_CHAR,
    GETC_CHAR, OPEN_CHAR,
};

verus! {

/// x86-64 machine code of one instruction that the loader supports, with `rsi` holding the
/// head's address and `rbx` the address of the output routine.
pub open spec fn op_code_bytes(op: Op) -> Seq<u8> {
    match op {
        Op::Rshift => seq![0x48u8, 0x83u8, 0xC6u8, 0x01u8],
        Op::Lshift => seq![0x48u8, 0x83u8, 0xEEu8, 0x01u8],
        Op::Dec => seq![0x80u8, 0x2Eu8, 0x01u8],
        Op::Inc => seq![0x80u8, 0x06u8, 0x01u8],
        Op::Putc => seq![0xFFu8, 0xD3u8],
        _ => Seq::empty(),
    }
}

/// Whether the loader can translate an instruction: it handles neither input nor loops.
pub open spec fn jit_supported(op: Op) -> bool {
    !(op is Getc) && !(op is Loop)
}

/// Machine code of a sequence of instructions, one after the other.
pub open spec fn machine_code(ops: Seq<Op>) -> Seq<u8>
    decreases ops.len(),
{
    if ops.len() == 0 {
        Seq::empty()
    } else {
        machine_code(ops.drop_last()) + op_code_bytes(ops.last())
    }
}

/// `buf` with `bytes` written over it from position `start` on, growing it where the
/// bytes run past its end.
pub open spec fn write_at(buf: Seq<u8>, start: int, bytes: Seq<u8>) -> Seq<u8> {
    if start + bytes.len() <= buf.len() {
        buf.take(start) + bytes + buf.skip(start + bytes.len())
    } else {
        buf.take(start) + bytes
    }
}

/// The output routine placed at the start of the text segment: a `write` system call of
/// one byte from the head's cell to standard output.
pub open spec fn putc_routine() -> Seq<u8> {
    seq![
        0x6Au8, 0x01u8, 0x51u8, 0x6Au8, 0x01u8, 0x48u8, 0xC7u8, 0xC0u8,
        0x04u8, 0x00u8, 0x00u8, 0x00u8, 0x48u8, 0x83u8, 0xECu8, 0x04u8,
        0xCDu8, 0x80u8, 0x48u8, 0x83u8, 0xC4u8, 0x10u8, 0xC3u8,
    ]
}

/// The instruction placed after the output routine: load a fixed address into `rbx`.
pub open spec fn load_putc() -> Seq<u8> {
    seq![0x48u8, 0xBBu8, 0x00u8, 0xA0u8, 0x4Fu8, 0x05u8, 0x01u8, 0x00u8, 0x00u8, 0x00u8]
}

/// The text segment the loader builds for a program: the output routine, then the
/// `rbx` load with the program's machine code written over it from its first byte on.
pub open spec fn text_image(ops: Seq<Op>) -> Seq<u8> {
    putc_routine() + write_at(load_putc(), 0, machine_code(ops))
}

/// The bytes of the output routine.
fn putc_routine_bytes() -> (v: Vec<u8>)
    ensures
        v@ == putc_routine(),
{
    let v = vec![
        0x6Au8, 0x01u8, 0x51u8, 0x6Au8, 0x01u8, 0x48u8, 0xC7u8, 0xC0u8,
        0x04u8, 0x00u8, 0x00u8, 0x00u8, 0x48u8, 0x83u8, 0xECu8, 0x04u8,
        0xCDu8, 0x80u8, 0x48u8, 0x83u8, 0xC4u8, 0x10u8, 0xC3u8,
    ];
    assert(v@ =~= putc_routine());
    v
}

/// Writes one byte at position `pos` of `text`, growing it by that byte when `pos` is its end.
fn put_byte(text: &mut Vec<u8>, pos: usize, b: u8)
    requires
        pos <= old(text)@.len(),
    ensures
        final(text)@ == write_at(old(text)@, pos as int, seq![b]),
{
    if pos < text.len() {
        text.set(pos, b);
        assert(final(text)@ =~= write_at(old(text)@, pos as int, seq![b]));
    } else {
        text.push(b);
        assert(final(text)@ =~= write_at(old(text)@, pos as int, seq![b]));
    }
}

/// Writing `a` and then, right after it, `b` is writing `a + b`.
proof fn lemma_write_at_append(buf: Seq<u8>, start: int, a: Seq<u8>, b: Seq<u8>)
    requires
        0 <= start <= buf.len(),
    ensures
        write_at(write_at(buf, start, a), start + a.len(), b) == write_at(buf, start, a + b),
        write_at(buf, start, a).len() >= start + a.len(),
{
    let mid = write_at(buf, start, a);
    assert(write_at(mid, start + a.len(), b) =~= write_at(buf, start, a + b));
}

/// Writes the machine code of `program` into `text` from position `start` on.
/// Only moves of the head, changes of the cell and output are supported.
pub fn assemble_into(program: &[OpCode], text: &mut Vec<u8>, start: usize)
    requires
        start <= old(text)@.len(),
        start + 4 * program@.len() <= usize::MAX,
        forall|i: int| 0 <= i < program@.len() ==> jit_supported(op_view(#[trigger] program@[i])),
    ensures
        final(text)@ == write_at(old(text)@, start as int, machine_code(ops_view(program@))),
{
    let ghost ops = program@;
    let ghost text0 = text@;
    let mut pos: usize = start;
    let mut i: usize = 0;
    assert(ops.take(0) =~= Seq::<OpCode>::empty());
    assert(text0 =~= write_at(text0, start as int, Seq::empty()));
    while i < program.len()
        invariant
            i <= ops.len(),
            ops == program@,
            start <= text0.len(),
            forall|j: int| 0 <= j < ops.len() ==> jit_supported(op_view(#[trigger] ops[j])),
            pos == start + machine_code(ops_view(ops.take(i as int))).len(),
            text@ == write_at(text0, start as int, machine_code(ops_view(ops.take(i as int)))),
            pos <= text@.len(),
            start + 4 * ops.len() <= usize::MAX,
            machine_code(ops_view(ops.take(i as int))).len() <= 4 * i,
        decreases ops.len() - i,
    {
        let ghost done = machine_code(ops_view(ops.take(i as int)));
        let bytes: Vec<u8> = match &program[i] {
            OpCode::Rshift => vec![0x48u8, 0x83u8, 0xC6u8, 0x01u8],
            OpCode::Lshift => vec![0x48u8, 0x83u8, 0xEEu8, 0x01u8],
            OpCode::Dec => vec![0x80u8, 0x2Eu8, 0x01u8],
            OpCode::Inc => vec![0x80u8, 0x06u8, 0x01u8],
            OpCode::Putc => vec![0xFFu8, 0xD3u8],
            _ => {
                assert(!jit_supported(op_view(ops[i as int])));
                Vec::new()
            },
        };
        assert(bytes@ =~= op_code_bytes(op_view(ops[i as int])));
        let mut k: usize = 0;
        while k < bytes.len()
            invariant
                k <= bytes@.len(),
                start <= text0.len(),
                pos == start + done.len() + k,
                text@ == write_at(text0, start as int, done + bytes@.take(k as int)),
                pos <= text@.len(),
                bytes@.len() <= 4,
                start + done.len() + bytes@.len() <= usize::MAX,
            decreases bytes@.len() - k,
        {
            proof {
                lemma_write_at_append(text0, start as int, done + bytes@.take(k as int), seq![bytes@[k as int]]);
                assert((done + bytes@.take(k as int)) + seq![bytes@[k as int]] =~= done + bytes@.take(k + 1));
            }
            put_byte(text, pos, bytes[k]);
            pos = pos + 1;
            k = k + 1;
            proof {
                lemma_write_at_append(text0, start as int, done + bytes@.take(k as int), Seq::empty());
            }
        }
        proof {
            crate::parser::lemma_ops_view_take(ops, i as int);
            assert(ops_view(ops.take(i + 1)).drop_last() =~= ops_view(ops.take(i as int)));
            assert(bytes@.take(bytes@.len() as int) =~= bytes@);
        }
        i = i + 1;
    }
    assert(ops.take(ops.len() as int) =~= ops);
}

/// The text segment the loader runs for `program`; the program's code starts right after
/// the output routine, over the `rbx` load.
pub fn text_segment(program: &[OpCode]) -> (text: Vec<u8>)
    requires
        4 * program@.len() <= usize::MAX - 33,
        forall|i: int| 0 <= i < program@.len() ==> jit_supported(op_view(#[trigger] program@[i])),
    ensures
        text@ == text_image(ops_view(program@)),
{
    let mut text = putc_routine_bytes();
    let entry = text.len();
    let mut loader = vec![0x48u8, 0xBBu8, 0x00u8, 0xA0u8, 0x4Fu8, 0x05u8, 0x01u8, 0x00u8, 0x00u8, 0x00u8];
    assert(loader@ =~= load_putc());
    text.append(&mut loader);
    let ghost before = text@;
    assemble_into(program, &mut text, entry);
    let ghost code = machine_code(ops_view(program@));
    assert(before.take(23) =~= putc_routine());
    assert(before.skip(23) =~= load_putc());
    proof {
        if code.len() <= 10 {
            assert(before.skip(23 + code.len() as int) =~= load_putc().skip(code.len() as int));
        }
    }
    assert(text@ =~= text_image(ops_view(program@)));
    text
}

/// The position of the first top-level instruction the loader cannot translate, if any.
pub fn first_unsupported(program: &[OpCode]) -> (r: Option<usize>)
    ensures
        match r {
            Some(i) => i < program@.len() && !jit_supported(op_view(program@[i as int]))
                && forall|j: int| 0 <= j < i ==> jit_supported(op_view(#[trigger] program@[j])),
            None => forall|j: int| 0 <= j < program@.len() ==> jit_supported(op_view(#[trigger] program@[j])),
        },
{
    let mut i: usize = 0;
    while i < program.len()
        invariant
            i <= program@.len(),
            forall|j: int| 0 <= j < i ==> jit_supported(op_view(#[trigger] program@[j])),
        decreases program@.len() - i,
    {
        match &program[i] {
            OpCode::Getc => { return Some(i); },
            OpCode::Loop(_) => { return Some(i); },
            _ => {},
        }
        i = i + 1;
    }
    None
}

/// Machine code is laid down instruction by instruction: the code of a joined program is
/// the code of the first part followed by that of the second.
pub proof fn lemma_machine_code_joined(a: Seq<Op>, b: Seq<Op>)
    ensures
        machine_code(a + b) == machine_code(a) + machine_code(b),
    decreases b.len(),
{
    if b.len() == 0 {
        assert(a + b =~= a);
        assert(machine_code(a) + machine_code(b) =~= machine_code(a));
    } else {
        assert((a + b).drop_last() =~= a + b.drop_last());
        lemma_machine_code_joined(a, b.drop_last());
        assert(machine_code(a + b) =~= machine_code(a) + machine_code(b));
    }
}

/// The machine code of a single instruction is its encoding.
pub proof fn lemma_machine_code_single(op: Op)
    ensures
        machine_code(seq![op]) == op_code_bytes(op),
{
    assert(seq![op].drop_last() =~= Seq::<Op>::empty());
    assert(machine_code(Seq::<Op>::empty()) == Seq::<u8>::empty());
    assert(seq![op].last() == op);
    assert(Seq::<u8>::empty() + op_code_bytes(op) =~= op_code_bytes(op));
}

/// The loader translates an instruction exactly when it has an encoding.
pub proof fn lemma_supported_iff_encoded(op: Op)
    ensures
        jit_supported(op) == (op_code_bytes(op).len() > 0),
{
}

/// Every top-level instruction of a program can be translated exactly when its source text
/// has neither a `,` nor a `[`.
pub proof fn lemma_all_supported_iff_text(ops: Seq<Op>)
    ensures
        (forall|i: int| 0 <= i < ops.len() ==> jit_supported(#[trigger] ops[i])) == (!render(
            ops,
        ).contains(GETC_CHAR) && !render(ops).contains(OPEN_CHAR)),
    decreases ops.len(),
{
    if ops.len() > 0 {
        let init = ops.drop_last();
        let op = ops.last();
        lemma_all_supported_iff_text(init);
        crate::parser::lemma_contains_append(render(init), render_op(op), GETC_CHAR);
        crate::parser::lemma_contains_append(render(init), render_op(op), OPEN_CHAR);
        match op {
            Op::Loop(body) => {
                let open = seq![OPEN_CHAR];
                assert(render_op(op) == open + (render(body) + seq![CLOSE_CHAR]));
                crate::parser::lemma_contains_append(open, render(body) + seq![CLOSE_CHAR], OPEN_CHAR);
                crate::parser::lemma_contains_single(OPEN_CHAR, OPEN_CHAR);
            },
            _ => {
                assert(render_op(op) == seq![render_op(op)[0]]);
                crate::parser::lemma_contains_single(render_op(op)[0], GETC_CHAR);
                crate::parser::lemma_contains_single(render_op(op)[0], OPEN_CHAR);
            },
        }
        if forall|i: int| 0 <= i < ops.len() ==> jit_supported(#[trigger] ops[i]) {
            assert forall|i: int| 0 <= i < init.len() implies jit_supported(#[trigger] init[i]) by {
                assert(init[i] == ops[i]);
            }
            assert(jit_supported(ops[ops.len() - 1]));
        }
        if forall|i: int| 0 <= i < init.len() ==> jit_supported(#[trigger] init[i]) {
            if jit_supported(op) {
                assert forall|i: int| 0 <= i < ops.len() implies jit_supported(#[trigger] ops[i]) by {
                    if i < init.len() {
                        assert(init[i] == ops[i]);
                    }
                }
            }
        }
    } else {
        assert(!render(ops).contains(GETC_CHAR));
        assert(!render(ops).contains(OPEN_CHAR));
    }
}

/// For the program parsed from a balanced text, the loader can translate every top-level
/// instruction exactly when the text has neither a `,` nor a `[`: each of `<>+-.` is
/// translated.
pub proof fn lemma_all_supported_of_parse(s: Seq<u8>)
    requires
        balanced(s),
    ensures
        (forall|i: int|
            0 <= i < spec_parse(s).len() ==> jit_supported(#[trigger] spec_parse(s)[i])) == (
        !s.contains(GETC_CHAR) && !s.contains(OPEN_CHAR)),
{
    crate::parser::lemma_render_parse(s);
    lemma_all_supported_iff_text(spec_parse(s));
    crate::parser::lemma_commands_contains(s, GETC_CHAR);
    crate::parser::lemma_commands_contains(s, OPEN_CHAR);
}

} // verus!
