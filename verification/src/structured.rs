use vstd::prelude::*;

use crate::eval::{
    accept_input, advance, code_at, frame_code, restart, shifted, step, valid_position, Action,
    Config, Fault,
};
use crate::parser::Op;

verus! {

/// What a program works on when it runs as a whole: the tape, the head, the input still
/// to be read and the output written so far.
#[verifier::ext_equal]
pub struct World {
    pub tape: Seq<u8>,
    pub idx: usize,
    pub input: Seq<u8>,
    pub output: Seq<u8>,
}

/// How running a piece of a program ends.
pub enum Outcome {
    /// It ran to its end.
    Done(World),
    /// It stopped before an instruction that faults, or at a `,` with no input left.
    Stopped(World, Action),
    /// It did not finish within the loop iterations allowed.
    OutOfFuel,
}

/// Size of an instruction: one, plus the size of a loop's body.
pub open spec fn op_size(op: Op) -> nat
    decreases op, 0int,
{
    match op {
        Op::Loop(body) => 1 + seq_size(body),
        _ => 1,
    }
}

/// Size of a sequence of instructions: one more than the sizes of its instructions.
pub open spec fn seq_size(ops: Seq<Op>) -> nat
    decreases ops, 1int,
{
    if ops.len() == 0 {
        1
    } else {
        seq_size(ops.drop_last()) + op_size(ops.last())
    }
}

/// Every sequence has a positive size.
pub proof fn lemma_seq_size_positive(ops: Seq<Op>)
    ensures
        seq_size(ops) >= 1,
    decreases ops.len(),
{
    if ops.len() > 0 {
        lemma_seq_size_positive(ops.drop_last());
    }
}

/// The world with the head's cell set to `v`.
pub open spec fn set_cell(w: World, v: u8) -> World {
    World { tape: w.tape.update(w.idx as int, v), ..w }
}

/// Runs one instruction, the way the recursive interpreter does: a loop runs its body
/// again and again while the head's cell is not zero. `fuel` bounds the number of loop
/// iterations.
pub open spec fn exec_op(op: Op, w: World, fuel: nat) -> Outcome
    decreases fuel, op_size(op),
{
    let on_tape = w.idx < w.tape.len();
    match op {
        Op::Lshift => if w.idx == 0 {
            Outcome::Stopped(w, Action::Fault(Fault::HeadUnderflow))
        } else {
            Outcome::Done(World { idx: (w.idx - 1) as usize, ..w })
        },
        Op::Rshift => if w.idx == usize::MAX {
            Outcome::Stopped(w, Action::Fault(Fault::HeadOverflow))
        } else {
            Outcome::Done(World { idx: (w.idx + 1) as usize, ..w })
        },
        Op::Inc => if !on_tape {
            Outcome::Stopped(w, Action::Fault(Fault::OffTape))
        } else if w.tape[w.idx as int] == 255 {
            Outcome::Stopped(w, Action::Fault(Fault::CellOverflow))
        } else {
            Outcome::Done(set_cell(w, (w.tape[w.idx as int] + 1) as u8))
        },
        Op::Dec => if !on_tape {
            Outcome::Stopped(w, Action::Fault(Fault::OffTape))
        } else if w.tape[w.idx as int] == 0 {
            Outcome::Stopped(w, Action::Fault(Fault::CellUnderflow))
        } else {
            Outcome::Done(set_cell(w, (w.tape[w.idx as int] - 1) as u8))
        },
        Op::Putc => if !on_tape {
            Outcome::Stopped(w, Action::Fault(Fault::OffTape))
        } else {
            Outcome::Done(World { output: w.output.push(w.tape[w.idx as int]), ..w })
        },
        Op::Getc => if !on_tape {
            Outcome::Stopped(w, Action::Fault(Fault::OffTape))
        } else if w.input.len() == 0 {
            Outcome::Stopped(w, Action::NeedInput)
        } else {
            Outcome::Done(World { input: w.input.drop_first(), ..set_cell(w, w.input[0]) })
        },
        Op::Loop(body) => exec_loop(body, w, fuel),
    }
}

/// Runs a loop: while the head's cell is not zero, runs the body.
pub open spec fn exec_loop(body: Seq<Op>, w: World, fuel: nat) -> Outcome
    decreases fuel, seq_size(body),
{
    if !(w.idx < w.tape.len()) {
        Outcome::Stopped(w, Action::Fault(Fault::OffTape))
    } else if w.tape[w.idx as int] == 0 {
        Outcome::Done(w)
    } else if fuel == 0 {
        Outcome::OutOfFuel
    } else {
        match exec_seq(body, w, (fuel - 1) as nat) {
            Outcome::Done(next) => exec_loop(body, next, (fuel - 1) as nat),
            other => other,
        }
    }
}

/// Runs a sequence of instructions one after the other.
pub open spec fn exec_seq(ops: Seq<Op>, w: World, fuel: nat) -> Outcome
    decreases fuel, seq_size(ops),
{
    if ops.len() == 0 {
        Outcome::Done(w)
    } else {
        proof {
            lemma_seq_size_positive(ops.drop_last());
        }
        match exec_seq(ops.drop_last(), w, fuel) {
            Outcome::Done(next) => exec_op(ops.last(), next, fuel),
            other => other,
        }
    }
}

/// Runs the step machine for up to `n` steps, writing its output to `output` and feeding
/// it bytes from `input` whenever it waits for one. Reports the action it stopped at, or
/// `None` when it took all `n` steps.
pub open spec fn drive(prog: Seq<Op>, c: Config, input: Seq<u8>, output: Seq<u8>, n: nat) -> (
    Config,
    Seq<u8>,
    Seq<u8>,
    Option<Action>,
)
    decreases n,
{
    if n == 0 {
        (c, input, output, None)
    } else {
        let (next, act) = step(prog, c);
        match act {
            Action::Running => drive(prog, next, input, output, (n - 1) as nat),
            Action::Output(b) => drive(prog, next, input, output.push(b), (n - 1) as nat),
            Action::NeedInput => if input.len() > 0 {
                drive(prog, accept_input(c, input[0]), input.drop_first(), output, (n - 1) as nat)
            } else {
                (c, input, output, Some(act))
            },
            _ => (c, input, output, Some(act)),
        }
    }
}

/// Whether an instruction's loop bodies, at every depth, are short enough to index with a `usize`.
pub open spec fn op_fits(op: Op) -> bool
    decreases op, 0int,
{
    match op {
        Op::Loop(body) => ops_fit(body),
        _ => true,
    }
}

/// Whether a sequence and all loop bodies in it are short enough to index with a `usize`.
pub open spec fn ops_fit(ops: Seq<Op>) -> bool
    decreases ops, 1int,
{
    &&& ops.len() <= usize::MAX
    &&& (ops.len() == 0 || (ops_fit(ops.drop_last()) && op_fits(ops.last())))
}

proof fn lemma_ops_fit_index(ops: Seq<Op>, i: int)
    requires
        ops_fit(ops),
        0 <= i < ops.len(),
    ensures
        op_fits(ops[i]),
    decreases ops.len(),
{
    if i < ops.len() - 1 {
        lemma_ops_fit_index(ops.drop_last(), i);
    }
}

/// The machine state that holds a world's tape and head at a position.
pub open spec fn at(w: World, pcs: Seq<usize>) -> Config {
    Config { tape: w.tape, idx: w.idx, pcs }
}

/// Driving the machine for `a` steps and then for `b` more is driving it for `a + b`
/// steps, when the first part did not stop.
proof fn lemma_drive_append(
    prog: Seq<Op>,
    c: Config,
    input: Seq<u8>,
    output: Seq<u8>,
    a: nat,
    b: nat,
)
    requires
        drive(prog, c, input, output, a).3 is None,
    ensures
        ({
            let d = drive(prog, c, input, output, a);
            drive(prog, c, input, output, a + b) == drive(prog, d.0, d.1, d.2, b)
        }),
    decreases a,
{
    if a > 0 {
        let (next, act) = step(prog, c);
        assert((a + b - 1) as nat == (a - 1) as nat + b);
        match act {
            Action::Running => lemma_drive_append(prog, next, input, output, (a - 1) as nat, b),
            Action::Output(x) => lemma_drive_append(
                prog,
                next,
                input,
                output.push(x),
                (a - 1) as nat,
                b,
            ),
            Action::NeedInput => {
                if input.len() > 0 {
                    lemma_drive_append(
                        prog,
                        accept_input(c, input[0]),
                        input.drop_first(),
                        output,
                        (a - 1) as nat,
                        b,
                    );
                }
            },
            _ => {},
        }
    }
}

/// Driving the machine for one step.
proof fn lemma_drive_one(prog: Seq<Op>, c: Config, input: Seq<u8>, output: Seq<u8>)
    ensures
        drive(prog, c, input, output, 1) == match step(prog, c).1 {
            Action::Running => (step(prog, c).0, input, output, None::<Action>),
            Action::Output(b) => (step(prog, c).0, input, output.push(b), None::<Action>),
            Action::NeedInput => if input.len() > 0 {
                (accept_input(c, input[0]), input.drop_first(), output, None::<Action>)
            } else {
                (c, input, output, Some(Action::NeedInput))
            },
            a => (c, input, output, Some(a)),
        },
{
    let (next, act) = step(prog, c);
    assert(drive(prog, next, input, output, 0) == (next, input, output, None::<Action>));
    match act {
        Action::Output(b) => {
            assert(drive(prog, next, input, output.push(b), 0) == (next, input, output.push(b), None::<Action>));
        },
        Action::NeedInput => {
            if input.len() > 0 {
                let c2 = accept_input(c, input[0]);
                assert(drive(prog, c2, input.drop_first(), output, 0) == (c2, input.drop_first(), output, None::<Action>));
            }
        },
        _ => {},
    }
}

/// Moving along a frame keeps a position valid and the frame the same.
proof fn lemma_valid_in_frame(prog: Seq<Op>, p: Seq<usize>, j: nat)
    requires
        valid_position(prog, p.push(0)),
        j <= frame_code(prog, p.push(0)).len(),
        j <= usize::MAX,
    ensures
        valid_position(prog, p.push(j as usize)),
        frame_code(prog, p.push(j as usize)) == frame_code(prog, p.push(0)),
{
    let a = p.push(0);
    let b = p.push(j as usize);
    assert(b.take(p.len() as int) =~= a.take(p.len() as int));
    crate::eval::lemma_frames_agree(prog, b, a, p.len());
}

/// The frame entered from a loop of a valid position is that loop's body.
proof fn lemma_enter_frame(prog: Seq<Op>, p: Seq<usize>, i: nat, body: Seq<Op>)
    requires
        valid_position(prog, p.push(i as usize)),
        i <= usize::MAX,
        i < frame_code(prog, p.push(i as usize)).len(),
        frame_code(prog, p.push(i as usize))[i as int] == Op::Loop(body),
    ensures
        valid_position(prog, p.push(i as usize).push(0)),
        frame_code(prog, p.push(i as usize).push(0)) == body,
{
    let q = p.push(i as usize);
    crate::eval::lemma_valid_enter(prog, q);
    let r = q.push(0);
    let m = (q.len() - 1) as nat;
    assert(r.take(m as int) =~= q.take(m as int));
    crate::eval::lemma_code_at_prefix(prog, r, q, m);
    assert(r[m as int] == i as usize);
    assert(frame_code(prog, r) == code_at(prog, r, q.len() as nat));
}

/// Whether a run of the machine ended as an outcome of the recursive interpreter says:
/// at position `done` with the same world when the outcome is `Done`, and stopped with
/// the same world and report when the outcome is `Stopped`.
pub open spec fn reached(
    d: (Config, Seq<u8>, Seq<u8>, Option<Action>),
    o: Outcome,
    done: Seq<usize>,
) -> bool {
    match o {
        Outcome::Done(w2) => d == (at(w2, done), w2.input, w2.output, None::<Action>),
        Outcome::Stopped(w2, a) => {
            &&& d.0.tape == w2.tape
            &&& d.0.idx == w2.idx
            &&& d.1 == w2.input
            &&& d.2 == w2.output
            &&& d.3 == Some(a)
        },
        Outcome::OutOfFuel => true,
    }
}

/// When the recursive interpreter runs the first `k` instructions of a frame to an end or
/// a stop, the machine, started at the frame's first instruction, ends the same way,
/// reaching the frame's `k`-th position when the instructions run to their end.
proof fn lemma_run_seq(
    prog: Seq<Op>,
    p: Seq<usize>,
    code: Seq<Op>,
    k: nat,
    w: World,
    fuel: nat,
) -> (n: nat)
    requires
        valid_position(prog, p.push(0)),
        frame_code(prog, p.push(0)) == code,
        ops_fit(code),
        k <= code.len(),
    ensures
        reached(
            drive(prog, at(w, p.push(0)), w.input, w.output, n),
            exec_seq(code.take(k as int), w, fuel),
            p.push(k as usize),
        ),
    decreases fuel, seq_size(code.take(k as int)), 0int,
{
    if k == 0 {
        assert(code.take(0) =~= Seq::<Op>::empty());
        0
    } else {
        let prefix = code.take(k as int);
        assert(prefix.drop_last() =~= code.take(k - 1));
        assert(prefix.last() == code[k - 1]);
        lemma_seq_size_positive(code.take(k - 1));
        assert(seq_size(prefix) == seq_size(code.take(k - 1)) + op_size(code[k - 1]));
        assert(op_size(code[k - 1]) >= 1);
        let n1 = lemma_run_seq(prog, p, code, (k - 1) as nat, w, fuel);
        match exec_seq(code.take(k - 1), w, fuel) {
            Outcome::Done(w1) => {
                lemma_valid_in_frame(prog, p, (k - 1) as nat);
                let n2 = lemma_run_op(prog, p, code, (k - 1) as nat, w1, fuel);
                lemma_drive_append(prog, at(w, p.push(0)), w.input, w.output, n1, n2);
                n1 + n2
            },
            _ => n1,
        }
    }
}

/// When the recursive interpreter runs instruction `i` of a frame to an end or a stop, the
/// machine, at that instruction, ends the same way, reaching the next position when the
/// instruction runs to its end.
proof fn lemma_run_op(prog: Seq<Op>, p: Seq<usize>, code: Seq<Op>, i: nat, w: World, fuel: nat) -> (n:
    nat)
    requires
        valid_position(prog, p.push(i as usize)),
        frame_code(prog, p.push(i as usize)) == code,
        ops_fit(code),
        i < code.len(),
    ensures
        reached(
            drive(prog, at(w, p.push(i as usize)), w.input, w.output, n),
            exec_op(code[i as int], w, fuel),
            p.push((i + 1) as usize),
        ),
    decreases fuel, op_size(code[i as int]), 1int,
{
    let q = p.push(i as usize);
    assert(q.update(q.len() - 1, (q.last() + 1) as usize) =~= p.push((i + 1) as usize));
    match code[i as int] {
        Op::Loop(body) => {
            lemma_ops_fit_index(code, i as int);
            lemma_run_loop(prog, p, code, i, body, w, fuel)
        },
        _ => {
            reveal(step);
            assert(q.last() == i as usize);
            assert(frame_code(prog, at(w, q).pcs) == code);
            lemma_drive_one(prog, at(w, q), w.input, w.output);
            let (next, act) = step(prog, at(w, q));
            match exec_op(code[i as int], w, fuel) {
                Outcome::Done(w2) => {
                    if code[i as int] is Getc {
                        assert(accept_input(at(w, q), w.input[0]) =~= at(w2, p.push((i + 1) as usize)));
                    } else {
                        assert(next =~= at(w2, p.push((i + 1) as usize)));
                    }
                },
                _ => {},
            }
            1
        },
    }
}

/// When the recursive interpreter runs a loop at instruction `i` of a frame to an end or a
/// stop, the machine, at that loop, ends the same way, reaching the next position when the
/// loop runs to its end.
proof fn lemma_run_loop(
    prog: Seq<Op>,
    p: Seq<usize>,
    code: Seq<Op>,
    i: nat,
    body: Seq<Op>,
    w: World,
    fuel: nat,
) -> (n: nat)
    requires
        valid_position(prog, p.push(i as usize)),
        frame_code(prog, p.push(i as usize)) == code,
        ops_fit(code),
        ops_fit(body),
        i < code.len(),
        code[i as int] == Op::Loop(body),
    ensures
        reached(
            drive(prog, at(w, p.push(i as usize)), w.input, w.output, n),
            exec_loop(body, w, fuel),
            p.push((i + 1) as usize),
        ),
    decreases fuel, seq_size(body), 2int,
{
    reveal(step);
    let q = p.push(i as usize);
    assert(q.update(q.len() - 1, (q.last() + 1) as usize) =~= p.push((i + 1) as usize));
    assert(q.last() == i as usize);
    assert(frame_code(prog, at(w, q).pcs) == code);
    lemma_drive_one(prog, at(w, q), w.input, w.output);
    if !(w.idx < w.tape.len()) {
        1
    } else if w.tape[w.idx as int] == 0 {
        assert(step(prog, at(w, q)).0 =~= at(w, p.push((i + 1) as usize)));
        1
    } else if fuel == 0 {
        0
    } else {
        // Enter the body, run it, leave it, and run the loop again.
        let f = (fuel - 1) as nat;
        lemma_enter_frame(prog, p, i, body);
        assert(step(prog, at(w, q)).0 =~= at(w, q.push(0)));
        assert(body.take(body.len() as int) =~= body);
        let n_body = lemma_run_seq(prog, q, body, body.len(), w, f);
        lemma_drive_append(prog, at(w, q), w.input, w.output, 1, n_body);
        match exec_seq(body, w, f) {
            Outcome::Done(w1) => {
                let end = q.push(body.len() as usize);
                lemma_valid_in_frame(prog, q, body.len());
                assert(end.drop_last() =~= q);
                assert(end.last() == body.len() as usize);
                assert(frame_code(prog, at(w1, end).pcs) == body);
                assert(step(prog, at(w1, end)).0 =~= at(w1, q));
                lemma_drive_one(prog, at(w1, end), w1.input, w1.output);
                let n_rest = lemma_run_loop(prog, p, code, i, body, w1, f);
                lemma_drive_append(prog, at(w, q), w.input, w.output, 1, n_body + (1 + n_rest));
                lemma_drive_append(prog, at(w, q.push(0)), w.input, w.output, n_body, 1 + n_rest);
                lemma_drive_append(prog, at(w1, end), w1.input, w1.output, 1, n_rest);
                1 + (n_body + (1 + n_rest))
            },
            _ => 1 + n_body,
        }
    }
}

/// Whether a run of the machine from a program's start ended as the recursive interpreter
/// says the whole program does: halted at the program's end with the same world when it
/// runs to its end, stopped with the same world and report when it stops.
pub open spec fn agrees(d: (Config, Seq<u8>, Seq<u8>, Option<Action>), o: Outcome, len: nat) -> bool {
    match o {
        Outcome::Done(w2) => d == (
            at(w2, seq![len as usize]),
            w2.input,
            w2.output,
            Some(Action::Halted),
        ),
        _ => reached(d, o, seq![len as usize]),
    }
}

/// The step machine runs programs exactly as the recursive interpreter does. Whenever the
/// recursive definition, in which a loop runs its body again and again while the head's
/// cell is not zero, runs a whole program to its end, the machine, started at the
/// program's first instruction and fed the same input, reaches the program's end with the
/// same tape, head, output and remaining input, and then reports `Halted`; whenever the
/// recursive definition stops at a fault or at a `,` with no input left, the machine
/// stops with the same report, tape, head, output and remaining input.
pub proof fn lemma_machine_matches_recursive_run(prog: Seq<Op>, w: World, fuel: nat)
    requires
        ops_fit(prog),
    ensures
        exists|n: nat|
            agrees(
                #[trigger] drive(prog, at(w, seq![0usize]), w.input, w.output, n),
                exec_seq(prog, w, fuel),
                prog.len(),
            ),
{
    let start = Seq::<usize>::empty();
    assert(start.push(0) =~= seq![0usize]);
    assert(frame_code(prog, seq![0usize]) == prog);
    assert(prog.take(prog.len() as int) =~= prog);
    let n = lemma_run_seq(prog, start, prog, prog.len(), w, fuel);
    let end = start.push(prog.len() as usize);
    assert(end =~= seq![prog.len() as usize]);
    match exec_seq(prog, w, fuel) {
        Outcome::Done(w2) => {
            reveal(step);
            assert(frame_code(prog, end) == prog);
            lemma_drive_one(prog, at(w2, end), w2.input, w2.output);
            lemma_drive_append(prog, at(w, seq![0usize]), w.input, w.output, n, 1);
            assert(agrees(
                drive(prog, at(w, seq![0usize]), w.input, w.output, n + 1),
                exec_seq(prog, w, fuel),
                prog.len(),
            ));
        },
        _ => {
            assert(agrees(
                drive(prog, at(w, seq![0usize]), w.input, w.output, n),
                exec_seq(prog, w, fuel),
                prog.len(),
            ));
        },
    }
}

/// A result of driving the machine with its state shifted by `n`.
pub open spec fn lifted_drive(d: (Config, Seq<u8>, Seq<u8>, Option<Action>), n: nat) -> (
    Config,
    Seq<u8>,
    Seq<u8>,
    Option<Action>,
) {
    (shifted(d.0, n), d.1, d.2, d.3)
}

/// Until `p` halts, driving `p + q` is driving `p`.
proof fn lemma_drive_joined_first(
    p: Seq<Op>,
    q: Seq<Op>,
    c: Config,
    input: Seq<u8>,
    output: Seq<u8>,
    n: nat,
)
    requires
        valid_position(p, c.pcs),
        drive(p, c, input, output, n).3 != Some(Action::Halted),
    ensures
        drive(p + q, c, input, output, n) == drive(p, c, input, output, n),
    decreases n,
{
    if n > 0 {
        let (next, act) = step(p, c);
        if !(act is Halted) {
            crate::eval::lemma_step_joined_first(p, q, c);
        }
        crate::eval::lemma_step_valid(p, c);
        match act {
            Action::Running => lemma_drive_joined_first(p, q, next, input, output, (n - 1) as nat),
            Action::Output(b) => lemma_drive_joined_first(
                p,
                q,
                next,
                input,
                output.push(b),
                (n - 1) as nat,
            ),
            Action::NeedInput => {
                if input.len() > 0 {
                    crate::eval::lemma_accept_input_valid(p, c, input[0]);
                    lemma_drive_joined_first(
                        p,
                        q,
                        accept_input(c, input[0]),
                        input.drop_first(),
                        output,
                        (n - 1) as nat,
                    );
                }
            },
            _ => {},
        }
    }
}

/// Driving `q`, shifted past the instructions of `p`, is driving `p + q`.
proof fn lemma_drive_joined_second(
    p: Seq<Op>,
    q: Seq<Op>,
    c: Config,
    input: Seq<u8>,
    output: Seq<u8>,
    n: nat,
)
    requires
        valid_position(q, c.pcs),
        p.len() + q.len() <= usize::MAX,
    ensures
        drive(p + q, shifted(c, p.len()), input, output, n) == lifted_drive(
            drive(q, c, input, output, n),
            p.len(),
        ),
    decreases n,
{
    if n > 0 {
        let (next, act) = step(q, c);
        crate::eval::lemma_step_joined_second(p, q, c);
        crate::eval::lemma_step_valid(q, c);
        match act {
            Action::Running => lemma_drive_joined_second(p, q, next, input, output, (n - 1) as nat),
            Action::Output(b) => lemma_drive_joined_second(
                p,
                q,
                next,
                input,
                output.push(b),
                (n - 1) as nat,
            ),
            Action::NeedInput => {
                if input.len() > 0 {
                    crate::eval::lemma_accept_input_valid(q, c, input[0]);
                    crate::eval::lemma_accept_input_shifted(p, q, c, input[0]);
                    lemma_drive_joined_second(
                        p,
                        q,
                        accept_input(c, input[0]),
                        input.drop_first(),
                        output,
                        (n - 1) as nat,
                    );
                }
            },
            _ => {},
        }
    }
}

/// Running `p + q`, fed input and writing output, is running `p` and then `q` on the same
/// tape, head, input and output. Until `p` halts, the joined program writes the same bytes,
/// reads the same input and leaves the same tape and head as `p`, and stops when `p` stops,
/// with the same report. Once `p` has reached its end in `a` steps, the next `b` steps of the
/// joined program are those of `q` started on what `p` left: the tape, the head, the input
/// not yet read and the output written so far, with `q`'s positions moved past `p`.
pub proof fn lemma_drive_joined(
    p: Seq<Op>,
    q: Seq<Op>,
    c: Config,
    input: Seq<u8>,
    output: Seq<u8>,
    a: nat,
    b: nat,
)
    requires
        valid_position(p, c.pcs),
        p.len() + q.len() <= usize::MAX,
    ensures
        drive(p, c, input, output, a).3 != Some(Action::Halted) ==> drive(p + q, c, input, output, a)
            == drive(p, c, input, output, a),
        ({
            let d = drive(p, c, input, output, a);
            d.3 is None && d.0.pcs == seq![p.len() as usize] ==> drive(p + q, c, input, output, a + b)
                == lifted_drive(drive(q, restart(d.0), d.1, d.2, b), p.len())
        }),
{
    let d = drive(p, c, input, output, a);
    if d.3 != Some(Action::Halted) {
        lemma_drive_joined_first(p, q, c, input, output, a);
    }
    if d.3 is None && d.0.pcs == seq![p.len() as usize] {
        lemma_drive_append(p + q, c, input, output, a, b);
        assert(shifted(restart(d.0), p.len()) =~= d.0);
        crate::eval::lemma_start_valid(q);
        lemma_drive_joined_second(p, q, restart(d.0), d.1, d.2, b);
    }
}

} // verus!
