use vstd::prelude::*;

use crate::compiler::{op_reads, reads_input};
use crate::context::Context;
use crate::parser::{op_view, ops_view, Op, OpCode};

verus! {

/// Why a step cannot be taken.
#[derive(Debug, Clone, Copy, PartialEq, Eq, Structural)]
pub enum Fault {
    /// `<` with the head on cell 0.
    HeadUnderflow,
    /// `>` with the head at the largest index a `usize` holds.
    HeadOverflow,
    /// The head is past the end of the tape and the instruction reads or writes its cell.
    OffTape,
    /// `+` on a cell that holds 255.
    CellOverflow,
    /// `-` on a cell that holds 0.
    CellUnderflow,
}

/// What a call of the interpreter reports.
#[derive(Debug, Clone, Copy, PartialEq, Eq, Structural)]
pub enum Action {
    /// A `.` wrote this byte; the program continues after it.
    Output(u8),
    /// The program is at a `,` and waits for a byte of input.
    NeedInput,
    /// The program has run to its end.
    Halted,
    /// The next instruction cannot run; nothing was changed.
    Fault(Fault),
    /// The steps allowed were taken and nothing else happened.
    Running,
}

#[verifier::ext_equal]
/// The state of a running program: the tape, the head's index, and the position of the
/// next instruction as a path. `pcs[0]` indexes the top-level instructions; each further
/// entry indexes the body of the loop the entry before it points at.
pub struct Config {
    pub tape: Seq<u8>,
    pub idx: usize,
    pub pcs: Seq<usize>,
}

/// The instructions of the `k`-th frame of a path: the program for `k == 0`, else the body
/// of the loop that entry `k - 1` points at.
pub open spec fn code_at(prog: Seq<Op>, pcs: Seq<usize>, k: nat) -> Seq<Op>
    decreases k,
{
    if k == 0 {
        prog
    } else {
        let parent = code_at(prog, pcs, (k - 1) as nat);
        let i = pcs[k - 1] as int;
        if 0 <= i < parent.len() {
            match parent[i] {
                Op::Loop(body) => body,
                _ => Seq::empty(),
            }
        } else {
            Seq::empty()
        }
    }
}

/// The instructions of the innermost frame.
pub open spec fn frame_code(prog: Seq<Op>, pcs: Seq<usize>) -> Seq<Op> {
    code_at(prog, pcs, (pcs.len() - 1) as nat)
}

/// A path that leads through loops of the program to a place in a frame, its end included.
pub open spec fn valid_position(prog: Seq<Op>, pcs: Seq<usize>) -> bool {
    &&& pcs.len() >= 1
    &&& forall|k: int|
        0 <= k < pcs.len() - 1 ==> {
            &&& (#[trigger] pcs[k]) < code_at(prog, pcs, k as nat).len()
            &&& code_at(prog, pcs, k as nat)[pcs[k] as int] is Loop
        }
    &&& pcs.last() <= frame_code(prog, pcs).len()
}

/// The same state with the innermost position one instruction further.
pub open spec fn advance(c: Config) -> Config {
    Config { pcs: c.pcs.update(c.pcs.len() - 1, (c.pcs.last() + 1) as usize), ..c }
}

#[verifier::opaque]
/// One step of the program: the state after it and what it reports. A step that reports
/// `Halted`, `NeedInput` or a fault leaves the state as it was.
pub open spec fn step(prog: Seq<Op>, c: Config) -> (Config, Action) {
    let code = frame_code(prog, c.pcs);
    let pc = c.pcs.last();
    let on_tape = c.idx < c.tape.len();
    if pc >= code.len() {
        if c.pcs.len() <= 1 {
            (c, Action::Halted)
        } else {
            // The body of a loop is done: back to the loop, which tests its cell again.
            (Config { pcs: c.pcs.drop_last(), ..c }, Action::Running)
        }
    } else {
        match code[pc as int] {
            Op::Lshift => if c.idx == 0 {
                (c, Action::Fault(Fault::HeadUnderflow))
            } else {
                (advance(Config { idx: (c.idx - 1) as usize, ..c }), Action::Running)
            },
            Op::Rshift => if c.idx == usize::MAX {
                (c, Action::Fault(Fault::HeadOverflow))
            } else {
                (advance(Config { idx: (c.idx + 1) as usize, ..c }), Action::Running)
            },
            Op::Inc => if !on_tape {
                (c, Action::Fault(Fault::OffTape))
            } else if c.tape[c.idx as int] == 255 {
                (c, Action::Fault(Fault::CellOverflow))
            } else {
                (
                    advance(Config { tape: c.tape.update(c.idx as int, (c.tape[c.idx as int] + 1) as u8), ..c }),
                    Action::Running,
                )
            },
            Op::Dec => if !on_tape {
                (c, Action::Fault(Fault::OffTape))
            } else if c.tape[c.idx as int] == 0 {
                (c, Action::Fault(Fault::CellUnderflow))
            } else {
                (
                    advance(Config { tape: c.tape.update(c.idx as int, (c.tape[c.idx as int] - 1) as u8), ..c }),
                    Action::Running,
                )
            },
            Op::Putc => if !on_tape {
                (c, Action::Fault(Fault::OffTape))
            } else {
                (advance(c), Action::Output(c.tape[c.idx as int]))
            },
            Op::Getc => if !on_tape {
                (c, Action::Fault(Fault::OffTape))
            } else {
                (c, Action::NeedInput)
            },
            Op::Loop(_) => if !on_tape {
                (c, Action::Fault(Fault::OffTape))
            } else if c.tape[c.idx as int] == 0 {
                (advance(c), Action::Running)
            } else {
                (Config { pcs: c.pcs.push(0), ..c }, Action::Running)
            },
        }
    }
}

/// Up to `fuel` steps of the program, stopping at the first step that reports anything
/// but `Running`; `Running` when all `fuel` steps were silent.
pub open spec fn run(prog: Seq<Op>, c: Config, fuel: nat) -> (Config, Action)
    decreases fuel,
{
    if fuel == 0 {
        (c, Action::Running)
    } else {
        let (next, act) = step(prog, c);
        if act is Running {
            run(prog, next, (fuel - 1) as nat)
        } else {
            (next, act)
        }
    }
}

/// The state after a byte of input is stored by the `,` the program waits at.
pub open spec fn accept_input(c: Config, byte: u8) -> Config {
    advance(Config { tape: c.tape.update(c.idx as int, byte), ..c })
}

/// The frames of a path depend only on the entries before them.
pub proof fn lemma_code_at_prefix(prog: Seq<Op>, a: Seq<usize>, b: Seq<usize>, k: nat)
    requires
        k <= a.len(),
        k <= b.len(),
        a.take(k as int) == b.take(k as int),
    ensures
        code_at(prog, a, k) == code_at(prog, b, k),
    decreases k,
{
    if k > 0 {
        assert(a.take(k - 1) =~= a.take(k as int).take(k - 1));
        assert(b.take(k - 1) =~= b.take(k as int).take(k - 1));
        lemma_code_at_prefix(prog, a, b, (k - 1) as nat);
        assert(a[k - 1] == a.take(k as int)[k - 1]);
        assert(b[k - 1] == b.take(k as int)[k - 1]);
    }
}

/// The state of a context and a position.
pub open spec fn config(ctx: Context, pos: Position) -> Config {
    Config { tape: ctx.tape@, idx: ctx.idx, pcs: pos@ }
}

/// Where the interpreter is in a program: the path of instruction indexes through the
/// loops being run, innermost last.
pub struct Position {
    pcs: Vec<usize>,
}

impl View for Position {
    type V = Seq<usize>;

    closed spec fn view(&self) -> Seq<usize> {
        self.pcs@
    }
}

impl Position {
    /// The position before a program's first instruction.
    pub fn start() -> (p: Position)
        ensures
            p@ == seq![0usize],
    {
        let mut pcs: Vec<usize> = Vec::new();
        pcs.push(0);
        let p = Position { pcs };
        assert(p@ =~= seq![0usize]);
        p
    }

    /// Whether this position is a place in `program`.
    pub fn fits(&self, program: &[OpCode]) -> (r: bool)
        ensures
            r == valid_position(ops_view(program@), self@),
    {
        let ghost prog = ops_view(program@);
        let ghost pcs = self.pcs@;
        let n = self.pcs.len();
        if n == 0 {
            return false;
        }
        let mut code: &[OpCode] = program;
        let mut k: usize = 0;
        while k + 1 < n
            invariant
                n == pcs.len(),
                pcs == self.pcs@,
                prog == ops_view(program@),
                k < n,
                ops_view(code@) == code_at(prog, pcs, k as nat),
                forall|j: int|
                    0 <= j < k ==> {
                        &&& (#[trigger] pcs[j]) < code_at(prog, pcs, j as nat).len()
                        &&& code_at(prog, pcs, j as nat)[pcs[j] as int] is Loop
                    },
            decreases n - k,
        {
            let i = self.pcs[k];
            match loop_body(code, i) {
                Some(body) => {
                    assert(code_at(prog, pcs, (k + 1) as nat) == ops_view(body@));
                    code = body;
                },
                None => {
                    assert(pcs[k as int] == i);
                    return false;
                },
            }
            k = k + 1;
        }
        len_of(code, self.pcs[n - 1])
    }
}

/// Whether `pc` is at most the length of `code`.
fn len_of(code: &[OpCode], pc: usize) -> (r: bool)
    ensures
        r == (pc <= ops_view(code@).len()),
{
    proof { crate::parser::lemma_ops_view_index(code@); }
    pc <= code.len()
}

/// The body of the loop at index `i` of `code`, if there is a loop there.
fn loop_body<'a>(code: &'a [OpCode], i: usize) -> (r: Option<&'a [OpCode]>)
    ensures
        ops_view(code@).len() == code@.len(),
        match r {
            Some(body) => i < code@.len() && ops_view(code@)[i as int] == Op::Loop(ops_view(body@)),
            None => !(i < code@.len() && ops_view(code@)[i as int] is Loop),
        },
{
    proof { crate::parser::lemma_ops_view_index(code@); }
    if i >= code.len() {
        return None;
    }
    match &code[i] {
        OpCode::Loop(body) => {
            assert(op_view(code@[i as int]) == Op::Loop(ops_view(body@)));
            Some(body.as_slice())
        },
        _ => None,
    }
}

/// The instructions of the innermost frame of a valid position.
fn frame<'a>(program: &'a [OpCode], pcs: &Vec<usize>) -> (code: &'a [OpCode])
    requires
        valid_position(ops_view(program@), pcs@),
    ensures
        ops_view(code@) == frame_code(ops_view(program@), pcs@),
{
    let ghost prog = ops_view(program@);
    let n = pcs.len();
    let mut code: &[OpCode] = program;
    let mut k: usize = 0;
    while k + 1 < n
        invariant
            n == pcs@.len(),
            valid_position(prog, pcs@),
            prog == ops_view(program@),
            k < n,
            ops_view(code@) == code_at(prog, pcs@, k as nat),
        decreases n - k,
    {
        let i = pcs[k];
        assert(i < code_at(prog, pcs@, k as nat).len());
        match loop_body(code, i) {
            Some(body) => {
                assert(code_at(prog, pcs@, (k + 1) as nat) == ops_view(body@));
                code = body;
            },
            None => {
                assert(false);
            },
        }
        k = k + 1;
    }
    code
}

/// Two paths that agree on their first `m` entries agree on their first `m + 1` frames.
pub proof fn lemma_frames_agree(prog: Seq<Op>, a: Seq<usize>, b: Seq<usize>, m: nat)
    requires
        m <= a.len(),
        m <= b.len(),
        a.take(m as int) == b.take(m as int),
    ensures
        forall|k: int| 0 <= k <= m ==> #[trigger] code_at(prog, a, k as nat) == code_at(prog, b, k as nat),
        forall|k: int| 0 <= k < m ==> #[trigger] a[k] == b[k],
{
    assert forall|k: int| 0 <= k <= m implies #[trigger] code_at(prog, a, k as nat) == code_at(
        prog,
        b,
        k as nat,
    ) by {
        assert(a.take(k) =~= a.take(m as int).take(k));
        assert(b.take(k) =~= b.take(m as int).take(k));
        lemma_code_at_prefix(prog, a, b, k as nat);
    }
    assert forall|k: int| 0 <= k < m implies #[trigger] a[k] == b[k] by {
        assert(a[k] == a.take(m as int)[k]);
        assert(b[k] == b.take(m as int)[k]);
    }
}

/// Moving on to the next instruction of the innermost frame keeps a position valid.
pub proof fn lemma_valid_advance(prog: Seq<Op>, pcs: Seq<usize>)
    requires
        valid_position(prog, pcs),
        pcs.last() < frame_code(prog, pcs).len(),
    ensures
        valid_position(prog, pcs.update(pcs.len() - 1, (pcs.last() + 1) as usize)),
        frame_code(prog, pcs.update(pcs.len() - 1, (pcs.last() + 1) as usize)) == frame_code(prog, pcs),
{
    let next = pcs.update(pcs.len() - 1, (pcs.last() + 1) as usize);
    let m = (pcs.len() - 1) as nat;
    assert(next.take(m as int) =~= pcs.take(m as int));
    lemma_frames_agree(prog, next, pcs, m);
}

/// Entering the body of the loop the innermost position points at keeps a position valid.
pub proof fn lemma_valid_enter(prog: Seq<Op>, pcs: Seq<usize>)
    requires
        valid_position(prog, pcs),
        pcs.last() < frame_code(prog, pcs).len(),
        frame_code(prog, pcs)[pcs.last() as int] is Loop,
    ensures
        valid_position(prog, pcs.push(0)),
{
    let next = pcs.push(0);
    assert(next.take(pcs.len() as int) =~= pcs.take(pcs.len() as int));
    lemma_frames_agree(prog, next, pcs, pcs.len());
}

/// Leaving a finished loop body keeps a position valid.
pub proof fn lemma_valid_leave(prog: Seq<Op>, pcs: Seq<usize>)
    requires
        valid_position(prog, pcs),
        pcs.len() >= 2,
    ensures
        valid_position(prog, pcs.drop_last()),
{
    let next = pcs.drop_last();
    assert(next.take(next.len() as int) =~= pcs.take(next.len() as int));
    lemma_frames_agree(prog, next, pcs, next.len());
    assert(pcs[next.len() - 1] < code_at(prog, pcs, (next.len() - 1) as nat).len());
}

/// Every step keeps the position a valid place in the program.
pub proof fn lemma_step_valid(prog: Seq<Op>, c: Config)
    requires
        valid_position(prog, c.pcs),
    ensures
        valid_position(prog, step(prog, c).0.pcs),
{
    reveal(step);
    let code = frame_code(prog, c.pcs);
    let pc = c.pcs.last();
    if pc >= code.len() {
        if c.pcs.len() > 1 {
            lemma_valid_leave(prog, c.pcs);
        }
    } else {
        lemma_valid_advance(prog, c.pcs);
        if code[pc as int] is Loop {
            lemma_valid_enter(prog, c.pcs);
        }
    }
}

/// Moves the innermost position of `pos` one instruction on.
fn advance_pc(pos: &mut Position)
    requires
        old(pos)@.len() >= 1,
        old(pos)@.last() < usize::MAX,
    ensures
        final(pos)@ == old(pos)@.update(old(pos)@.len() - 1, (old(pos)@.last() + 1) as usize),
{
    let n = pos.pcs.len();
    let pc = pos.pcs[n - 1];
    pos.pcs.set(n - 1, pc + 1);
}

/// Takes one step of the program.
fn step_once(program: &[OpCode], ctx: &mut Context, pos: &mut Position) -> (act: Action)
    requires
        valid_position(ops_view(program@), old(pos)@),
    ensures
        (config(*final(ctx), *final(pos)), act) == step(ops_view(program@), config(*old(ctx), *old(pos))),
{
    let ghost prog = ops_view(program@);
    let ghost c = config(*ctx, *pos);
    proof { reveal(step); }
    let code = frame(program, &pos.pcs);
    proof { crate::parser::lemma_ops_view_index(code@); }
    let n = pos.pcs.len();
    let pc = pos.pcs[n - 1];
    if pc >= code.len() {
        if n <= 1 {
            return Action::Halted;
        }
        pos.pcs.pop();
        assert(config(*ctx, *pos) =~= step(prog, c).0);
        return Action::Running;
    }
    let idx = ctx.idx;
    let on_tape = idx < ctx.tape.len();
    let act = match &code[pc] {
        OpCode::Lshift => {
            assert(frame_code(prog, c.pcs)[pc as int] == Op::Lshift);
            if idx == 0 {
                Action::Fault(Fault::HeadUnderflow)
            } else {
                ctx.idx = idx - 1;
                advance_pc(pos);
                Action::Running
            }
        },
        OpCode::Rshift => {
            assert(frame_code(prog, c.pcs)[pc as int] == Op::Rshift);
            if idx == usize::MAX {
                Action::Fault(Fault::HeadOverflow)
            } else {
                ctx.idx = idx + 1;
                advance_pc(pos);
                Action::Running
            }
        },
        OpCode::Inc => {
            assert(frame_code(prog, c.pcs)[pc as int] == Op::Inc);
            if !on_tape {
                Action::Fault(Fault::OffTape)
            } else if ctx.tape[idx] == 255 {
                Action::Fault(Fault::CellOverflow)
            } else {
                let v = ctx.tape[idx];
                ctx.tape.set(idx, v + 1);
                advance_pc(pos);
                Action::Running
            }
        },
        OpCode::Dec => {
            assert(frame_code(prog, c.pcs)[pc as int] == Op::Dec);
            if !on_tape {
                Action::Fault(Fault::OffTape)
            } else if ctx.tape[idx] == 0 {
                Action::Fault(Fault::CellUnderflow)
            } else {
                let v = ctx.tape[idx];
                ctx.tape.set(idx, v - 1);
                advance_pc(pos);
                Action::Running
            }
        },
        OpCode::Putc => {
            assert(frame_code(prog, c.pcs)[pc as int] == Op::Putc);
            if !on_tape {
                Action::Fault(Fault::OffTape)
            } else {
                let v = ctx.tape[idx];
                advance_pc(pos);
                Action::Output(v)
            }
        },
        OpCode::Getc => {
            assert(frame_code(prog, c.pcs)[pc as int] == Op::Getc);
            if !on_tape {
                Action::Fault(Fault::OffTape)
            } else {
                Action::NeedInput
            }
        },
        OpCode::Loop(_) => {
            assert(frame_code(prog, c.pcs)[pc as int] is Loop);
            if !on_tape {
                Action::Fault(Fault::OffTape)
            } else if ctx.tape[idx] == 0 {
                advance_pc(pos);
                Action::Running
            } else {
                pos.pcs.push(0);
                Action::Running
            }
        },
    };
    assert(config(*ctx, *pos) =~= step(prog, c).0);
    act
}

/// Running with fuel left is one step, then either the rest of the run or the step's report.
proof fn lemma_run_unfold(prog: Seq<Op>, c: Config, fuel: nat)
    requires
        fuel > 0,
    ensures
        run(prog, c, fuel) == if step(prog, c).1 is Running {
            run(prog, step(prog, c).0, (fuel - 1) as nat)
        } else {
            step(prog, c)
        },
{
}

/// Runs `program` from `pos` on `ctx` for up to `fuel` steps. Stops early, after the step,
/// when a `.` writes a byte, and before the step when the program waits at a `,`, has
/// reached its end, or faults; reports `Running` when all steps were taken silently.
pub fn eval(program: &[OpCode], ctx: &mut Context, pos: &mut Position, fuel: usize) -> (act: Action)
    requires
        valid_position(ops_view(program@), old(pos)@),
    ensures
        valid_position(ops_view(program@), final(pos)@),
        (config(*final(ctx), *final(pos)), act) == run(ops_view(program@), config(*old(ctx), *old(pos)), fuel as nat),
{
    let ghost prog = ops_view(program@);
    let ghost c0 = config(*ctx, *pos);
    let mut left: usize = fuel;
    let mut result = Action::Running;
    while left > 0
        invariant_except_break
            run(prog, c0, fuel as nat) == run(prog, config(*ctx, *pos), left as nat),
            result == Action::Running,
        invariant
            valid_position(prog, pos@),
            prog == ops_view(program@),
        ensures
            (config(*ctx, *pos), result) == run(prog, c0, fuel as nat),
        decreases left,
    {
        let ghost c = config(*ctx, *pos);
        proof {
            lemma_step_valid(prog, c);
            lemma_run_unfold(prog, c, left as nat);
        }
        let act = step_once(program, ctx, pos);
        match act {
            Action::Running => {},
            _ => {
                result = act;
                break;
            },
        }
        left = left - 1;
    }
    result
}

/// Stores `byte` in the head's cell when the program waits at a `,`, and moves past the
/// `,`; returns whether it did. Otherwise nothing changes.
pub fn feed(program: &[OpCode], ctx: &mut Context, pos: &mut Position, byte: u8) -> (stored: bool)
    requires
        valid_position(ops_view(program@), old(pos)@),
    ensures
        valid_position(ops_view(program@), final(pos)@),
        stored == (step(ops_view(program@), config(*old(ctx), *old(pos))).1 == Action::NeedInput),
        config(*final(ctx), *final(pos)) == if stored {
            accept_input(config(*old(ctx), *old(pos)), byte)
        } else {
            config(*old(ctx), *old(pos))
        },
{
    let ghost prog = ops_view(program@);
    let ghost c = config(*ctx, *pos);
    proof { reveal(step); }
    let code = frame(program, &pos.pcs);
    proof { crate::parser::lemma_ops_view_index(code@); }
    let n = pos.pcs.len();
    let pc = pos.pcs[n - 1];
    if pc >= code.len() {
        return false;
    }
    match &code[pc] {
        OpCode::Getc => {
            assert(frame_code(prog, c.pcs)[pc as int] == Op::Getc);
            if ctx.idx >= ctx.tape.len() {
                return false;
            }
            let idx = ctx.idx;
            ctx.tape.set(idx, byte);
            proof { lemma_valid_advance(prog, pos@); }
            advance_pc(pos);
            assert(config(*ctx, *pos) =~= accept_input(c, byte));
            true
        },
        _ => {
            assert(!(frame_code(prog, c.pcs)[pc as int] is Getc));
            false
        },
    }
}

/// Running with fuel `a + b` is running with `a` and, when that stopped silently, going
/// on with `b`: running a program in several calls gives what one call gives.
pub proof fn lemma_run_split(prog: Seq<Op>, c: Config, a: nat, b: nat)
    ensures
        run(prog, c, a + b) == if run(prog, c, a).1 is Running {
            run(prog, run(prog, c, a).0, b)
        } else {
            run(prog, c, a)
        },
    decreases a,
{
    if a > 0 {
        lemma_run_unfold(prog, c, a);
        lemma_run_unfold(prog, c, a + b);
        if step(prog, c).1 is Running {
            lemma_run_split(prog, step(prog, c).0, (a - 1) as nat, b);
            assert((a - 1) as nat + b == (a + b - 1) as nat);
        }
    }
}

/// A step that halts, waits for input or faults leaves the state as it was.
proof fn lemma_step_stops_in_place(prog: Seq<Op>, c: Config)
    ensures
        step(prog, c).1 is Halted || step(prog, c).1 is NeedInput || step(prog, c).1 is Fault
            ==> step(prog, c).0 == c,
{
    reveal(step);
}

/// Once a run has halted, waits for input or has faulted, running again from where it
/// stopped reports the same thing and changes nothing.
pub proof fn lemma_run_stop_is_stable(prog: Seq<Op>, c: Config, fuel: nat, more: nat)
    requires
        run(prog, c, fuel).1 is Halted || run(prog, c, fuel).1 is NeedInput || run(
            prog,
            c,
            fuel,
        ).1 is Fault,
        more > 0,
    ensures
        run(prog, run(prog, c, fuel).0, more) == run(prog, c, fuel),
    decreases fuel,
{
    if fuel > 0 {
        lemma_run_unfold(prog, c, fuel);
        if step(prog, c).1 is Running {
            lemma_run_stop_is_stable(prog, step(prog, c).0, (fuel - 1) as nat, more);
        } else {
            lemma_step_stops_in_place(prog, c);
            lemma_run_unfold(prog, c, more);
        }
    }
}

/// An instruction of a sequence that reads input makes the sequence read input.
proof fn lemma_reads_input_of_index(ops: Seq<Op>, i: int)
    requires
        0 <= i < ops.len(),
        op_reads(ops[i]),
    ensures
        reads_input(ops),
    decreases ops.len(),
{
    if i < ops.len() - 1 {
        lemma_reads_input_of_index(ops.drop_last(), i);
    }
}

/// A frame of a valid position that reads input lies in a program that reads input.
proof fn lemma_frame_reads_input(prog: Seq<Op>, pcs: Seq<usize>, k: nat)
    requires
        valid_position(prog, pcs),
        k < pcs.len(),
        reads_input(code_at(prog, pcs, k)),
    ensures
        reads_input(prog),
    decreases k,
{
    if k > 0 {
        let parent = code_at(prog, pcs, (k - 1) as nat);
        let i = pcs[k - 1] as int;
        assert(i < parent.len() && parent[i] is Loop);
        lemma_reads_input_of_index(parent, i);
        lemma_frame_reads_input(prog, pcs, (k - 1) as nat);
    }
}

/// A program with no `,` never waits for input.
pub proof fn lemma_no_getc_never_waits(prog: Seq<Op>, c: Config, fuel: nat)
    requires
        valid_position(prog, c.pcs),
        !reads_input(prog),
    ensures
        !(run(prog, c, fuel).1 is NeedInput),
    decreases fuel,
{
    if fuel > 0 {
        lemma_run_unfold(prog, c, fuel);
        lemma_step_valid(prog, c);
        reveal(step);
        let code = frame_code(prog, c.pcs);
        let pc = c.pcs.last();
        if pc < code.len() && code[pc as int] is Getc {
            lemma_reads_input_of_index(code, pc as int);
            lemma_frame_reads_input(prog, c.pcs, (c.pcs.len() - 1) as nat);
        }
        if step(prog, c).1 is Running {
            lemma_no_getc_never_waits(prog, step(prog, c).0, (fuel - 1) as nat);
        }
    }
}

/// A state of a program `q`, seen as a state of `p + q` where `p` has `n` instructions:
/// the top-level entry of its path moves on by `n`.
pub open spec fn shifted(c: Config, n: nat) -> Config {
    Config { pcs: c.pcs.update(0, (c.pcs[0] + n) as usize), ..c }
}

/// A step's or run's result with its state shifted by `n`.
pub open spec fn lifted(r: (Config, Action), n: nat) -> (Config, Action) {
    (shifted(r.0, n), r.1)
}

/// A state of a loop's body, seen from the program whose top-level instruction `i` is the loop.
pub open spec fn nested(c: Config, i: usize) -> Config {
    Config { pcs: seq![i] + c.pcs, ..c }
}

/// The same tape and head, at the start of a program.
pub open spec fn restart(c: Config) -> Config {
    Config { pcs: seq![0usize], ..c }
}

/// The start of any program is a valid position.
pub proof fn lemma_start_valid(prog: Seq<Op>)
    ensures
        valid_position(prog, seq![0usize]),
{
    assert(frame_code(prog, seq![0usize]) == prog);
}

/// Below the top level, the frames of a path into `p` are the same in `p + q`.
proof fn lemma_code_at_joined_first(p: Seq<Op>, q: Seq<Op>, pcs: Seq<usize>, k: nat)
    requires
        1 <= k,
        1 <= pcs.len(),
        pcs[0] < p.len(),
    ensures
        code_at(p + q, pcs, k) == code_at(p, pcs, k),
    decreases k,
{
    if k > 1 {
        lemma_code_at_joined_first(p, q, pcs, (k - 1) as nat);
    } else {
        assert(code_at(p + q, pcs, 0) == p + q);
        assert(code_at(p, pcs, 0) == p);
        assert((p + q)[pcs[0] as int] == p[pcs[0] as int]);
    }
}

/// Below the top level, the frames of a path into `q` are those of the shifted path in `p + q`.
proof fn lemma_code_at_joined_second(p: Seq<Op>, q: Seq<Op>, pcs: Seq<usize>, k: nat)
    requires
        1 <= k <= pcs.len(),
        pcs[0] + p.len() <= usize::MAX,
    ensures
        code_at(p + q, pcs.update(0, (pcs[0] + p.len()) as usize), k) == code_at(q, pcs, k),
    decreases k,
{
    let s = pcs.update(0, (pcs[0] + p.len()) as usize);
    if k > 1 {
        lemma_code_at_joined_second(p, q, pcs, (k - 1) as nat);
        assert(s[k - 1] == pcs[k - 1]);
    } else {
        assert(code_at(p + q, s, 0) == p + q);
        assert(code_at(q, pcs, 0) == q);
        assert(s[0] == pcs[0] + p.len());
        let i = pcs[0] as int;
        if i < q.len() {
            assert((p + q)[p.len() + i] == q[i]);
        }
    }
}

/// The frames of a path into a loop's body, seen from the program holding the loop.
proof fn lemma_code_at_nested(prog: Seq<Op>, body: Seq<Op>, i: usize, pcs: Seq<usize>, k: nat)
    requires
        i < prog.len(),
        prog[i as int] == Op::Loop(body),
        k <= pcs.len(),
    ensures
        code_at(prog, seq![i] + pcs, k + 1) == code_at(body, pcs, k),
    decreases k,
{
    let n = seq![i] + pcs;
    if k > 0 {
        lemma_code_at_nested(prog, body, i, pcs, (k - 1) as nat);
        assert(n[k as int] == pcs[k - 1]);
    } else {
        assert(code_at(prog, n, 0) == prog);
        assert(n[0] == i);
    }
}

/// Until `p` reaches its end, a step of `p + q` is a step of `p`.
pub proof fn lemma_step_joined_first(p: Seq<Op>, q: Seq<Op>, c: Config)
    requires
        valid_position(p, c.pcs),
        !(step(p, c).1 is Halted),
    ensures
        step(p + q, c) == step(p, c),
{
    reveal(step);
    let n = c.pcs.len();
    if n >= 2 {
        assert(c.pcs[0] < code_at(p, c.pcs, 0).len());
        lemma_code_at_joined_first(p, q, c.pcs, (n - 1) as nat);
    } else {
        let pc = c.pcs.last() as int;
        assert(pc < p.len());
        assert((p + q)[pc] == p[pc]);
    }
}

/// A step of `q` is, shifted past the instructions of `p`, a step of `p + q`.
pub proof fn lemma_step_joined_second(p: Seq<Op>, q: Seq<Op>, c: Config)
    requires
        valid_position(q, c.pcs),
        p.len() + q.len() <= usize::MAX,
    ensures
        step(p + q, shifted(c, p.len())) == lifted(step(q, c), p.len()),
{
    reveal(step);
    let s = shifted(c, p.len());
    let n = c.pcs.len();
    let pc = c.pcs.last();
    assert(c.pcs[0] <= code_at(q, c.pcs, 0).len()) by {
        if n >= 2 {
            assert(c.pcs[0] < code_at(q, c.pcs, 0).len());
        }
    }
    if n >= 2 {
        lemma_code_at_joined_second(p, q, c.pcs, (n - 1) as nat);
        assert(s.pcs.last() == pc);
        assert(s.pcs.drop_last() =~= c.pcs.drop_last().update(0, (c.pcs[0] + p.len()) as usize));
    } else {
        if pc < q.len() {
            assert((p + q)[p.len() + pc] == q[pc as int]);
        }
    }
    if pc < frame_code(q, c.pcs).len() {
        assert(s.pcs.update(n - 1, (s.pcs.last() + 1) as usize) =~= c.pcs.update(
            n - 1,
            (pc + 1) as usize,
        ).update(0, (c.pcs.update(n - 1, (pc + 1) as usize)[0] + p.len()) as usize));
        assert(s.pcs.push(0) =~= c.pcs.push(0).update(0, (c.pcs[0] + p.len()) as usize));
    }
}

/// A step of a loop's body that does not end the body, seen from the program holding the
/// loop, is the same step; at the end of the body the program goes back to the loop.
pub proof fn lemma_step_nested(prog: Seq<Op>, body: Seq<Op>, i: usize, c: Config)
    requires
        valid_position(body, c.pcs),
        i < prog.len(),
        prog[i as int] == Op::Loop(body),
        body.len() <= usize::MAX,
    ensures
        !(step(body, c).1 is Halted) ==> step(prog, nested(c, i)) == (
            nested(step(body, c).0, i),
            step(body, c).1,
        ),
        c.pcs == seq![body.len() as usize] ==> step(prog, nested(c, i)) == (
            Config { pcs: seq![i], ..c },
            Action::Running,
        ),
{
    reveal(step);
    let n = c.pcs.len();
    let m = seq![i] + c.pcs;
    let pc = c.pcs.last();
    lemma_code_at_nested(prog, body, i, c.pcs, (n - 1) as nat);
    assert(m.len() == n + 1);
    assert(m.last() == pc);
    assert(frame_code(prog, m) == frame_code(body, c.pcs));
    assert(m.drop_last() =~= seq![i] + c.pcs.drop_last());
    assert(m.update(n as int, (pc + 1) as usize) =~= seq![i] + c.pcs.update(n - 1, (pc + 1) as usize));
    assert(m.push(0) =~= seq![i] + c.pcs.push(0));
    if c.pcs == seq![body.len() as usize] {
        assert(m.drop_last() =~= seq![i]);
        assert(frame_code(body, c.pcs) == body);
        assert(Config { pcs: m.drop_last(), ..nested(c, i) } == Config { pcs: seq![i], ..c });
    }
}

/// Until `p` stops, a run of `p + q` is a run of `p`.
proof fn lemma_run_joined_first(p: Seq<Op>, q: Seq<Op>, c: Config, fuel: nat)
    requires
        valid_position(p, c.pcs),
        !(run(p, c, fuel).1 is Halted),
    ensures
        run(p + q, c, fuel) == run(p, c, fuel),
    decreases fuel,
{
    if fuel > 0 {
        lemma_run_unfold(p, c, fuel);
        lemma_run_unfold(p + q, c, fuel);
        lemma_step_joined_first(p, q, c);
        if step(p, c).1 is Running {
            lemma_step_valid(p, c);
            lemma_run_joined_first(p, q, step(p, c).0, (fuel - 1) as nat);
        }
    }
}

/// A run of `q`, shifted past the instructions of `p`, is a run of `p + q`.
proof fn lemma_run_joined_second(p: Seq<Op>, q: Seq<Op>, c: Config, fuel: nat)
    requires
        valid_position(q, c.pcs),
        p.len() + q.len() <= usize::MAX,
    ensures
        run(p + q, shifted(c, p.len()), fuel) == lifted(run(q, c, fuel), p.len()),
    decreases fuel,
{
    if fuel > 0 {
        lemma_run_unfold(q, c, fuel);
        lemma_run_unfold(p + q, shifted(c, p.len()), fuel);
        lemma_step_joined_second(p, q, c);
        if step(q, c).1 is Running {
            lemma_step_valid(q, c);
            lemma_run_joined_second(p, q, step(q, c).0, (fuel - 1) as nat);
        }
    }
}

/// Running `p + q` is running `p` and then `q`. Until `p` stops, the joined program runs
/// exactly as `p` does, with the same reports, tape and head. Once `p` has reached its end
/// in `a` silent steps, the next `b` steps of the joined program are the first `b` steps of
/// `q` started on the tape and head that `p` left, with `q`'s positions moved past `p`.
pub proof fn lemma_run_joined(p: Seq<Op>, q: Seq<Op>, c: Config, a: nat, b: nat)
    requires
        valid_position(p, c.pcs),
        p.len() + q.len() <= usize::MAX,
    ensures
        !(run(p, c, a).1 is Halted) ==> run(p + q, c, a) == run(p, c, a),
        run(p, c, a).1 is Running && run(p, c, a).0.pcs == seq![p.len() as usize] ==> run(
            p + q,
            c,
            a + b,
        ) == lifted(run(q, restart(run(p, c, a).0), b), p.len()),
{
    if !(run(p, c, a).1 is Halted) {
        lemma_run_joined_first(p, q, c, a);
    }
    if run(p, c, a).1 is Running && run(p, c, a).0.pcs == seq![p.len() as usize] {
        let mid = run(p, c, a).0;
        lemma_run_split(p + q, c, a, b);
        assert(shifted(restart(mid), p.len()) =~= mid);
        lemma_start_valid(q);
        lemma_run_joined_second(p, q, restart(mid), b);
    }
}

/// Until a loop's body stops, running the body inside the loop is running the body alone.
proof fn lemma_run_nested(prog: Seq<Op>, body: Seq<Op>, i: usize, c: Config, fuel: nat)
    requires
        valid_position(body, c.pcs),
        i < prog.len(),
        prog[i as int] == Op::Loop(body),
        body.len() <= usize::MAX,
        !(run(body, c, fuel).1 is Halted),
    ensures
        run(prog, nested(c, i), fuel) == (nested(run(body, c, fuel).0, i), run(body, c, fuel).1),
    decreases fuel,
{
    if fuel > 0 {
        lemma_run_unfold(body, c, fuel);
        lemma_run_unfold(prog, nested(c, i), fuel);
        lemma_step_nested(prog, body, i, c);
        if step(body, c).1 is Running {
            lemma_step_valid(body, c);
            lemma_run_nested(prog, body, i, step(body, c).0, (fuel - 1) as nat);
        }
    }
}

/// A loop whose head cell is zero is skipped: the program made of that loop alone halts
/// with the tape and head as they were, reporting nothing else.
pub proof fn lemma_run_loop_skipped(body: Seq<Op>, c: Config, fuel: nat)
    requires
        c.pcs == seq![0usize],
        c.idx < c.tape.len(),
        c.tape[c.idx as int] == 0,
        fuel >= 2,
    ensures
        run(seq![Op::Loop(body)], c, fuel) == (Config { pcs: seq![1usize], ..c }, Action::Halted),
{
    reveal(step);
    let prog = seq![Op::Loop(body)];
    lemma_run_unfold(prog, c, fuel);
    assert(frame_code(prog, c.pcs) == prog);
    let c1 = Config { pcs: seq![1usize], ..c };
    assert(step(prog, c).0 =~= c1);
    assert(frame_code(prog, c1.pcs) == prog);
    lemma_run_unfold(prog, c1, (fuel - 1) as nat);
}

/// A loop whose head cell is not zero runs as its body followed by the loop again. The
/// program made of the loop alone enters the body in one step, then runs exactly as the
/// body does; once the body has reached its end in `a` silent steps, one more step takes it
/// back to the loop on the tape and head the body left. The program `body` followed by the
/// loop runs exactly as the body does, and then as the loop from that same tape and head,
/// with positions moved past the body.
pub proof fn lemma_run_loop_unrolled(body: Seq<Op>, c: Config, a: nat, f: nat)
    requires
        c.pcs == seq![0usize],
        c.idx < c.tape.len(),
        c.tape[c.idx as int] != 0,
        body.len() + 1 <= usize::MAX,
    ensures
        step(seq![Op::Loop(body)], c) == (nested(c, 0), Action::Running),
        !(run(body, c, a).1 is Halted) ==> {
            &&& run(seq![Op::Loop(body)], c, a + 1) == (nested(run(body, c, a).0, 0), run(body, c, a).1)
            &&& run(body.push(Op::Loop(body)), c, a) == run(body, c, a)
        },
        run(body, c, a).1 is Running && run(body, c, a).0.pcs == seq![body.len() as usize] ==> {
            &&& run(seq![Op::Loop(body)], c, a + 2 + f) == run(
                seq![Op::Loop(body)],
                restart(run(body, c, a).0),
                f,
            )
            &&& run(body.push(Op::Loop(body)), c, a + f) == lifted(
                run(seq![Op::Loop(body)], restart(run(body, c, a).0), f),
                body.len(),
            )
        },
{
    let prog = seq![Op::Loop(body)];
    assert(body.push(Op::Loop(body)) =~= body + prog);
    assert(step(prog, c) == (nested(c, 0), Action::Running)) by {
        reveal(step);
        assert(frame_code(prog, c.pcs) == prog);
        assert(c.pcs.push(0) =~= seq![0usize] + c.pcs);
    }
    lemma_start_valid(body);
    lemma_run_joined(body, prog, c, a, f);
    lemma_run_unfold(prog, c, a + 1);
    if !(run(body, c, a).1 is Halted) {
        lemma_run_nested(prog, body, 0, c, a);
    }
    if run(body, c, a).1 is Running && run(body, c, a).0.pcs == seq![body.len() as usize] {
        let mid = run(body, c, a).0;
        lemma_run_nested(prog, body, 0, c, a);
        lemma_run_split(prog, c, a + 1, 1 + f);
        assert((a + 1) + (1 + f) == a + 2 + f);
        lemma_step_nested(prog, body, 0, mid);
        assert(Config { pcs: seq![0usize], ..mid } == restart(mid));
        lemma_run_unfold(prog, nested(mid, 0), 1 + f);
    }
}

/// Pairs of instructions that undo each other: `+-`, `-+`, `<>` and `><`.
pub open spec fn cancelling(a: Op, b: Op) -> bool {
    ||| a is Inc && b is Dec
    ||| a is Dec && b is Inc
    ||| a is Lshift && b is Rshift
    ||| a is Rshift && b is Lshift
}

/// Each of `+-`, `-+`, `<>` and `><`, when its first step does not fault, runs to its end
/// and halts with the tape and head as they were, reporting nothing else.
pub proof fn lemma_cancelling_pair(a: Op, b: Op, c: Config, fuel: nat)
    requires
        cancelling(a, b),
        c.pcs == seq![0usize],
        !(step(seq![a, b], c).1 is Fault),
        fuel >= 3,
    ensures
        run(seq![a, b], c, fuel) == (Config { pcs: seq![2usize], ..c }, Action::Halted),
{
    reveal(step);
    let prog = seq![a, b];
    assert(frame_code(prog, c.pcs) == prog);
    lemma_run_unfold(prog, c, fuel);
    let c1 = step(prog, c).0;
    assert(c1.pcs =~= seq![1usize]);
    assert(frame_code(prog, c1.pcs) == prog);
    lemma_run_unfold(prog, c1, (fuel - 1) as nat);
    let c2 = step(prog, c1).0;
    assert(c2 =~= Config { pcs: seq![2usize], ..c });
    assert(frame_code(prog, c2.pcs) == prog);
    lemma_run_unfold(prog, c2, (fuel - 2) as nat);
}

/// Storing input at the `,` a program waits at keeps its position valid.
pub proof fn lemma_accept_input_valid(prog: Seq<Op>, c: Config, byte: u8)
    requires
        valid_position(prog, c.pcs),
        step(prog, c).1 is NeedInput,
    ensures
        valid_position(prog, accept_input(c, byte).pcs),
{
    reveal(step);
    lemma_valid_advance(prog, c.pcs);
}

/// Storing input commutes with moving a state of `q` past the instructions of `p`.
pub proof fn lemma_accept_input_shifted(p: Seq<Op>, q: Seq<Op>, c: Config, byte: u8)
    requires
        valid_position(q, c.pcs),
        step(q, c).1 is NeedInput,
        p.len() + q.len() <= usize::MAX,
    ensures
        accept_input(shifted(c, p.len()), byte) == shifted(accept_input(c, byte), p.len()),
{
    reveal(step);
    lemma_step_joined_second(p, q, c);
    let n = c.pcs.len();
    let pc = c.pcs.last();
    assert(c.pcs[0] <= code_at(q, c.pcs, 0).len()) by {
        if n >= 2 {
            assert(c.pcs[0] < code_at(q, c.pcs, 0).len());
        }
    }
    let s = shifted(c, p.len()).pcs;
    assert(s.update(n - 1, (s.last() + 1) as usize) =~= c.pcs.update(n - 1, (pc + 1) as usize).update(
        0,
        (c.pcs.update(n - 1, (pc + 1) as usize)[0] + p.len()) as usize,
    ));
    assert(accept_input(shifted(c, p.len()), byte) =~= shifted(accept_input(c, byte), p.len()));
}

} // verus!
