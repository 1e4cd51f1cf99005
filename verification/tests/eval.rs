use beef::context::{Context, TAPE_WIDTH};
use beef::eval::{eval, feed, Action, Fault, Position};
use beef::parser::{parse_file, OpCode};

fn run_with(src: &str, input: &[u8], fuel: usize) -> (Vec<u8>, Action, Context) {
    let program = parse_file(src.as_bytes()).unwrap();
    let mut ctx = Context::new();
    let mut pos = Position::start();
    assert!(pos.fits(&program));
    let mut out = Vec::new();
    let mut rest = input.iter();
    loop {
        match eval(&program, &mut ctx, &mut pos, fuel) {
            Action::Output(b) => out.push(b),
            Action::NeedInput => match rest.next() {
                Some(b) => assert!(feed(&program, &mut ctx, &mut pos, *b)),
                None => return (out, Action::NeedInput, ctx),
            },
            Action::Running => {}
            other => return (out, other, ctx),
        }
    }
}

#[test]
fn fresh_context() {
    let ctx = Context::new();
    assert_eq!(ctx.idx, 0);
    assert_eq!(ctx.tape.len(), TAPE_WIDTH);
    assert!(ctx.tape.iter().all(|&c| c == 0));
}

#[test]
fn hello_world() {
    let src = "++++++++[>++++[>++>+++>+++>+<<<<-]>+>+>->>+[<]<-]>>.>---.+++++++..+++.>>.<-.<.+++.------.--------.>>+.>++.";
    let (out, act, _) = run_with(src, b"", 100);
    assert_eq!(out, b"Hello World!\n".to_vec());
    assert_eq!(act, Action::Halted);
}

#[test]
fn chunk_size_does_not_matter() {
    let src = "++++++++[>++++[>++>+++>+++>+<<<<-]>+>+>->>+[<]<-]>>.>---.+++++++..+++.>>.<-.<.+++.------.--------.>>+.>++.";
    let (a, _, _) = run_with(src, b"", 1);
    let (b, _, _) = run_with(src, b"", 7);
    let (c, _, _) = run_with(src, b"", 1_000_000);
    assert_eq!(a, b);
    assert_eq!(b, c);
}

#[test]
fn echo_input() {
    let (out, act, _) = run_with(",[.,]", b"abc", 10);
    assert_eq!(out, b"abc".to_vec());
    assert_eq!(act, Action::NeedInput);
}

#[test]
fn input_is_stored_in_cell() {
    let (out, act, ctx) = run_with(",+.", b"A", 10);
    assert_eq!(out, b"B".to_vec());
    assert_eq!(act, Action::Halted);
    assert_eq!(ctx.tape[0], b'B');
}

#[test]
fn zero_cell_skips_loop() {
    let (out, act, ctx) = run_with("[+.]+", b"", 10);
    assert_eq!(out, Vec::<u8>::new());
    assert_eq!(act, Action::Halted);
    assert_eq!(ctx.tape[0], 1);
}

#[test]
fn loop_runs_while_cell_nonzero() {
    let (_, act, ctx) = run_with("+++[>++<-]", b"", 10);
    assert_eq!(act, Action::Halted);
    assert_eq!(ctx.tape[0], 0);
    assert_eq!(ctx.tape[1], 6);
    assert_eq!(ctx.idx, 0);
}

#[test]
fn faults() {
    assert_eq!(run_with("<", b"", 10).1, Action::Fault(Fault::HeadUnderflow));
    assert_eq!(run_with("-", b"", 10).1, Action::Fault(Fault::CellUnderflow));
    let mut src = String::new();
    for _ in 0..256 {
        src.push('+');
    }
    let (_, act, ctx) = run_with(&src, b"", 1000);
    assert_eq!(act, Action::Fault(Fault::CellOverflow));
    assert_eq!(ctx.tape[0], 255);
}

#[test]
fn off_tape_faults() {
    let program = parse_file(b">+").unwrap();
    let mut ctx = Context { idx: 0, tape: vec![0] };
    let mut pos = Position::start();
    assert_eq!(eval(&program, &mut ctx, &mut pos, 10), Action::Fault(Fault::OffTape));
    assert_eq!(ctx.idx, 1);
    assert_eq!(ctx.tape, vec![0]);
}

#[test]
fn head_overflow_faults() {
    let program = parse_file(b">").unwrap();
    let mut ctx = Context { idx: usize::MAX, tape: vec![] };
    let mut pos = Position::start();
    assert_eq!(eval(&program, &mut ctx, &mut pos, 10), Action::Fault(Fault::HeadOverflow));
    assert_eq!(ctx.idx, usize::MAX);
}

#[test]
fn stopped_machine_stays_stopped() {
    let program = parse_file(b"+.<").unwrap();
    let mut ctx = Context::new();
    let mut pos = Position::start();
    assert_eq!(eval(&program, &mut ctx, &mut pos, 10), Action::Output(1));
    assert_eq!(eval(&program, &mut ctx, &mut pos, 10), Action::Fault(Fault::HeadUnderflow));
    assert_eq!(eval(&program, &mut ctx, &mut pos, 10), Action::Fault(Fault::HeadUnderflow));
    assert_eq!(ctx.tape[0], 1);

    let empty: Vec<OpCode> = Vec::new();
    let mut pos = Position::start();
    assert_eq!(eval(&empty, &mut ctx, &mut pos, 10), Action::Halted);
    assert_eq!(eval(&empty, &mut ctx, &mut pos, 10), Action::Halted);
}

#[test]
fn fuel_bounds_the_steps() {
    let program = parse_file(b"+[]").unwrap();
    let mut ctx = Context::new();
    let mut pos = Position::start();
    assert_eq!(eval(&program, &mut ctx, &mut pos, 0), Action::Running);
    assert_eq!(ctx.tape[0], 0);
    assert_eq!(eval(&program, &mut ctx, &mut pos, 1), Action::Running);
    assert_eq!(ctx.tape[0], 1);
    // An empty loop on a nonzero cell runs forever.
    assert_eq!(eval(&program, &mut ctx, &mut pos, 10_000), Action::Running);
}

#[test]
fn feed_only_at_getc() {
    let program = parse_file(b"+,").unwrap();
    let mut ctx = Context::new();
    let mut pos = Position::start();
    assert!(!feed(&program, &mut ctx, &mut pos, 7));
    assert_eq!(ctx.tape[0], 0);
    assert_eq!(eval(&program, &mut ctx, &mut pos, 10), Action::NeedInput);
    assert_eq!(eval(&program, &mut ctx, &mut pos, 10), Action::NeedInput);
    assert!(feed(&program, &mut ctx, &mut pos, 7));
    assert_eq!(ctx.tape[0], 7);
    assert_eq!(eval(&program, &mut ctx, &mut pos, 10), Action::Halted);
}

#[test]
fn program_without_getc_never_waits() {
    let (_, act, _) = run_with("+[->+<]>.", b"", 3);
    assert_eq!(act, Action::Halted);
}

#[test]
fn position_fits() {
    let program = parse_file(b"+").unwrap();
    assert!(Position::start().fits(&program));
    assert!(Position::start().fits(&[]));
}

/// Runs `program` from its start on `ctx`, reading from `input` and appending to `out`.
fn run_on(program: &[OpCode], ctx: &mut Context, input: &mut std::slice::Iter<u8>, out: &mut Vec<u8>) -> Action {
    let mut pos = Position::start();
    loop {
        match eval(program, ctx, &mut pos, 5) {
            Action::Output(b) => out.push(b),
            Action::NeedInput => match input.next() {
                Some(b) => assert!(feed(program, ctx, &mut pos, *b)),
                None => return Action::NeedInput,
            },
            Action::Running => {}
            other => return other,
        }
    }
}

#[test]
fn joined_program_runs_its_parts_in_turn() {
    let p = parse_file(b",+.>,").unwrap();
    let q = parse_file(b"[->++<]>.").unwrap();
    let mut joined = parse_file(b",+.>,").unwrap();
    joined.extend(parse_file(b"[->++<]>.").unwrap());
    let input = b"AB";

    let mut ctx_a = Context::new();
    let mut out_a = Vec::new();
    let act_a = run_on(&joined, &mut ctx_a, &mut input.iter(), &mut out_a);

    let mut ctx_b = Context::new();
    let mut out_b = Vec::new();
    let mut rest = input.iter();
    assert_eq!(run_on(&p, &mut ctx_b, &mut rest, &mut out_b), Action::Halted);
    let act_b = run_on(&q, &mut ctx_b, &mut rest, &mut out_b);

    assert_eq!(act_a, Action::Halted);
    assert_eq!(act_a, act_b);
    assert_eq!(out_a, vec![b'B', 132]);
    assert_eq!(out_a, out_b);
    assert_eq!(ctx_a.idx, ctx_b.idx);
    assert_eq!(ctx_a.tape, ctx_b.tape);
}

#[test]
fn loop_with_nonzero_cell_unrolls() {
    let looped = parse_file(b"[->+.<]").unwrap();
    let unrolled = parse_file(b"->+.<[->+.<]").unwrap();
    let mut ctx_a = Context::new();
    ctx_a.tape[0] = 3;
    let mut ctx_b = Context::new();
    ctx_b.tape[0] = 3;
    let (mut out_a, mut out_b) = (Vec::new(), Vec::new());
    let act_a = run_on(&looped, &mut ctx_a, &mut [].iter(), &mut out_a);
    let act_b = run_on(&unrolled, &mut ctx_b, &mut [].iter(), &mut out_b);
    assert_eq!(act_a, Action::Halted);
    assert_eq!(act_a, act_b);
    assert_eq!(out_a, vec![1, 2, 3]);
    assert_eq!(out_a, out_b);
    assert_eq!(ctx_a.idx, ctx_b.idx);
    assert_eq!(ctx_a.tape, ctx_b.tape);
}

#[test]
fn loop_with_zero_cell_is_skipped() {
    let program = parse_file(b"[+.,]").unwrap();
    let mut ctx = Context::new();
    ctx.idx = 4;
    let mut out = Vec::new();
    assert_eq!(run_on(&program, &mut ctx, &mut b"x".iter(), &mut out), Action::Halted);
    assert!(out.is_empty());
    assert_eq!(ctx.idx, 4);
    assert!(ctx.tape.iter().all(|&c| c == 0));
}

#[test]
fn cancelling_pairs_change_nothing() {
    for src in ["+-", "-+", "<>", "><"] {
        let program = parse_file(src.as_bytes()).unwrap();
        let mut ctx = Context::new();
        ctx.idx = 5;
        ctx.tape[5] = 7;
        let mut out = Vec::new();
        assert_eq!(run_on(&program, &mut ctx, &mut [].iter(), &mut out), Action::Halted);
        assert!(out.is_empty());
        assert_eq!(ctx.idx, 5);
        assert_eq!(ctx.tape[5], 7);
        assert!(ctx.tape.iter().enumerate().all(|(i, &c)| i == 5 || c == 0));
    }
}
