use vstd::prelude::*;

verus! {

/// One instruction of a parsed program. `Loop` holds the body of a bracketed loop.
#[derive(Debug, PartialEq, Eq)]
pub enum OpCode {
    Lshift,
    Rshift,
    Putc,
    Getc,
    Inc,
    Dec,
    Loop(Vec<OpCode>),
}

/// A parsed program: the instructions at the top level, in order.
pub type Program = Vec<OpCode>;

/// The mathematical model of an instruction.
pub enum Op {
    Lshift,
    Rshift,
    Putc,
    Getc,
    Inc,
    Dec,
    Loop(Seq<Op>),
}

/// The model of an instruction.
pub open spec fn op_view(op: OpCode) -> Op
    decreases op, 0int,
{
    match op {
        OpCode::Lshift => Op::Lshift,
        OpCode::Rshift => Op::Rshift,
        OpCode::Putc => Op::Putc,
        OpCode::Getc => Op::Getc,
        OpCode::Inc => Op::Inc,
        OpCode::Dec => Op::Dec,
        OpCode::Loop(body) => Op::Loop(ops_view(body@)),
    }
}

/// The model of a sequence of instructions.
pub open spec fn ops_view(ops: Seq<OpCode>) -> Seq<Op>
    decreases ops, 1int,
{
    if ops.len() == 0 {
        Seq::empty()
    } else {
        ops_view(ops.drop_last()).push(op_view(ops.last()))
    }
}

impl View for OpCode {
    type V = Op;

    open spec fn view(&self) -> Op {
        op_view(*self)
    }
}


/// Byte values of the eight command characters.
pub const LSHIFT_CHAR: u8 = 60;
pub const RSHIFT_CHAR: u8 = 62;
pub const PUTC_CHAR: u8 = 46;
pub const GETC_CHAR: u8 = 44;
pub const INC_CHAR: u8 = 43;
pub const DEC_CHAR: u8 = 45;
pub const OPEN_CHAR: u8 = 91;
pub const CLOSE_CHAR: u8 = 93;

/// The instruction a non-bracket command character stands for; `None` for any other byte.
pub open spec fn simple_op(c: u8) -> Option<Op> {
    if c == LSHIFT_CHAR {
        Some(Op::Lshift)
    } else if c == RSHIFT_CHAR {
        Some(Op::Rshift)
    } else if c == PUTC_CHAR {
        Some(Op::Putc)
    } else if c == GETC_CHAR {
        Some(Op::Getc)
    } else if c == INC_CHAR {
        Some(Op::Inc)
    } else if c == DEC_CHAR {
        Some(Op::Dec)
    } else {
        None
    }
}

/// Whether a byte is one of the eight command characters; every other byte is a comment.
pub open spec fn is_command(c: u8) -> bool {
    simple_op(c) is Some || c == OPEN_CHAR || c == CLOSE_CHAR
}

/// The command characters of a source text, in order, with every comment byte removed.
pub open spec fn commands(s: Seq<u8>) -> Seq<u8>
    decreases s.len(),
{
    if s.len() == 0 {
        s
    } else if is_command(s.last()) {
        commands(s.drop_last()).push(s.last())
    } else {
        commands(s.drop_last())
    }
}

/// Number of `[` minus number of `]` in a text.
pub open spec fn bracket_depth(s: Seq<u8>) -> int
    decreases s.len(),
{
    if s.len() == 0 {
        0
    } else if s.last() == OPEN_CHAR {
        bracket_depth(s.drop_last()) + 1
    } else if s.last() == CLOSE_CHAR {
        bracket_depth(s.drop_last()) - 1
    } else {
        bracket_depth(s.drop_last())
    }
}

/// Every `]` of the text closes a `[` that comes before it.
pub open spec fn closes_matched(s: Seq<u8>) -> bool {
    forall|i: int| 0 <= i <= s.len() ==> bracket_depth(#[trigger] s.take(i)) >= 0
}

/// Every bracket of the text has its partner.
pub open spec fn balanced(s: Seq<u8>) -> bool {
    closes_matched(s) && bracket_depth(s) == 0
}

/// The parser's state: the instructions gathered at the top level, followed by
/// the instructions gathered so far inside each `[` that is still open, innermost last.
pub open spec fn parse_step(stack: Seq<Seq<Op>>, c: u8) -> Seq<Seq<Op>> {
    if c == OPEN_CHAR {
        stack.push(Seq::empty())
    } else if c == CLOSE_CHAR {
        if stack.len() >= 2 {
            let rest = stack.drop_last();
            rest.update(rest.len() - 1, rest.last().push(Op::Loop(stack.last())))
        } else {
            stack
        }
    } else {
        match simple_op(c) {
            Some(op) => stack.update(stack.len() - 1, stack.last().push(op)),
            None => stack,
        }
    }
}

/// The parser's state after reading `s`, starting from `stack`.
pub open spec fn parse_from(stack: Seq<Seq<Op>>, s: Seq<u8>) -> Seq<Seq<Op>>
    decreases s.len(),
{
    if s.len() == 0 {
        stack
    } else {
        parse_step(parse_from(stack, s.drop_last()), s.last())
    }
}

/// The program a source text denotes: its top-level instructions once the whole
/// text is read. Instructions inside a `[` that is never closed are dropped.
pub open spec fn spec_parse(s: Seq<u8>) -> Seq<Op> {
    parse_from(seq![Seq::empty()], s)[0]
}

/// The source text of an instruction: its command character, with a loop's body between brackets.
pub open spec fn render_op(op: Op) -> Seq<u8>
    decreases op, 0int,
{
    match op {
        Op::Lshift => seq![LSHIFT_CHAR],
        Op::Rshift => seq![RSHIFT_CHAR],
        Op::Putc => seq![PUTC_CHAR],
        Op::Getc => seq![GETC_CHAR],
        Op::Inc => seq![INC_CHAR],
        Op::Dec => seq![DEC_CHAR],
        Op::Loop(body) => seq![OPEN_CHAR] + render(body) + seq![CLOSE_CHAR],
    }
}

/// The source text of a sequence of instructions.
pub open spec fn render(ops: Seq<Op>) -> Seq<u8>
    decreases ops, 1int,
{
    if ops.len() == 0 {
        Seq::empty()
    } else {
        render(ops.drop_last()) + render_op(ops.last())
    }
}

/// The model of a sequence has one instruction model per instruction, in order.
pub proof fn lemma_ops_view_index(ops: Seq<OpCode>)
    ensures
        ops_view(ops).len() == ops.len(),
        forall|i: int| 0 <= i < ops.len() ==> #[trigger] ops_view(ops)[i] == op_view(ops[i]),
    decreases ops.len(),
{
    if ops.len() > 0 {
        lemma_ops_view_index(ops.drop_last());
    }
}

/// The model of a prefix is the prefix of the model.
pub proof fn lemma_ops_view_prefix(ops: Seq<OpCode>, i: int)
    requires
        0 <= i <= ops.len(),
    ensures
        ops_view(ops.take(i)) == ops_view(ops).take(i),
{
    lemma_ops_view_index(ops);
    lemma_ops_view_index(ops.take(i));
    assert(ops_view(ops.take(i)) =~= ops_view(ops).take(i));
}

/// The model of a prefix one instruction longer.
pub proof fn lemma_ops_view_take(ops: Seq<OpCode>, i: int)
    requires
        0 <= i < ops.len(),
    ensures
        ops_view(ops.take(i + 1)) == ops_view(ops.take(i)).push(op_view(ops[i])),
{
    assert(ops.take(i + 1).drop_last() =~= ops.take(i));
}

/// The model of a joined sequence is the joined models.
pub proof fn lemma_ops_view_append(a: Seq<OpCode>, b: Seq<OpCode>)
    ensures
        ops_view(a + b) == ops_view(a) + ops_view(b),
{
    lemma_ops_view_index(a);
    lemma_ops_view_index(b);
    lemma_ops_view_index(a + b);
    assert(ops_view(a + b) =~= ops_view(a) + ops_view(b));
}

/// The models of a stack of instruction vectors.
pub open spec fn stack_view(stack: Seq<Vec<OpCode>>) -> Seq<Seq<Op>> {
    Seq::new(stack.len(), |i: int| ops_view(stack[i]@))
}

/// Whether some `]` of `source` has no `[` before it to close.
pub fn has_unmatched_close(source: &[u8]) -> (r: bool)
    ensures
        r == !closes_matched(source@),
{
    let mut depth: usize = 0;
    let mut i: usize = 0;
    assert(source@.take(0) =~= Seq::<u8>::empty());
    while i < source.len()
        invariant
            i <= source@.len(),
            depth == bracket_depth(source@.take(i as int)),
            depth <= i,
            forall|j: int| 0 <= j <= i ==> bracket_depth(#[trigger] source@.take(j)) >= 0,
        decreases source@.len() - i,
    {
        let c = source[i];
        assert(source@.take(i + 1).drop_last() =~= source@.take(i as int));
        if c == OPEN_CHAR {
            depth = depth + 1;
        } else if c == CLOSE_CHAR {
            if depth == 0 {
                assert(bracket_depth(source@.take(i + 1)) < 0);
                return true;
            }
            depth = depth - 1;
        }
        i = i + 1;
    }
    assert(source@.take(source@.len() as int) =~= source@);
    false
}


/// Appends `op` to the innermost open instruction list of the parser's stack.
fn push_op(stack: &mut Vec<Vec<OpCode>>, op: OpCode)
    requires
        old(stack)@.len() >= 1,
    ensures
        final(stack)@.len() == old(stack)@.len(),
        stack_view(final(stack)@) == stack_view(old(stack)@).update(
            old(stack)@.len() - 1,
            stack_view(old(stack)@).last().push(op_view(op)),
        ),
{
    let ghost before = stack@;
    let mut top = match stack.pop() {
        Some(t) => t,
        None => Vec::new(),
    };
    let ghost old_top = top@;
    top.push(op);
    assert(top@.drop_last() =~= old_top);
    stack.push(top);
    assert(stack_view(stack@) =~= stack_view(before).update(
        before.len() - 1,
        stack_view(before).last().push(op_view(op)),
    ));
}

/// Parses a source text into a program. Each of `<>.,+-` becomes one instruction,
/// each bracketed part a loop, and every other byte is a comment. Instructions inside
/// a `[` that is never closed are dropped. Every `]` must close an earlier `[`.
pub fn parse_file(source: &[u8]) -> (r: Option<Program>)
    requires
        closes_matched(source@),
    ensures
        r is Some,
        ops_view(r->0@) == spec_parse(source@),
{
    let mut stack: Vec<Vec<OpCode>> = Vec::new();
    stack.push(Vec::new());
    let mut i: usize = 0;
    assert(source@.take(0) =~= Seq::<u8>::empty());
    assert(stack_view(stack@) =~= seq![Seq::<Op>::empty()]);
    while i < source.len()
        invariant
            i <= source@.len(),
            closes_matched(source@),
            stack_view(stack@) == parse_from(seq![Seq::empty()], source@.take(i as int)),
            stack@.len() == 1 + bracket_depth(source@.take(i as int)),
        decreases source@.len() - i,
    {
        let c = source[i];
        let ghost pre = source@.take(i as int);
        assert(source@.take(i + 1).drop_last() =~= pre);
        assert(source@.take(i + 1).last() == c);
        assert(bracket_depth(source@.take(i + 1)) >= 0);
        let ghost st = stack_view(stack@);
        if c == OPEN_CHAR {
            stack.push(Vec::new());
            assert(stack_view(stack@) =~= st.push(Seq::empty()));
        } else if c == CLOSE_CHAR {
            let body = match stack.pop() {
                Some(t) => t,
                None => Vec::new(),
            };
            let mut parent = match stack.pop() {
                Some(t) => t,
                None => Vec::new(),
            };
            let ghost old_parent = parent@;
            let ghost body_view = ops_view(body@);
            let op = OpCode::Loop(body);
            assert(op_view(op) == Op::Loop(body_view));
            parent.push(op);
            assert(parent@.drop_last() =~= old_parent);
            stack.push(parent);
            let ghost rest = st.drop_last();
            assert(stack_view(stack@) =~= rest.update(rest.len() - 1, rest.last().push(Op::Loop(st.last()))));
        } else if c == LSHIFT_CHAR {
            push_op(&mut stack, OpCode::Lshift);
        } else if c == RSHIFT_CHAR {
            push_op(&mut stack, OpCode::Rshift);
        } else if c == PUTC_CHAR {
            push_op(&mut stack, OpCode::Putc);
        } else if c == GETC_CHAR {
            push_op(&mut stack, OpCode::Getc);
        } else if c == INC_CHAR {
            push_op(&mut stack, OpCode::Inc);
        } else if c == DEC_CHAR {
            push_op(&mut stack, OpCode::Dec);
        }
        i = i + 1;
    }
    assert(source@.take(source@.len() as int) =~= source@);
    let program = stack.swap_remove(0);
    Some(program)
}


/// Reading `a` and then `b` is reading `a + b`.
proof fn lemma_parse_from_append(stack: Seq<Seq<Op>>, a: Seq<u8>, b: Seq<u8>)
    ensures
        parse_from(stack, a + b) == parse_from(parse_from(stack, a), b),
    decreases b.len(),
{
    if b.len() == 0 {
        assert(a + b =~= a);
    } else {
        assert((a + b).drop_last() =~= a + b.drop_last());
        lemma_parse_from_append(stack, a, b.drop_last());
    }
}

/// Reading the text of one instruction appends that instruction to the innermost open list.
proof fn lemma_parse_render_op(stack: Seq<Seq<Op>>, op: Op)
    requires
        stack.len() >= 1,
    ensures
        parse_from(stack, render_op(op)) == stack.update(stack.len() - 1, stack.last().push(op)),
    decreases op, 0int,
{
    match op {
        Op::Loop(body) => {
            let opening = seq![OPEN_CHAR];
            let closing = seq![CLOSE_CHAR];
            let text = opening + render(body) + closing;
            let pushed = stack.push(Seq::<Op>::empty());
            assert(opening.drop_last() =~= Seq::<u8>::empty());
            assert(parse_from(stack, Seq::<u8>::empty()) == stack);
            assert(parse_from(stack, opening) == parse_step(stack, OPEN_CHAR));
            lemma_parse_from_append(stack, opening, render(body));
            lemma_parse_render_seq(pushed, body);
            assert(pushed.update(pushed.len() - 1, pushed.last() + body) =~= stack.push(body));
            assert(text.drop_last() =~= opening + render(body));
            assert(stack.push(body).drop_last() =~= stack);
            assert(parse_from(stack, text) == parse_step(stack.push(body), CLOSE_CHAR));
            assert(parse_step(stack.push(body), CLOSE_CHAR) =~= stack.update(
                stack.len() - 1,
                stack.last().push(Op::Loop(body)),
            ));
        },
        _ => {
            let text = render_op(op);
            assert(text.drop_last() =~= Seq::<u8>::empty());
            assert(parse_from(stack, Seq::<u8>::empty()) == stack);
            assert(text.len() == 1);
            assert(simple_op(text[0]) == Some(op));
            assert(parse_from(stack, text) == parse_step(stack, text[0]));
        },
    }
}

/// Reading the text of a sequence of instructions appends the sequence to the innermost open list.
proof fn lemma_parse_render_seq(stack: Seq<Seq<Op>>, ops: Seq<Op>)
    requires
        stack.len() >= 1,
    ensures
        parse_from(stack, render(ops)) == stack.update(stack.len() - 1, stack.last() + ops),
    decreases ops, 1int,
{
    if ops.len() == 0 {
        assert(stack.last() + ops =~= stack.last());
        assert(stack.update(stack.len() - 1, stack.last()) =~= stack);
    } else {
        let init = ops.drop_last();
        lemma_parse_from_append(stack, render(init), render_op(ops.last()));
        lemma_parse_render_seq(stack, init);
        let mid = stack.update(stack.len() - 1, stack.last() + init);
        lemma_parse_render_op(mid, ops.last());
        assert((stack.last() + init).push(ops.last()) =~= stack.last() + ops);
        assert(mid.update(mid.len() - 1, mid.last().push(ops.last())) =~= stack.update(
            stack.len() - 1,
            stack.last() + ops,
        ));
    }
}

/// Parsing the source text of any program gives back that program.
pub proof fn lemma_parse_render(ops: Seq<Op>)
    ensures
        spec_parse(render(ops)) == ops,
{
    let start = seq![Seq::<Op>::empty()];
    lemma_parse_render_seq(start, ops);
    assert(Seq::<Op>::empty() + ops =~= ops);
}

/// The text that a parser state stands for: the top-level instructions, then for each
/// open `[` the bracket and the instructions gathered inside it so far.
pub open spec fn stack_text(stack: Seq<Seq<Op>>) -> Seq<u8>
    decreases stack.len(),
{
    if stack.len() == 0 {
        Seq::empty()
    } else if stack.len() == 1 {
        render(stack[0])
    } else {
        stack_text(stack.drop_last()) + seq![OPEN_CHAR] + render(stack.last())
    }
}

/// The text of a parser state after appending an instruction to its innermost list.
proof fn lemma_stack_text_push(stack: Seq<Seq<Op>>, op: Op)
    requires
        stack.len() >= 1,
    ensures
        stack_text(stack.update(stack.len() - 1, stack.last().push(op))) == stack_text(stack)
            + render_op(op),
{
    let next = stack.update(stack.len() - 1, stack.last().push(op));
    assert(stack.last().push(op).drop_last() =~= stack.last());
    if stack.len() >= 2 {
        assert(next.drop_last() =~= stack.drop_last());
    }
}

/// Each parser step adds to the state's text exactly the command character it reads.
proof fn lemma_stack_text_step(stack: Seq<Seq<Op>>, c: u8)
    requires
        stack.len() >= 1,
        c == CLOSE_CHAR ==> stack.len() >= 2,
    ensures
        stack_text(parse_step(stack, c)) == if is_command(c) {
            stack_text(stack).push(c)
        } else {
            stack_text(stack)
        },
{
    if c == OPEN_CHAR {
        let next = stack.push(Seq::empty());
        assert(next.drop_last() =~= stack);
        assert(stack_text(stack) + seq![OPEN_CHAR] + render(Seq::empty()) =~= stack_text(stack).push(c));
    } else if c == CLOSE_CHAR {
        let rest = stack.drop_last();
        let t = stack.last();
        lemma_stack_text_push(rest, Op::Loop(t));
        assert(render_op(Op::Loop(t)) == seq![OPEN_CHAR] + render(t) + seq![CLOSE_CHAR]);
        assert(stack_text(rest) + (seq![OPEN_CHAR] + render(t) + seq![CLOSE_CHAR]) =~= (
        stack_text(rest) + seq![OPEN_CHAR] + render(t)).push(c));
    } else {
        match simple_op(c) {
            Some(op) => {
                lemma_stack_text_push(stack, op);
                assert(render_op(op) =~= seq![c]);
                assert(stack_text(stack) + seq![c] =~= stack_text(stack).push(c));
            },
            None => {},
        }
    }
}

/// Reading a text whose closing brackets are all matched yields a state whose text is
/// the command characters read and whose depth is the text's bracket depth.
proof fn lemma_parse_text(s: Seq<u8>)
    requires
        closes_matched(s),
    ensures
        stack_text(parse_from(seq![Seq::empty()], s)) == commands(s),
        parse_from(seq![Seq::empty()], s).len() == 1 + bracket_depth(s),
    decreases s.len(),
{
    if s.len() == 0 {
        assert(render(Seq::<Op>::empty()) =~= commands(s));
    } else {
        let init = s.drop_last();
        assert forall|i: int| 0 <= i <= init.len() implies bracket_depth(#[trigger] init.take(i))
            >= 0 by {
            assert(init.take(i) =~= s.take(i));
        }
        lemma_parse_text(init);
        assert(s.take(s.len() as int) =~= s);
        let st = parse_from(seq![Seq::empty()], init);
        lemma_stack_text_step(st, s.last());
    }
}

/// For a text whose brackets are balanced, the source text of the parsed program is
/// exactly the text's command characters: parsing keeps every command, in order, and
/// drops only comments.
pub proof fn lemma_render_parse(s: Seq<u8>)
    requires
        balanced(s),
    ensures
        render(spec_parse(s)) == commands(s),
{
    lemma_parse_text(s);
}

/// A text's brackets close properly exactly when those of the text without its last byte
/// do and the whole text does not close more than it opened.
proof fn lemma_closes_matched_last(s: Seq<u8>)
    requires
        s.len() > 0,
    ensures
        closes_matched(s) == (closes_matched(s.drop_last()) && bracket_depth(s) >= 0),
{
    let init = s.drop_last();
    if closes_matched(s) {
        assert forall|i: int| 0 <= i <= init.len() implies bracket_depth(#[trigger] init.take(i))
            >= 0 by {
            assert(init.take(i) =~= s.take(i));
        }
        assert(s.take(s.len() as int) =~= s);
    }
    if closes_matched(init) && bracket_depth(s) >= 0 {
        assert forall|i: int| 0 <= i <= s.len() implies bracket_depth(#[trigger] s.take(i)) >= 0 by {
            if i < s.len() {
                assert(init.take(i) =~= s.take(i));
            } else {
                assert(s.take(i) =~= s);
            }
        }
    }
}

/// Dropping comment bytes keeps a text's bracket depth.
proof fn lemma_depth_of_commands(s: Seq<u8>)
    ensures
        bracket_depth(commands(s)) == bracket_depth(s),
    decreases s.len(),
{
    if s.len() > 0 {
        lemma_depth_of_commands(s.drop_last());
        if is_command(s.last()) {
            let c = commands(s.drop_last()).push(s.last());
            assert(c.drop_last() =~= commands(s.drop_last()));
        }
    }
}

/// Dropping comment bytes keeps whether a text's brackets close properly.
proof fn lemma_closes_matched_of_commands(s: Seq<u8>)
    ensures
        closes_matched(commands(s)) == closes_matched(s),
    decreases s.len(),
{
    if s.len() == 0 {
    } else {
        let init = s.drop_last();
        lemma_closes_matched_of_commands(init);
        lemma_closes_matched_last(s);
        lemma_depth_of_commands(s);
        lemma_depth_of_commands(init);
        if is_command(s.last()) {
            let c = commands(s);
            assert(c.drop_last() =~= commands(init));
            lemma_closes_matched_last(c);
        } else {
            if closes_matched(init) {
                assert(init.take(init.len() as int) =~= init);
            }
        }
    }
}

/// Reading a text is reading its command characters: comment bytes leave the parser's
/// state as it is.
proof fn lemma_parse_from_commands(stack: Seq<Seq<Op>>, s: Seq<u8>)
    ensures
        parse_from(stack, commands(s)) == parse_from(stack, s),
    decreases s.len(),
{
    if s.len() > 0 {
        lemma_parse_from_commands(stack, s.drop_last());
        if is_command(s.last()) {
            let c = commands(s);
            assert(c.drop_last() =~= commands(s.drop_last()));
        }
    }
}

/// Two texts with the same command characters, whatever comments lie between them, are
/// admitted alike (every `]` closes an earlier `[` in both or in neither) and parse to the
/// same program.
pub proof fn lemma_same_commands_parse_alike(s1: Seq<u8>, s2: Seq<u8>)
    requires
        commands(s1) == commands(s2),
    ensures
        closes_matched(s1) == closes_matched(s2),
        spec_parse(s1) == spec_parse(s2),
{
    lemma_closes_matched_of_commands(s1);
    lemma_closes_matched_of_commands(s2);
    lemma_parse_from_commands(seq![Seq::empty()], s1);
    lemma_parse_from_commands(seq![Seq::empty()], s2);
}

/// A joined text contains a byte exactly when one of its parts does.
pub proof fn lemma_contains_append(a: Seq<u8>, b: Seq<u8>, x: u8)
    ensures
        (a + b).contains(x) == (a.contains(x) || b.contains(x)),
{
    if a.contains(x) {
        let i = choose|i: int| 0 <= i < a.len() && a[i] == x;
        assert((a + b)[i] == x);
    }
    if b.contains(x) {
        let i = choose|i: int| 0 <= i < b.len() && b[i] == x;
        assert((a + b)[a.len() + i] == x);
    }
    if (a + b).contains(x) {
        let i = choose|i: int| 0 <= i < (a + b).len() && (a + b)[i] == x;
        if i < a.len() {
            assert(a[i] == x);
        } else {
            assert(b[i - a.len()] == x);
        }
    }
}

/// A one-byte text contains exactly its byte.
pub proof fn lemma_contains_single(c: u8, x: u8)
    ensures
        seq![c].contains(x) == (c == x),
{
    if c == x {
        assert(seq![c][0] == x);
    }
}

/// Dropping comment bytes keeps every command character a text contains.
pub proof fn lemma_commands_contains(s: Seq<u8>, x: u8)
    requires
        is_command(x),
    ensures
        commands(s).contains(x) == s.contains(x),
    decreases s.len(),
{
    if s.len() == 0 {
        assert(!commands(s).contains(x));
    } else {
        let init = s.drop_last();
        lemma_commands_contains(init, x);
        assert(s =~= init + seq![s.last()]);
        lemma_contains_append(init, seq![s.last()], x);
        lemma_contains_single(s.last(), x);
        if is_command(s.last()) {
            assert(commands(s) =~= commands(init) + seq![s.last()]);
            lemma_contains_append(commands(init), seq![s.last()], x);
        }
    }
}

} // verus!
