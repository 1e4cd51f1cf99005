use beef::parser::{has_unmatched_close, parse_file, OpCode};

fn parse(src: &str) -> Vec<OpCode> {
    parse_file(src.as_bytes()).unwrap()
}

#[test]
fn parse_simple_commands() {
    assert_eq!(
        parse("<>.,+-"),
        vec![OpCode::Lshift, OpCode::Rshift, OpCode::Putc, OpCode::Getc, OpCode::Inc, OpCode::Dec]
    );
}

#[test]
fn parse_skips_comments() {
    assert_eq!(parse("a+ b\n-c ü"), vec![OpCode::Inc, OpCode::Dec]);
    assert_eq!(parse(""), vec![]);
    assert_eq!(parse("hello world"), vec![]);
}

#[test]
fn parse_nested_loops() {
    assert_eq!(
        parse("+[->[.]<]-"),
        vec![
            OpCode::Inc,
            OpCode::Loop(vec![
                OpCode::Dec,
                OpCode::Rshift,
                OpCode::Loop(vec![OpCode::Putc]),
                OpCode::Lshift,
            ]),
            OpCode::Dec,
        ]
    );
}

#[test]
fn parse_empty_loop() {
    assert_eq!(parse("[]"), vec![OpCode::Loop(vec![])]);
}

#[test]
fn parse_drops_unclosed_loop() {
    // What follows a `[` that is never closed is not part of the program.
    assert_eq!(parse("+[-."), vec![OpCode::Inc]);
    assert_eq!(parse("+[-[.]"), vec![OpCode::Inc]);
}

#[test]
fn unmatched_close_detected() {
    assert!(has_unmatched_close(b"]"));
    assert!(has_unmatched_close(b"+[]]"));
    assert!(has_unmatched_close(b"]["));
    assert!(!has_unmatched_close(b"[[]]"));
    assert!(!has_unmatched_close(b"[["));
    assert!(!has_unmatched_close(b"no brackets"));
}

fn render(ops: &[OpCode]) -> String {
    let mut s = String::new();
    for op in ops {
        match op {
            OpCode::Lshift => s.push('<'),
            OpCode::Rshift => s.push('>'),
            OpCode::Putc => s.push('.'),
            OpCode::Getc => s.push(','),
            OpCode::Inc => s.push('+'),
            OpCode::Dec => s.push('-'),
            OpCode::Loop(body) => {
                s.push('[');
                s.push_str(&render(body));
                s.push(']');
            }
        }
    }
    s
}

#[test]
fn parse_render_round_trip() {
    // Parsing the text of a program gives the program back.
    let program = vec![
        OpCode::Getc,
        OpCode::Loop(vec![OpCode::Loop(vec![]), OpCode::Dec, OpCode::Loop(vec![OpCode::Putc])]),
        OpCode::Rshift,
    ];
    assert_eq!(parse(&render(&program)), program);
}

#[test]
fn render_parse_keeps_commands() {
    // For balanced text, the parsed program's text is the text's commands.
    let src = "read, then [loop -> write . <] done+";
    assert_eq!(render(&parse(src)), ",[->.<]+");
}

#[test]
fn same_commands_parse_alike() {
    let plain = b"+[->+<].";
    let commented = b"add one + then [ loop: - move > + back < ] print .\n";
    assert_eq!(has_unmatched_close(plain), has_unmatched_close(commented));
    assert_eq!(parse_file(plain), parse_file(commented));
    let bad_plain = b"+]";
    let bad_commented = b"x + y ] z";
    assert!(has_unmatched_close(bad_plain));
    assert!(has_unmatched_close(bad_commented));
}
