use beef::jit::{assemble_into, first_unsupported, text_segment};
use beef::parser::{parse_file, OpCode};

#[test]
fn assemble_encodings() {
    let program = parse_file(b"><-+.").unwrap();
    let mut text = Vec::new();
    assemble_into(&program, &mut text, 0);
    assert_eq!(
        text,
        vec![
            0x48, 0x83, 0xC6, 0x01, 0x48, 0x83, 0xEE, 0x01, 0x80, 0x2E, 0x01, 0x80, 0x06, 0x01, 0xFF,
            0xD3
        ]
    );
}

#[test]
fn assemble_overwrites_from_start() {
    let mut text = vec![9u8; 6];
    assemble_into(&[OpCode::Putc], &mut text, 2);
    assert_eq!(text, vec![9, 9, 0xFF, 0xD3, 9, 9]);
    let mut text = vec![9u8; 3];
    assemble_into(&[OpCode::Inc], &mut text, 2);
    assert_eq!(text, vec![9, 9, 0x80, 0x06, 0x01]);
}

#[test]
fn text_segment_layout() {
    let putc = [
        0x6Au8, 0x01, 0x51, 0x6A, 0x01, 0x48, 0xC7, 0xC0, 0x04, 0x00, 0x00, 0x00, 0x48, 0x83, 0xEC,
        0x04, 0xCD, 0x80, 0x48, 0x83, 0xC4, 0x10, 0xC3,
    ];
    let loader = [0x48u8, 0xBB, 0x00, 0xA0, 0x4F, 0x05, 0x01, 0x00, 0x00, 0x00];
    let empty = text_segment(&[]);
    let mut expected = putc.to_vec();
    expected.extend_from_slice(&loader);
    assert_eq!(empty, expected);

    // The program's code is written over the `rbx` load.
    let text = text_segment(&[OpCode::Putc]);
    let mut expected = putc.to_vec();
    expected.extend_from_slice(&[0xFF, 0xD3]);
    expected.extend_from_slice(&loader[2..]);
    assert_eq!(text, expected);

    let text = text_segment(&[OpCode::Rshift, OpCode::Rshift, OpCode::Rshift]);
    assert_eq!(text.len(), 23 + 12);
    assert_eq!(&text[..23], &putc[..]);
}

#[test]
fn first_unsupported_finds_loops_and_input() {
    assert_eq!(first_unsupported(&parse_file(b"+>.").unwrap()), None);
    assert_eq!(first_unsupported(&parse_file(b"+,[-]").unwrap()), Some(1));
    assert_eq!(first_unsupported(&parse_file(b"+[,]").unwrap()), Some(1));
}
