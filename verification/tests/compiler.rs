use beef::compiler::{compile, contains_getc, effective_len, inner, EPILOGUE, PRELUDE};
use beef::parser::{parse_file, OpCode};

fn compiled(src: &str) -> String {
    let program = parse_file(src.as_bytes()).unwrap();
    let mut out = Vec::new();
    compile(&program, &mut out);
    String::from_utf8(out).unwrap()
}

#[test]
fn effective_len_counts_every_instruction() {
    assert_eq!(effective_len(&[]), Some(0));
    assert_eq!(effective_len(&[OpCode::Inc, OpCode::Putc]), Some(2));
    let program = parse_file(b"+[-[>]<].").unwrap();
    assert_eq!(effective_len(&program), Some(7));
}

#[test]
fn contains_getc_looks_into_loops() {
    assert!(!contains_getc(&parse_file(b"+[-[>]<].").unwrap()));
    assert!(contains_getc(&parse_file(b",").unwrap()));
    assert!(contains_getc(&parse_file(b"+[-[>,]<].").unwrap()));
}

#[test]
fn compile_empty_program() {
    let expected = format!("{}    isn0:\n{}", PRELUDE, EPILOGUE);
    assert_eq!(compiled(""), expected);
}

#[test]
fn compile_loop_program() {
    let body = "    isn0:\n    add     [esi], dword 1\n    isn1:\n    cmp      [esi], byte 0\n    je      isn3\n    isn2:\n    sub     [esi], dword 1\n    jmp     isn1\n    isn3:\n    call    dot\n    isn4:\n";
    let expected = format!("{}{}{}", PRELUDE, body, EPILOGUE);
    assert_eq!(compiled("+[-]."), expected);
}

#[test]
fn compile_moves() {
    let body = "    isn0:\n    add     esi, dword 1\n    isn1:\n    sub     esi, dword 1\n    isn2:\n";
    assert_eq!(compiled("><"), format!("{}{}{}", PRELUDE, body, EPILOGUE));
}

#[test]
fn compile_appends_to_existing_output() {
    let program = parse_file(b"+").unwrap();
    let mut out = b"; header\n".to_vec();
    compile(&program, &mut out);
    let text = String::from_utf8(out).unwrap();
    assert!(text.starts_with("; header\n"));
    assert_eq!(text.len(), "; header\n".len() + PRELUDE.len() + "    isn0:\n    add     [esi], dword 1\n    isn1:\n".len() + EPILOGUE.len());
}

#[test]
fn compile_labels_large_numbers() {
    // Labels count up in decimal past ten.
    let text = compiled("++++++++++++");
    assert!(text.contains("    isn10:\n    add     [esi], dword 1\n    isn11:\n    add     [esi], dword 1\n    isn12:\n"));
}

#[test]
fn compiled_jumps_hit_defined_labels() {
    let text = compiled("+[>[-]<-]>.");
    for line in text.lines() {
        let line = line.trim();
        if let Some(target) = line.strip_prefix("je      ").or(line.strip_prefix("jmp     ")) {
            let label = format!("    {}:", target);
            assert_eq!(text.matches(&label).count(), 1, "{}", target);
        }
    }
}

/// The listing part of a compiled text: without prelude, epilogue and end label.
fn listing_of(src: &str) -> String {
    let text = compiled(src);
    let body = &text[PRELUDE.len()..text.len() - EPILOGUE.len()];
    let end = body[..body.len() - 1].rfind('\n').map(|i| i + 1).unwrap_or(0);
    body[..end].to_string()
}

/// Moves every label number `isn<n>` of a listing on by `by`.
fn shift_labels(listing: &str, by: usize) -> String {
    let mut result = String::new();
    let mut rest = listing;
    while let Some(i) = rest.find("isn") {
        result.push_str(&rest[..i + 3]);
        rest = &rest[i + 3..];
        let digits = rest.chars().take_while(|c| c.is_ascii_digit()).count();
        let n: usize = rest[..digits].parse().unwrap();
        result.push_str(&(n + by).to_string());
        rest = &rest[digits..];
    }
    result.push_str(rest);
    result
}

#[test]
fn joined_listing_is_parts_in_turn() {
    let p = "+[-]";
    let q = ">[.<]";
    let first = listing_of(p);
    let second = shift_labels(&listing_of(q), 3);
    assert_eq!(listing_of("+[-]>[.<]"), format!("{}{}", first, second));
    assert_eq!(
        effective_len(&parse_file(b"+[-]>[.<]").unwrap()),
        Some(effective_len(&parse_file(p.as_bytes()).unwrap()).unwrap() + effective_len(&parse_file(q.as_bytes()).unwrap()).unwrap())
    );
    assert!(second.starts_with("    isn3:\n"));
}

#[test]
fn label_count_is_command_characters_but_open_brackets() {
    for src in ["", "+", "+[-[>]<].", "hello [world] , . < > ++"] {
        let program = parse_file(src.as_bytes()).unwrap();
        let count = src.bytes().filter(|b| b"<>.,+-]".contains(b)).count();
        assert_eq!(effective_len(&program), Some(count));
    }
}

#[test]
fn inner_on_joined_program_is_inner_on_parts_in_turn() {
    let p = parse_file(b"+[-]").unwrap();
    let q = parse_file(b">[.<]").unwrap();
    let mut joined = parse_file(b"+[-]").unwrap();
    joined.extend(parse_file(b">[.<]").unwrap());

    let mut out_a = b"start\n".to_vec();
    let mut isn_a: usize = 5;
    inner(&joined, &mut out_a, &mut isn_a);

    let mut out_b = b"start\n".to_vec();
    let mut isn_b: usize = 5;
    inner(&p, &mut out_b, &mut isn_b);
    assert_eq!(isn_b, 8);
    inner(&q, &mut out_b, &mut isn_b);

    assert_eq!(out_a, out_b);
    assert_eq!(isn_a, isn_b);
    assert_eq!(isn_a, 12);
}
