use braindamage::{compile, parse, Buffer, Token, BUF_SIZE};

#[test]
fn compile_starts_with_prologue() {
    let tokens = parse("+").unwrap();
    let text = compile(&tokens);

    assert!(text.starts_with("global _start\n"));
    assert!(text.contains("tape: resb 30000\n"));
    assert!(text.contains("_start:\n\tmov r12, tape\n"));
}

#[test]
fn compile_ends_with_exit_call() {
    let tokens = parse("").unwrap();
    let text = compile(&tokens);

    assert!(text.ends_with("\tcall exit\n"));
}

#[test]
fn compile_lowers_each_operation() {
    let tokens = parse("><+-.,").unwrap();
    let text = compile(&tokens);

    assert!(text.ends_with(
        "\tadd qword r12, 1\n\tsub qword r12, 1\n\tadd byte [r12], 1\n\tsub byte [r12], 1\n\tcall writec\n\tcall readc\n\tcall exit\n"
    ));
}

#[test]
fn compile_labels_loops_by_position() {
    let tokens = parse("[-]").unwrap();
    let text = compile(&tokens);

    assert!(text.ends_with(
        "\tcmp byte [r12], 0\n\tje LOOP_END_2\nLOOP_START_0:\n\tsub byte [r12], 1\n\tcmp byte [r12], 0\n\tjne LOOP_START_0\nLOOP_END_2:\n\tcall exit\n"
    ));
}

#[test]
fn compile_labels_use_full_decimal_positions() {
    // twelve plain operations push the loop to positions 12 and 14
    let tokens = parse("++++++++++++[-]").unwrap();
    let text = compile(&tokens);

    assert!(text.contains("LOOP_START_12:"));
    assert!(text.contains("LOOP_END_14:"));
    assert!(text.contains("\tje LOOP_END_14\n"));
    assert!(text.contains("\tjne LOOP_START_12\n"));
}

#[test]
fn buffer_new_is_zeroed() {
    let buf = Buffer::new();

    assert_eq!(buf.0.len(), BUF_SIZE);
    assert!(buf.0.iter().all(|b| *b == 0));
    assert_eq!(buf, Buffer::default());
}

#[test]
fn buffer_get_checked_bounds() {
    let buf = Buffer::new();

    assert_eq!(buf.get_checked(0), Some(&0));
    assert_eq!(buf.get_checked(BUF_SIZE as i32 - 1), Some(&0));
    assert_eq!(buf.get_checked(-1), None);
    assert_eq!(buf.get_checked(BUF_SIZE as i32), None);
}

#[test]
fn buffer_get_mut_checked_writes_through() {
    let mut buf = Buffer::new();

    if let Some(cell) = buf.get_mut_checked(7) {
        *cell = 42;
    } else {
        panic!("index 7 is in bounds");
    }
    assert_eq!(buf.0[7], 42);
    assert_eq!(buf.get_mut_checked(BUF_SIZE as i32), None);
}

#[test]
fn from_char_roundtrip_over_command_chars() {
    let cmds = ['>', '<', '+', '-', '.', ',', '[', ']'];
    let mut seen = Vec::new();
    for c in cmds {
        let t = Token::from_char(c).unwrap();
        seen.push(t);
    }
    assert_eq!(seen.len(), 8);
}
