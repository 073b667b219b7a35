use braindamage::{interpret, parse, RuntimeError, BUF_SIZE};

#[test]
fn test_interpreter() {
    let tokens = parse("++[->+<]").unwrap();
    let buf = interpret(&tokens, &[], &mut Vec::new()).unwrap();

    assert_eq!(buf.0[0], 0);
    assert_eq!(buf.0[1], 2);
}

#[test]
fn test_out_of_lower_bounds() {
    let tokens = parse("<.").unwrap();
    let buf = interpret(&tokens, &[], &mut Vec::new());

    assert_eq!(buf, Err(RuntimeError::PtrOutOfBounds(-1)));
}

#[test]
fn test_out_of_upper_bounds() {
    let tokens = parse("+[>+]").unwrap();
    let buf = interpret(&tokens, &[], &mut Vec::new());

    assert_eq!(buf, Err(RuntimeError::PtrOutOfBounds(BUF_SIZE as i32)));
}

#[test]
fn test_decrement_wraps_around() {
    let tokens = parse("-").unwrap();
    let buf = interpret(&tokens, &[], &mut Vec::new()).unwrap();

    assert_eq!(buf.0[0], 255);
}

#[test]
fn test_increment_wraps_around() {
    // 255 increments, then one more
    let mut src = String::new();
    for _ in 0..256 {
        src.push('+');
    }
    let tokens = parse(&src).unwrap();
    let buf = interpret(&tokens, &[], &mut Vec::new()).unwrap();

    assert_eq!(buf.0[0], 0);
}

#[test]
fn test_skipped_loop_runs_nothing() {
    // cell 0 is zero, so the loop body never executes
    let tokens = parse("[.>]").unwrap();
    let mut output: Vec<u8> = Vec::new();
    let buf = interpret(&tokens, &[], &mut output).unwrap();

    assert_eq!(buf.0[0], 0);
    assert!(output.is_empty());
}
