use braindamage::{interpret, parse, RuntimeError, NEW_LINE};

#[test]
fn test_read() {
    let tokens = parse(",").unwrap();

    let input = "A";

    let buf = interpret(&tokens, input.as_bytes(), &mut Vec::new()).unwrap();

    assert_eq!(buf.0[0], input.as_bytes()[0]);
}

#[test]
fn test_write() {
    let tokens = parse("++++++++++.").unwrap();
    let mut output: Vec<u8> = Vec::new();
    let _ = interpret(&tokens, &[], &mut output).unwrap();

    assert_eq!(output[0], NEW_LINE);
}

#[test]
fn test_read_stores_the_byte_read() {
    let tokens = parse(",").unwrap();
    let buf = interpret(&tokens, "A".as_bytes(), &mut Vec::new()).unwrap();

    assert_eq!(buf.0[0], 0x41);
}

#[test]
fn test_read_out_of_input() {
    let tokens = parse(",").unwrap();
    let result = interpret(&tokens, &[], &mut Vec::new());

    assert_eq!(result, Err(RuntimeError::OutOfInput));
}

#[test]
fn test_reads_consume_input_in_order() {
    let tokens = parse(",>,>,").unwrap();
    let buf = interpret(&tokens, "abc".as_bytes(), &mut Vec::new()).unwrap();

    assert_eq!(buf.0[0], b'a');
    assert_eq!(buf.0[1], b'b');
    assert_eq!(buf.0[2], b'c');
}

#[test]
fn test_echo_writes_what_it_read() {
    let tokens = parse(",.,.").unwrap();
    let mut output: Vec<u8> = Vec::new();
    let _ = interpret(&tokens, "hi".as_bytes(), &mut output).unwrap();

    assert_eq!(output, b"hi".to_vec());
}
