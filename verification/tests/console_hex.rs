use lib::console::{putchar, puts, read_char};
use lib::trap::print_hex;

#[test]
fn puts_turns_newlines_into_crlf() {
    let mut tx = Vec::new();
    puts(&mut tx, "Unit00 booting...\n");
    assert_eq!(tx, b"Unit00 booting...\r\n".to_vec());
    let mut tx = Vec::new();
    puts(&mut tx, "a\n\nb");
    assert_eq!(tx, b"a\r\n\r\nb".to_vec());
}

#[test]
fn putchar_sends_the_byte() {
    let mut tx = vec![b'x'];
    putchar(&mut tx, b'\n');
    assert_eq!(tx, vec![b'x', b'\n']);
}

#[test]
fn read_char_takes_bytes_in_order() {
    let mut rx = vec![b'h', b'i'];
    assert_eq!(read_char(&mut rx), b'h');
    assert_eq!(read_char(&mut rx), b'i');
    assert!(rx.is_empty());
}

#[test]
fn print_hex_writes_sixteen_lowercase_digits() {
    let mut tx = Vec::new();
    print_hex(&mut tx, 0x1234_abcd);
    assert_eq!(tx, b"000000001234abcd".to_vec());
    let mut tx = Vec::new();
    print_hex(&mut tx, usize::MAX);
    assert_eq!(tx, b"ffffffffffffffff".to_vec());
    let mut tx = Vec::new();
    print_hex(&mut tx, 0);
    assert_eq!(tx, b"0000000000000000".to_vec());
}
