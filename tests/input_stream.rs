use lexer::parser::input_stream::InputStream;

fn is_space(byte: u8) -> bool {
    byte == b' '
}

fn is_letter(byte: u8) -> bool {
    b'a' <= byte && byte <= b'z'
}

#[test]
fn basic() {
    let input = b"  jump main".to_vec();
    let mut is = InputStream::new(&*input);
    let mut buf: Vec<u8> = vec![];
    let mut toks: Vec<String> = vec![];

    loop {
        let byte = is.next();
        if is.eof() {
            if buf.len() > 0 {
                let string: String = String::from_utf8_lossy(&*buf).into();
                toks.push(string);
            }
            break;
        }
        let byte = byte.unwrap();

        if is_space(byte) {
            if buf.len() > 0 {
                let string: String = String::from_utf8_lossy(&*buf).into();
                toks.push(string);
                buf.clear();
            }
        } else if is_letter(byte) {
            buf.push(byte);
        }
    }

    // Columns are 1-based: after the last byte the column is one past it.
    assert_eq!(is.col(), input.len() + 1, "unexpected None before EOF");
    assert_eq!(vec!["jump", "main"], toks, "tokens didn't match");
}

#[test]
fn fresh_stream_has_no_last_byte() {
    let is = InputStream::new(b"abc");
    assert_eq!(is.peek(), None);
    assert!(is.eof());
    assert_eq!(is.line(), 1);
    assert_eq!(is.col(), 1);
}

#[test]
fn peek_gives_last_byte_read() {
    let mut is = InputStream::new(b"xy");
    assert_eq!(is.next(), Some(b'x'));
    assert_eq!(is.peek(), Some(b'x'));
    assert!(!is.eof());
    assert_eq!(is.next(), Some(b'y'));
    assert_eq!(is.peek(), Some(b'y'));
}

#[test]
fn exhaustion_is_terminal() {
    let mut is = InputStream::new(b"a");
    assert_eq!(is.next(), Some(b'a'));
    assert_eq!(is.next(), None);
    assert!(is.eof());
    for _ in 0..5 {
        assert_eq!(is.next(), None);
        assert!(is.eof());
    }
    assert_eq!(is.col(), 2);
}

#[test]
fn empty_stream_is_exhausted_at_once() {
    let mut is = InputStream::new(b"");
    assert_eq!(is.next(), None);
    assert!(is.eof());
    assert_eq!(is.line(), 1);
    assert_eq!(is.col(), 1);
}

#[test]
fn position_counts_lines_and_columns() {
    let input = b"ab\ncd\n\nxyz";
    let mut is = InputStream::new(input);
    let mut n = 0;
    while is.next().is_some() {
        n += 1;
    }
    assert_eq!(n, input.len());
    assert_eq!(is.line(), 4);
    assert_eq!(is.col(), 4);
}

#[test]
fn newline_resets_column() {
    let mut is = InputStream::new(b"a\nb");
    is.next();
    assert_eq!((is.line(), is.col()), (1, 2));
    is.next();
    assert_eq!((is.line(), is.col()), (2, 1));
    is.next();
    assert_eq!((is.line(), is.col()), (2, 2));
}

#[test]
fn diagnostic_carries_position() {
    let mut is = InputStream::new(b"put\nadd");
    for _ in 0..5 {
        is.next();
    }
    assert_eq!(is.diagnostic("unexpected token"), "[2:2] unexpected token");
}

#[test]
fn diagnostic_writes_numbers_in_decimal() {
    let input = vec![b'\n'; 12];
    let mut is = InputStream::new(&input);
    while is.next().is_some() {}
    assert_eq!(is.diagnostic("x"), "[13:1] x");
    let mut wide = InputStream::new(&[b'a'; 104]);
    while wide.next().is_some() {}
    assert_eq!(wide.diagnostic(""), "[1:105] ");
}

#[test]
fn screech_ends_with_diagnostic() {
    let mut is = InputStream::new(b"ab");
    is.next();
    let text = format!("{}", is.screech("bad byte"));
    assert!(text.ends_with("[1:2] bad byte"), "{}", text);
    assert_eq!(is.peek(), Some(b'a'));
}
