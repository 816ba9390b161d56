use lexer::ast::Atom;
use lexer::parser::input_stream::InputStream;
use lexer::parser::tokenizer::{ByteClass, Token, Tokenizer};

fn keyword(s: &str) -> Option<Token> {
    Some(Token::Keyword(s.to_string()))
}

fn name(s: &str) -> Option<Token> {
    Some(Token::Atom(Atom::Name(s.to_string())))
}

#[test]
fn skip_whitespace() {
    let input = b"  jump main".to_vec();
    let mut tokenizer = Tokenizer::new(InputStream::new(&*input));
    tokenizer.read_while(ByteClass::Whitespace);
    assert_eq!(Some(b'j'), tokenizer.stream().peek(), "skipped too much or too little");
}

#[test]
fn next() {
    let input = b"  jump main".to_vec();
    let mut tokenizer = Tokenizer::new(InputStream::new(&*input));
    assert_eq!(Some(Token::Keyword("jump".to_string())), tokenizer.next(), "expected 'jump'");
    assert_eq!(Some(Token::Atom(Atom::Name("main".to_string()))), tokenizer.next(), "expected 'main'");
}

#[test]
fn next_destructive() {
    let input = b"  jump-1".to_vec();
    let mut tokenizer = Tokenizer::new(InputStream::new(&*input));
    assert_eq!(None, tokenizer.next(), "expected 'jump'");
}

#[test]
fn read_while_gives_the_run() {
    let mut tokenizer = Tokenizer::new(InputStream::new(b"ab_1 x"));
    assert_eq!(tokenizer.read_while(ByteClass::NameByte), "ab_1");
    assert_eq!(tokenizer.stream().peek(), Some(b' '));
    assert_eq!(tokenizer.read_while(ByteClass::Whitespace), " ");
    assert_eq!(tokenizer.stream().peek(), Some(b'x'));
}

#[test]
fn whitespace_only_gives_nothing() {
    for input in [&b""[..], b" ", b"  \t\n\r \x0c "] {
        let mut tokenizer = Tokenizer::new(InputStream::new(input));
        assert_eq!(tokenizer.next(), None);
        assert!(tokenizer.stream().eof());
    }
}

#[test]
fn every_reserved_spelling_is_a_keyword() {
    let words = [
        "put", "add", "sub", "mul", "div", "mod", "gth", "lth", "geq", "leq", "eq", "neq", "ini",
        "ins", "out", "outl", "nl", "con", "sti", "not", "and", "or", "jump", "jmpt", "jmpf",
        "br", "brt", "brf", "back", "err", "end",
    ];
    for w in words {
        let mut tokenizer = Tokenizer::new(InputStream::new(w.as_bytes()));
        assert_eq!(tokenizer.next(), keyword(w));
        let spaced = format!("{} ", w);
        let mut tokenizer = Tokenizer::new(InputStream::new(spaced.as_bytes()));
        assert_eq!(tokenizer.next(), keyword(w));
    }
}

#[test]
fn keywords_are_case_sensitive() {
    let mut tokenizer = Tokenizer::new(InputStream::new(b"PUT Jump"));
    assert_eq!(tokenizer.next(), name("PUT"));
    assert_eq!(tokenizer.next(), name("Jump"));
    assert_eq!(tokenizer.next(), None);
}

#[test]
fn other_identifiers_are_names() {
    let mut tokenizer = Tokenizer::new(InputStream::new(b"_start loop2 jumps put_ x"));
    assert_eq!(tokenizer.next(), name("_start"));
    assert_eq!(tokenizer.next(), name("loop2"));
    assert_eq!(tokenizer.next(), name("jumps"));
    assert_eq!(tokenizer.next(), name("put_"));
    assert_eq!(tokenizer.next(), name("x"));
    assert_eq!(tokenizer.next(), None);
}

#[test]
fn identifier_then_symbol_fails() {
    let mut tokenizer = Tokenizer::new(InputStream::new(b"jump-1"));
    assert_eq!(tokenizer.next(), None);
    let mut tokenizer = Tokenizer::new(InputStream::new(b"abc,"));
    assert_eq!(tokenizer.next(), None);
}

#[test]
fn leading_digit_starts_no_identifier() {
    let mut tokenizer = Tokenizer::new(InputStream::new(b"9lives"));
    assert_eq!(tokenizer.next(), None);
}

#[test]
fn scenario_jump_main() {
    let mut tokenizer = Tokenizer::new(InputStream::new(b"  jump main"));
    assert_eq!(tokenizer.next(), keyword("jump"));
    assert_eq!(tokenizer.next(), name("main"));
    assert_eq!(tokenizer.next(), None);
    assert_eq!(tokenizer.next(), None);
}

#[test]
fn scenario_empty() {
    let mut tokenizer = Tokenizer::new(InputStream::new(b""));
    assert_eq!(tokenizer.next(), None);
    assert!(tokenizer.stream().eof());
}

#[test]
fn scenario_jump_minus_one() {
    let mut tokenizer = Tokenizer::new(InputStream::new(b"jump-1"));
    let first = tokenizer.next();
    assert_eq!(first, None);
    assert_ne!(first, keyword("jump"));
}

#[test]
fn scenario_put_newline_add() {
    let mut tokenizer = Tokenizer::new(InputStream::new(b"put\nadd"));
    assert_eq!(tokenizer.next(), keyword("put"));
    assert_eq!(tokenizer.stream().line(), 2);
    assert_eq!(tokenizer.stream().col(), 1);
    assert_eq!(tokenizer.next(), keyword("add"));
    assert_eq!(tokenizer.next(), None);
}

#[test]
fn tokens_separated_by_tabs_and_newlines() {
    let mut tokenizer = Tokenizer::new(InputStream::new(b"\tadd\n\n  counter\r\nend"));
    assert_eq!(tokenizer.next(), keyword("add"));
    assert_eq!(tokenizer.next(), name("counter"));
    assert_eq!(tokenizer.next(), keyword("end"));
    assert_eq!(tokenizer.next(), None);
    assert_eq!(tokenizer.stream().line(), 4);
    assert_eq!(tokenizer.stream().col(), 4);
}
