use tape_vm::token::Token;
use tape_vm::vm::Vm;

fn strip(src: &str) -> String {
    src.chars().filter(|c| "><+-.,[]".contains(*c)).collect()
}

#[test]
fn parse_recognizes_all_eight_symbols() {
    assert_eq!(
        Vm::parse("><+-.,[]"),
        vec![
            Token::ShiftR,
            Token::ShiftL,
            Token::Incr,
            Token::Decr,
            Token::Write,
            Token::Read,
            Token::Jez,
            Token::Jnez,
        ]
    );
}

#[test]
fn parse_drops_everything_else() {
    assert_eq!(Vm::parse("a+b -\n c"), vec![Token::Incr, Token::Decr]);
    assert_eq!(Vm::parse("hello, world."), vec![Token::Read, Token::Write]);
}

#[test]
fn parse_of_empty_text_is_empty() {
    assert_eq!(Vm::parse(""), Vec::<Token>::new());
    assert_eq!(Vm::parse("no symbols here"), Vec::<Token>::new());
}

#[test]
fn parse_keeps_source_order() {
    assert_eq!(
        Vm::parse("[->+<]"),
        vec![Token::Jez, Token::Decr, Token::ShiftR, Token::Incr, Token::ShiftL, Token::Jnez]
    );
}

#[test]
fn parse_passes_over_multibyte_characters() {
    assert_eq!(Vm::parse("é+日本-ü"), vec![Token::Incr, Token::Decr]);
}

#[test]
fn parse_classifies_single_characters() {
    assert_eq!(Token::from_char('>'), Some(Token::ShiftR));
    assert_eq!(Token::from_char('<'), Some(Token::ShiftL));
    assert_eq!(Token::from_char('+'), Some(Token::Incr));
    assert_eq!(Token::from_char('-'), Some(Token::Decr));
    assert_eq!(Token::from_char('.'), Some(Token::Write));
    assert_eq!(Token::from_char(','), Some(Token::Read));
    assert_eq!(Token::from_char('['), Some(Token::Jez));
    assert_eq!(Token::from_char(']'), Some(Token::Jnez));
    assert_eq!(Token::from_char('x'), None);
    assert_eq!(Token::from_char(' '), None);
}

#[test]
fn retokenizing_stripped_text_changes_nothing() {
    let src = "read, then + print. [loop - body] > done <";
    let stripped = strip(src);
    assert_eq!(stripped, ",+.[-]><");
    assert_eq!(Vm::parse(&stripped), Vm::parse(src));
    assert_eq!(strip(&stripped), stripped);
    assert_eq!(Vm::parse(&stripped).len(), stripped.chars().count());
}
