//! Tests of the tokenizer and the integer-literal type.
use asmgen::lexer::{Integer, Lexeme, Lexer, Token};

fn all_lexemes(src: &str) -> Vec<Lexeme> {
    let mut lexer = Lexer::new(src);
    let mut out = Vec::new();
    while let Some(lex) = lexer.next() {
        out.push(lex);
    }
    out
}

#[test]
fn from_str_classifies_by_prefix() {
    assert_eq!(Integer::from_str("0x1F"), Integer::Hex("0x1F".to_owned()));
    assert_eq!(Integer::from_str("0XAB"), Integer::Hex("0XAB".to_owned()));
    assert_eq!(Integer::from_str("0b101"), Integer::Binary("0b101".to_owned()));
    assert_eq!(Integer::from_str("0B11"), Integer::Binary("0B11".to_owned()));
    assert_eq!(Integer::from_str("123"), Integer::Decimal("123".to_owned()));
    assert_eq!(Integer::from_str("0"), Integer::Decimal("0".to_owned()));
}

#[test]
fn slice_returns_the_exact_text() {
    assert_eq!(Integer::from_str("0x1F").slice(), "0x1F");
    assert_eq!(Integer::from_str("42").slice(), "42");
}

#[test]
fn as_int_reads_each_radix() {
    assert_eq!(Integer::from_str("0x1F").as_int(), Some(31));
    assert_eq!(Integer::from_str("0b101").as_int(), Some(5));
    assert_eq!(Integer::from_str("511").as_int(), Some(511));
    assert_eq!(Integer::from_str("0xFFFFFFFFFFFFFFFF").as_int(), Some(u64::MAX));
}

#[test]
fn as_int_rejects_malformed_and_oversized_literals() {
    // one bit over 64
    assert_eq!(Integer::from_str("0x10000000000000000").as_int(), None);
    assert_eq!(Integer::from_str("18446744073709551616").as_int(), None);
    assert_eq!(Integer::Decimal("12a".to_owned()).as_int(), None);
    assert_eq!(Integer::Decimal("".to_owned()).as_int(), None);
    assert_eq!(Integer::Hex("0x".to_owned()).as_int(), None);
    assert_eq!(Integer::Decimal("+5".to_owned()).as_int(), Some(5));
}

#[test]
fn width_estimates_bits_from_the_text() {
    assert_eq!(Integer::from_str("0b101").width(), 3);
    assert_eq!(Integer::from_str("0x1F").width(), 8);
    assert_eq!(Integer::from_str("42").width(), 8);
}

#[test]
fn tokenizes_an_instruction_pattern_line() {
    let lexemes = all_lexemes("Add r0, i1:8 -> [r0 | 0xF]");
    let kinds: Vec<&Token> = lexemes.iter().map(|l| &l.token).collect();
    assert!(matches!(kinds[0], Token::Identifier(s) if s == "Add"));
    assert!(matches!(kinds[1], Token::Register(0)));
    assert!(matches!(kinds[2], Token::Comma));
    assert!(matches!(kinds[3], Token::Immediate(1)));
    assert!(matches!(kinds[4], Token::Colon));
    assert!(matches!(kinds[5], Token::Integer(Integer::Decimal(s)) if s == "8"));
    assert!(matches!(kinds[6], Token::Arrow));
    assert!(matches!(kinds[7], Token::OpenBracket));
    assert!(matches!(kinds[8], Token::Register(0)));
    assert!(matches!(kinds[9], Token::Pipe));
    assert!(matches!(kinds[10], Token::Integer(Integer::Hex(s)) if s == "0xF"));
    assert!(matches!(kinds[11], Token::CloseBracket));
    assert_eq!(kinds.len(), 12);
}

#[test]
fn lexemes_carry_their_source_slice() {
    let lexemes = all_lexemes("mov R12 -> 0b11");
    let slices: Vec<&str> = lexemes.iter().map(|l| l.slice.as_str()).collect();
    assert_eq!(slices, vec!["mov", "R12", "->", "0b11"]);
}

#[test]
fn comments_and_whitespace_are_skipped() {
    assert!(all_lexemes("   // nothing here").is_empty());
    assert!(all_lexemes("/* all hidden */").is_empty());
    let lexemes = all_lexemes("a /* gap */ b // tail c");
    let slices: Vec<&str> = lexemes.iter().map(|l| l.slice.as_str()).collect();
    assert_eq!(slices, vec!["a", "b"]);
}

#[test]
fn unterminated_block_comment_is_one_error_lexeme() {
    let lexemes = all_lexemes("a /* no end");
    assert_eq!(lexemes.len(), 2);
    assert!(matches!(lexemes[1].token, Token::Error));
    assert_eq!(lexemes[1].slice, "/* no end");
}

#[test]
fn foreign_characters_become_error_lexemes() {
    let lexemes = all_lexemes("a $ b");
    assert!(matches!(lexemes[1].token, Token::Error));
    assert_eq!(lexemes[1].slice, "$");
}

#[test]
fn register_words_need_digits_only() {
    let lexemes = all_lexemes("r1 r1x r i9");
    assert!(matches!(lexemes[0].token, Token::Register(1)));
    assert!(matches!(&lexemes[1].token, Token::Identifier(s) if s == "r1x"));
    assert!(matches!(&lexemes[2].token, Token::Identifier(s) if s == "r"));
    assert!(matches!(lexemes[3].token, Token::Immediate(9)));
}

#[test]
fn literal_prefix_without_digits_falls_back() {
    let lexemes = all_lexemes("0x 0b2");
    let slices: Vec<&str> = lexemes.iter().map(|l| l.slice.as_str()).collect();
    assert_eq!(slices, vec!["0", "x", "0", "b2"]);
    assert!(matches!(&lexemes[0].token, Token::Integer(Integer::Decimal(s)) if s == "0"));
    assert!(matches!(&lexemes[1].token, Token::Identifier(s) if s == "x"));
}

#[test]
fn newlines_are_plain_whitespace_to_the_lexer() {
    let lexemes = all_lexemes("a\nb");
    let slices: Vec<&str> = lexemes.iter().map(|l| l.slice.as_str()).collect();
    assert_eq!(slices, vec!["a", "b"]);
}

#[test]
fn wrap_value_reduces_modulo_two_to_the_sixty_fourth() {
    assert_eq!(Integer::from_str("0xFF").wrap_value(), 255);
    // the low 64 bits of a literal just over 64 bits
    assert_eq!(Integer::from_str("0x10000000000000005").wrap_value(), 5);
    assert_eq!(Integer::from_str("18446744073709551621").wrap_value(), 5);
}
