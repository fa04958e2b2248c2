use exprdag::scanner::{ScanWarning, Scanner, Token};
use exprdag::text::{ascii_precedes, decimal_text, is_alphabetic_text, utf8_width_of};

fn scan(input: &str) -> Vec<Token> {
    Scanner::new(input).tokenize()
}

fn shown(tokens: &[Token]) -> String {
    format!("{:?}", tokens)
}

#[test]
fn scans_operators_and_parentheses() {
    assert_eq!(shown(&scan("+*()")), "[Plus, Star, BOpen, BClose, EOF]");
}

#[test]
fn scans_identifiers_and_numbers_as_longest_runs() {
    assert_eq!(
        shown(&scan("abc+12*x9")),
        "[Identifier(\"abc\"), Plus, Number(\"12\"), Star, Identifier(\"x\"), Number(\"9\"), EOF]"
    );
}

#[test]
fn a_number_directly_followed_by_letters_is_two_tokens() {
    assert_eq!(shown(&scan("12ab")), "[Number(\"12\"), Identifier(\"ab\"), EOF]");
}

#[test]
fn white_space_separates_and_is_dropped() {
    assert_eq!(
        shown(&scan("  a \t b\u{a0}c\n")),
        "[Identifier(\"a\"), Identifier(\"b\"), Identifier(\"c\"), EOF]"
    );
}

#[test]
fn empty_and_blank_input_give_only_the_end_marker() {
    assert_eq!(shown(&scan("")), "[EOF]");
    assert_eq!(shown(&scan("   ")), "[EOF]");
}

#[test]
fn the_end_marker_comes_last_and_only_once() {
    let tokens = scan("a+b*c");
    assert_eq!(tokens.len(), 6);
    assert!(matches!(tokens[5], Token::EOF));
    assert_eq!(tokens.iter().filter(|t| matches!(t, Token::EOF)).count(), 1);
}

#[test]
fn an_unknown_character_becomes_an_error_token() {
    assert_eq!(shown(&scan("a$b")), "[Identifier(\"a\"), Error('$'), Identifier(\"b\"), EOF]");
}

#[test]
fn underscore_and_minus_are_no_part_of_the_language() {
    assert_eq!(
        shown(&scan("a_b-1")),
        "[Identifier(\"a\"), Error('_'), Identifier(\"b\"), Error('-'), Number(\"1\"), EOF]"
    );
}

#[test]
fn letters_outside_ascii_are_error_tokens() {
    assert_eq!(shown(&scan("é")), "[Error('é'), EOF]");
}

#[test]
fn warnings_name_the_character_and_the_byte_offset_behind_it() {
    let mut scanner = Scanner::new("a $ é#");
    let _ = scanner.tokenize();
    let warnings = scanner.warnings().clone();
    assert_eq!(
        warnings,
        vec![
            ScanWarning { character: '$', position: 3 },
            ScanWarning { character: 'é', position: 6 },
            ScanWarning { character: '#', position: 7 },
        ]
    );
}

#[test]
fn a_warning_reads_as_one_line() {
    let warning = ScanWarning { character: '$', position: 12 };
    assert_eq!(warning.message(), "Warning: unexpected character '$' at position 12");
}

#[test]
fn clean_input_gives_no_warning() {
    let mut scanner = Scanner::new("(a+b)*3");
    let _ = scanner.tokenize();
    assert!(scanner.warnings().is_empty());
}

#[test]
fn peek_does_not_consume_and_advance_does() {
    let mut scanner = Scanner::new("xy");
    assert_eq!(scanner.peek(), Some('x'));
    assert_eq!(scanner.peek(), Some('x'));
    assert_eq!(scanner.advance(), Some('x'));
    assert_eq!(scanner.peek(), Some('y'));
    assert_eq!(scanner.advance(), Some('y'));
    assert_eq!(scanner.peek(), None);
    assert_eq!(scanner.advance(), None);
}

#[test]
fn tokenizing_again_at_the_end_gives_the_end_marker() {
    let mut scanner = Scanner::new("a");
    let _ = scanner.tokenize();
    assert_eq!(shown(&scanner.tokenize()), "[EOF]");
}

#[test]
fn token_text_agrees_with_debug_formatting() {
    let tokens = vec![
        Token::Identifier("ab".to_string()),
        Token::Identifier("q\"uo\\te\n".to_string()),
        Token::Number("42".to_string()),
        Token::Plus,
        Token::Star,
        Token::BOpen,
        Token::BClose,
        Token::Error('$'),
        Token::Error('\''),
        Token::Error('\t'),
        Token::EOF,
    ];
    for token in &tokens {
        assert_eq!(token.debug_text(), format!("{:?}", token));
    }
    assert_eq!(tokens[0].debug_text(), "Identifier(\"ab\")");
    assert_eq!(tokens[7].debug_text(), "Error('$')");
}

#[test]
fn a_cloned_token_is_the_same_token() {
    let token = Token::Identifier("abc".to_string());
    assert_eq!(format!("{:?}", token.clone()), "Identifier(\"abc\")");
}

#[test]
fn decimal_numerals() {
    assert_eq!(decimal_text(0), "0");
    assert_eq!(decimal_text(7), "7");
    assert_eq!(decimal_text(10), "10");
    assert_eq!(decimal_text(12345), "12345");
    assert_eq!(decimal_text(9876543210), "9876543210");
    assert_eq!(decimal_text(usize::MAX), usize::MAX.to_string());
}

#[test]
fn alphabetic_means_ascii_letters_only() {
    assert!(is_alphabetic_text("abcXYZ"));
    assert!(is_alphabetic_text(""));
    assert!(!is_alphabetic_text("a1"));
    assert!(!is_alphabetic_text("12"));
    assert!(!is_alphabetic_text("a b"));
    assert!(!is_alphabetic_text("é"));
    assert!(!is_alphabetic_text("ε"));
    assert!(!is_alphabetic_text("a@"));
    assert!(!is_alphabetic_text("[`{"));
}

#[test]
fn dictionary_order_of_plain_text() {
    assert!(ascii_precedes("a", "b"));
    assert!(!ascii_precedes("b", "a"));
    assert!(!ascii_precedes("a", "a"));
    assert!(ascii_precedes("a", "ab"));
    assert!(!ascii_precedes("ab", "a"));
    assert!(ascii_precedes("", "a"));
    assert!(!ascii_precedes("", ""));
    assert!(ascii_precedes("Z", "a"));
    assert!(ascii_precedes("abc", "abd"));
    assert_eq!(ascii_precedes("apple", "apricot"), "apple" < "apricot");
}

#[test]
fn utf8_widths() {
    assert_eq!(utf8_width_of('a'), 1);
    assert_eq!(utf8_width_of('\u{7f}'), 1);
    assert_eq!(utf8_width_of('\u{80}'), 2);
    assert_eq!(utf8_width_of('é'), 2);
    assert_eq!(utf8_width_of('\u{7ff}'), 2);
    assert_eq!(utf8_width_of('\u{800}'), 3);
    assert_eq!(utf8_width_of('€'), 3);
    assert_eq!(utf8_width_of('\u{ffff}'), 3);
    assert_eq!(utf8_width_of('\u{10000}'), 4);
    assert_eq!(utf8_width_of('😀'), 4);
    for c in ['a', 'é', '€', '😀'] {
        assert_eq!(utf8_width_of(c), c.len_utf8());
    }
}
