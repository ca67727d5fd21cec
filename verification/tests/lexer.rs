use pipelang::token::{tokenize, Token};

#[test]
fn maps_each_recognized_symbol() {
    let tokens = tokenize("|#-!/\\\n");
    assert_eq!(
        tokens,
        vec![
            Token::LoopMarker,
            Token::Reset,
            Token::Increment,
            Token::Decrement,
            Token::Input,
            Token::Output,
            Token::Newline,
        ]
    );
}

#[test]
fn skips_unrecognized_characters_in_order() {
    let tokens = tokenize("ab|cd-e\nf!");
    assert_eq!(
        tokens,
        vec![Token::LoopMarker, Token::Increment, Token::Newline, Token::Decrement]
    );
}

#[test]
fn token_count_equals_recognized_character_count() {
    let source = "x-y-z|q#w/e\\r\n tail";
    let expected: usize = source
        .chars()
        .filter(|c| matches!(c, '|' | '#' | '-' | '!' | '/' | '\\' | '\n'))
        .count();
    assert_eq!(tokenize(source).len(), expected);
}

#[test]
fn empty_source_yields_empty_sequence() {
    assert_eq!(tokenize(""), vec![]);
}

#[test]
fn only_unrecognized_characters_yield_empty_sequence() {
    assert_eq!(tokenize("hello, world. 123 [](){}<>?;:'\"~`@$%^&*_+="), vec![]);
}

#[test]
fn whitespace_other_than_newline_is_inert() {
    assert_eq!(tokenize(" \t\r -"), vec![Token::Increment]);
}
