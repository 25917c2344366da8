use modlang::error::ResolveError;
use modlang::lexer::{lex, TokenKind};

fn kinds(src: &str) -> Vec<TokenKind> {
    lex(src).unwrap().into_iter().map(|t| t.kind).collect()
}

#[test]
fn empty_input_lexes_to_no_tokens() {
    let toks = lex("").unwrap();
    assert_eq!(toks.len(), 0);
}

#[test]
fn punctuation_and_identifiers() {
    let toks = lex("A2.a_func();").unwrap();
    let ks: Vec<TokenKind> = toks.iter().map(|t| t.kind).collect();
    assert_eq!(
        ks,
        vec![
            TokenKind::Ident,
            TokenKind::Dot,
            TokenKind::Ident,
            TokenKind::ParenLeft,
            TokenKind::ParenRight,
            TokenKind::Semicolon,
        ]
    );
    assert_eq!(toks[0].lexeme, "A2");
    assert_eq!(toks[2].lexeme, "a_func");
}

#[test]
fn braces_lex_to_brace_tokens() {
    assert_eq!(kinds("{ }"), vec![TokenKind::BraceLeft, TokenKind::BraceRight]);
}

#[test]
fn keywords_win_over_identifiers_of_same_spelling() {
    assert_eq!(kinds("function"), vec![TokenKind::Function]);
    assert_eq!(kinds("module"), vec![TokenKind::Module]);
    assert_eq!(kinds("using"), vec![TokenKind::Using]);
}

#[test]
fn longer_words_stay_identifiers() {
    assert_eq!(kinds("functional"), vec![TokenKind::Ident]);
    assert_eq!(kinds("modules"), vec![TokenKind::Ident]);
    assert_eq!(kinds("using2"), vec![TokenKind::Ident]);
}

#[test]
fn whitespace_is_skipped() {
    let toks = lex("  \t\n module \r\n x1 ").unwrap();
    let ks: Vec<TokenKind> = toks.iter().map(|t| t.kind).collect();
    assert_eq!(ks, vec![TokenKind::Module, TokenKind::Ident]);
    assert_eq!(toks[1].lexeme, "x1");
}

#[test]
fn single_letter_word_is_an_error() {
    // An identifier needs a letter plus at least one more character.
    assert_eq!(lex("a").unwrap_err(), ResolveError::UnexpectedToken);
    assert_eq!(lex("module a ;").unwrap_err(), ResolveError::UnexpectedToken);
}

#[test]
fn two_character_identifier_is_accepted() {
    assert_eq!(kinds("ab"), vec![TokenKind::Ident]);
    assert_eq!(kinds("a_"), vec![TokenKind::Ident]);
    assert_eq!(kinds("a1"), vec![TokenKind::Ident]);
}

#[test]
fn leading_digit_or_underscore_is_an_error() {
    assert_eq!(lex("1abc").unwrap_err(), ResolveError::UnexpectedToken);
    assert_eq!(lex("_ab").unwrap_err(), ResolveError::UnexpectedToken);
}

#[test]
fn unknown_punctuation_is_an_error() {
    assert_eq!(lex("module m1 [").unwrap_err(), ResolveError::UnexpectedToken);
}
