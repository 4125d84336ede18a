use sql_parser::chars::{is_decimal_digit, is_word_char, is_word_start};
use sql_parser::tokenizer::{Keyword, LexError, Token, Tokenizer, Word};

fn tokens_of(text: &str) -> Result<Vec<Token>, LexError> {
    let mut tokenizer = Tokenizer::new();
    tokenizer.init(text);
    tokenizer.tokenize()
}

fn word(text: &str, keyword: Keyword) -> Token {
    Token::Word(Word::new(text.into(), keyword))
}

#[test]
fn multiple_token_types() {
    let mut tokenizer = Tokenizer::new();
    tokenizer.init("select  )(+-*".into());
    let result = tokenizer.tokenize();
    assert_eq!(
        result,
        Ok(vec![
            Token::Word(Word::new("SELECT".into(), Keyword::Select)),
            Token::Whitespace,
            Token::RightParen,
            Token::LeftParen,
            Token::Plus,
            Token::Minus,
            Token::Asterisk,
            Token::EOF
        ])
    );
}

#[test]
fn equation() {
    let mut tokenizer = Tokenizer::new();
    tokenizer.init("1234 + 4567".into());
    let result = tokenizer.tokenize();

    assert_eq!(
        result,
        Ok(vec![
            Token::Number(1234),
            Token::Whitespace,
            Token::Plus,
            Token::Whitespace,
            Token::Number(4567),
            Token::EOF
        ])
    );
}

#[test]
fn query_like() {
    let mut tokenizer = Tokenizer::new();
    tokenizer.init("select somecol + 1, col_2 from sometable".into());
    let result = tokenizer.tokenize();

    assert_eq!(
        result,
        Ok(vec![
            Token::Word(Word::new("SELECT".into(), Keyword::Select)),
            Token::Whitespace,
            Token::Word(Word::new("SOMECOL".into(), Keyword::NoKeyword)),
            Token::Whitespace,
            Token::Plus,
            Token::Whitespace,
            Token::Number(1),
            Token::Comma,
            Token::Whitespace,
            Token::Word(Word::new("COL_2".into(), Keyword::NoKeyword)),
            Token::Whitespace,
            Token::Word(Word::new("FROM".into(), Keyword::From)),
            Token::Whitespace,
            Token::Word(Word::new("SOMETABLE".into(), Keyword::NoKeyword)),
            Token::EOF
        ])
    );
}

#[test]
fn iterable_tokenizer() {
    let mut tokenizer = Tokenizer::new();
    tokenizer.init("abc 123".into());
    let result = tokenizer.tokenize_iter();

    let vec_result: Vec<Token> = result.unwrap();
    assert_eq!(
        vec_result,
        vec![
            Token::Word(Word::new("ABC".into(), Keyword::NoKeyword)),
            Token::Whitespace,
            Token::Number(123)
        ]
    );
}

#[test]
fn test_string_example() {
    assert_eq!(
        tokens_of("test string"),
        Ok(vec![
            word("TEST", Keyword::NoKeyword),
            Token::Whitespace,
            word("STRING", Keyword::NoKeyword),
            Token::EOF
        ])
    );
}

#[test]
fn retokenizing_gives_the_same_tokens() {
    let mut tokenizer = Tokenizer::new();
    tokenizer.init("select a, b from t");
    let first = tokenizer.tokenize();
    let again = tokenizer.tokenize();
    tokenizer.init("select a, b from t");
    let rebound = tokenizer.tokenize();
    assert_eq!(first, again);
    assert_eq!(first, rebound);
    assert!(first.is_ok());
}

#[test]
fn space_runs_collapse() {
    let expected = Ok(vec![
        word("A", Keyword::NoKeyword),
        Token::Whitespace,
        word("B", Keyword::NoKeyword),
        Token::EOF,
    ]);
    assert_eq!(tokens_of("a b"), expected);
    assert_eq!(tokens_of("a     b"), expected);
    assert_eq!(tokens_of("    "), Ok(vec![Token::Whitespace, Token::EOF]));
}

#[test]
fn keywords_ignore_case() {
    for text in ["select", "SELECT", "SeLeCt"] {
        assert_eq!(tokens_of(text), Ok(vec![word("SELECT", Keyword::Select), Token::EOF]));
    }
    assert_eq!(tokens_of("From"), Ok(vec![word("FROM", Keyword::From), Token::EOF]));
    assert_eq!(tokens_of("where"), Ok(vec![word("WHERE", Keyword::Where), Token::EOF]));
    assert_eq!(tokens_of("having"), Ok(vec![word("HAVING", Keyword::Having), Token::EOF]));
    assert_eq!(tokens_of("group"), Ok(vec![word("GROUP", Keyword::NoKeyword), Token::EOF]));
}

#[test]
fn select_list_round_trip() {
    assert_eq!(
        tokens_of("select a, b from t"),
        Ok(vec![
            word("SELECT", Keyword::Select),
            Token::Whitespace,
            word("A", Keyword::NoKeyword),
            Token::Comma,
            Token::Whitespace,
            word("B", Keyword::NoKeyword),
            Token::Whitespace,
            word("FROM", Keyword::From),
            Token::Whitespace,
            word("T", Keyword::NoKeyword),
            Token::EOF
        ])
    );
}

#[test]
fn largest_number_is_read() {
    let text = i64::MAX.to_string();
    assert_eq!(tokens_of(&text), Ok(vec![Token::Number(i64::MAX), Token::EOF]));
}

#[test]
fn one_more_digit_overflows() {
    let text = format!("{}0", i64::MAX);
    assert_eq!(tokens_of(&text), Err(LexError::LexOverflow { position: 0 }));
    assert_eq!(
        tokens_of("x 99999999999999999999"),
        Err(LexError::LexOverflow { position: 2 })
    );
}

#[test]
fn unrecognized_character_is_reported() {
    assert_eq!(
        tokens_of("a = 1"),
        Err(LexError::LexUnrecognizedCharacter { ch: '=', position: 2 })
    );
}

#[test]
fn empty_input_is_only_the_end_marker() {
    assert_eq!(tokens_of(""), Ok(vec![Token::EOF]));
}

#[test]
fn words_hold_digits_and_underscores_and_unicode_letters() {
    assert_eq!(
        tokens_of("col_2x éte 007"),
        Ok(vec![
            word("COL_2X", Keyword::NoKeyword),
            Token::Whitespace,
            word("ÉTE", Keyword::NoKeyword),
            Token::Whitespace,
            Token::Number(7),
            Token::EOF
        ])
    );
    assert_eq!(tokens_of("straße"), Ok(vec![word("STRASSE", Keyword::NoKeyword), Token::EOF]));
}

#[test]
fn pulling_tokens_one_at_a_time() {
    let mut tokenizer = Tokenizer::new();
    tokenizer.init("ab  (");
    assert_eq!(tokenizer.next_iter(), Ok(word("AB", Keyword::NoKeyword)));
    assert_eq!(tokenizer.next_iter(), Ok(Token::Whitespace));
    assert_eq!(tokenizer.next_iter(), Ok(Token::LeftParen));
    assert_eq!(tokenizer.next_iter(), Ok(Token::EOF));
    assert_eq!(tokenizer.next_iter(), Ok(Token::EOF));
    assert_eq!(tokenizer.tokenize_iter(), Ok(vec![]));
    tokenizer.init("ab");
    assert_eq!(tokenizer.tokenize_iter(), Ok(vec![word("AB", Keyword::NoKeyword)]));
}

#[test]
fn pulling_stops_at_an_error() {
    let mut tokenizer = Tokenizer::new();
    tokenizer.init("a;b");
    assert_eq!(tokenizer.next_iter(), Ok(word("A", Keyword::NoKeyword)));
    let err = Err(LexError::LexUnrecognizedCharacter { ch: ';', position: 1 });
    assert_eq!(tokenizer.next_iter(), err);
    assert_eq!(tokenizer.next_iter(), err);
}

#[test]
fn keyword_table_lookup() {
    assert_eq!(Keyword::from_word("SELECT"), Keyword::Select);
    assert_eq!(Keyword::from_word("FROM"), Keyword::From);
    assert_eq!(Keyword::from_word("WHERE"), Keyword::Where);
    assert_eq!(Keyword::from_word("HAVING"), Keyword::Having);
    assert_eq!(Keyword::from_word("select"), Keyword::NoKeyword);
    assert_eq!(Keyword::from_word("ORDER"), Keyword::NoKeyword);
}

#[test]
fn duplicate_copies_a_token() {
    let t = word("ABC", Keyword::NoKeyword);
    assert_eq!(t.duplicate(), t);
    assert_eq!(Token::Number(-4).duplicate(), Token::Number(-4));
}

#[test]
fn non_ascii_numerals_continue_words() {
    assert_eq!(tokens_of("a²"), Ok(vec![word("A²", Keyword::NoKeyword), Token::EOF]));
    assert_eq!(
        tokens_of("²"),
        Err(LexError::LexUnrecognizedCharacter { ch: '²', position: 0 })
    );
}

#[test]
fn character_classes() {
    assert!(is_word_start('q') && is_word_start('Ж') && !is_word_start('_') && !is_word_start('4'));
    assert!(is_word_char('_') && is_word_char('4') && is_word_char('٣') && !is_word_char(' '));
    assert!(is_decimal_digit('0') && is_decimal_digit('9') && !is_decimal_digit('٣'));
}

#[test]
fn one_whitespace_token_per_space_run() {
    let tokens = tokens_of(" a  b,   c ").unwrap();
    let count = tokens.iter().filter(|t| **t == Token::Whitespace).count();
    assert_eq!(count, 4);
}

#[test]
fn space_run_length_does_not_change_tokens() {
    let short = tokens_of("x,y +1");
    let long = tokens_of("x,y      +1");
    assert_eq!(short, long);
    let mut a = Tokenizer::new();
    a.init("select  a");
    let mut b = Tokenizer::new();
    b.init("select a");
    assert_eq!(a.tokenize_iter(), b.tokenize_iter());
}
