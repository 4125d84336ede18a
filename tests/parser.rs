use sql_parser::parser::{
    Expected, Expr, Ident, ParseError, Parser, Select, SelectItem, Statement, Table,
};
use sql_parser::tokenizer::{Keyword, LexError, Token, Word};
use sql_parser::Query;

fn column(name: &str) -> SelectItem {
    SelectItem::UnnamedExpr(Expr::Identifier(Ident::new(name.into())))
}

fn parse(text: &str) -> Result<Statement, ParseError> {
    Parser::new().parse(text)
}

#[test]
fn parser_it_works() {
    let result = Parser::new().parse("select 1 from table_1".into());

    println!("{:?}", result);
}

#[test]
fn mod_it_works() {
    let result = Parser::new().parse("select hi from table_1 where 1 = 1".into());

    println!("{:?}", result);
}

#[test]
fn select_number_from_table() {
    assert_eq!(
        parse("select 1 from table_1"),
        Ok(Statement::Select(Select::new(None, vec![column("1")], Some(Table::new("TABLE_1".into())))))
    );
}

#[test]
fn equals_sign_is_not_a_token() {
    assert_eq!(
        parse("select hi from table_1 where 1 = 1"),
        Err(ParseError::Lex(LexError::LexUnrecognizedCharacter { ch: '=', position: 31 }))
    );
}

#[test]
fn happy_path() {
    assert_eq!(
        parse("select col from table_1"),
        Ok(Statement::Select(Select::new(
            None,
            vec![column("COL")],
            Some(Table::new("TABLE_1".into()))
        )))
    );
}

#[test]
fn multi_column_projection() {
    assert_eq!(
        parse("select a, b from t"),
        Ok(Statement::Select(Select::new(
            None,
            vec![column("A"), column("B")],
            Some(Table::new("T".into()))
        )))
    );
}

fn top_level(found: Token) -> Result<Statement, ParseError> {
    Err(ParseError::UnexpectedTopLevelToken { index: 0, found })
}

fn in_clause(index: usize, expected: Expected, found: Token) -> Result<Statement, ParseError> {
    Err(ParseError::UnexpectedTokenInClause { index, expected, found })
}

fn word(text: &str, keyword: Keyword) -> Token {
    Token::Word(Word::new(text.into(), keyword))
}

#[test]
fn unrecognized_statement() {
    assert_eq!(parse("drop table t"), top_level(word("DROP", Keyword::NoKeyword)));
    assert_eq!(parse("1 + 2"), top_level(Token::Number(1)));
}

#[test]
fn missing_comma_is_rejected() {
    assert_eq!(
        parse("select a b from t"),
        in_clause(4, Expected::EndOfStatement, word("B", Keyword::NoKeyword))
    );
}

#[test]
fn comma_separated_items_with_loose_spacing() {
    assert_eq!(
        parse("select a ,b,   42"),
        Ok(Statement::Select(Select::new(None, vec![column("A"), column("B"), column("42")], None)))
    );
}

#[test]
fn where_clause_is_read() {
    assert_eq!(
        parse("select a from t where ok"),
        Ok(Statement::Select(Select::new(
            Some(Expr::Identifier(Ident::new("OK".into()))),
            vec![column("A")],
            Some(Table::new("T".into()))
        )))
    );
    assert_eq!(
        parse("select a where 7"),
        Ok(Statement::Select(Select::new(
            Some(Expr::Identifier(Ident::new("7".into()))),
            vec![column("A")],
            None
        )))
    );
}

#[test]
fn clause_errors() {
    assert_eq!(parse("select"), in_clause(1, Expected::Expression, Token::EOF));
    assert_eq!(
        parse("select from t"),
        in_clause(2, Expected::Expression, word("FROM", Keyword::From))
    );
    assert_eq!(parse("select a,"), in_clause(4, Expected::Expression, Token::EOF));
    assert_eq!(parse("select a from"), in_clause(5, Expected::TableName, Token::EOF));
    assert_eq!(parse("select a from 3"), in_clause(6, Expected::TableName, Token::Number(3)));
    assert_eq!(
        parse("select a from where"),
        in_clause(6, Expected::TableName, word("WHERE", Keyword::Where))
    );
    assert_eq!(parse("select a from t where"), in_clause(9, Expected::Expression, Token::EOF));
    assert_eq!(
        parse("select a from t having"),
        in_clause(8, Expected::EndOfStatement, word("HAVING", Keyword::Having))
    );
    assert_eq!(parse("select a + b"), in_clause(4, Expected::EndOfStatement, Token::Plus));
}

#[test]
fn blank_input_is_rejected() {
    assert_eq!(parse(""), top_level(Token::EOF));
    assert_eq!(parse("   "), top_level(Token::Whitespace));
}

#[test]
fn leading_whitespace_is_rejected() {
    assert_eq!(parse(" select a"), top_level(Token::Whitespace));
}

#[test]
fn lex_errors_pass_through() {
    assert_eq!(
        parse("select 99999999999999999999"),
        Err(ParseError::Lex(LexError::LexOverflow { position: 7 }))
    );
}

#[test]
fn parser_can_be_reused() {
    let mut parser = Parser::new();
    assert_eq!(parser.parse("drop t"), top_level(word("DROP", Keyword::NoKeyword)));
    assert_eq!(
        parser.parse("select x"),
        Ok(Statement::Select(Select::new(None, vec![column("X")], None)))
    );
}

#[test]
fn query_holds_its_body() {
    let q = Query::new(Token::Word(Word::new("SELECT".into(), Keyword::Select)));
    let shown = format!("{:?}", q);
    assert!(shown.contains("Query"));
    assert!(shown.contains("SELECT"));
}
