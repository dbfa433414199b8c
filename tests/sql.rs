use rqlite::error::Error;
use rqlite::sql::ast::{
    Column, ColumnDef, CreateTableStatement, Expr, ExprResultColumn, ResultColumn, SelectCore,
    SelectFrom, SelectStatement, Statement, Type,
};
use rqlite::sql::parser::{parse_create_statement, parse_statement};
use rqlite::sql::tokenizer::{tokenize, Token};

#[test]
fn create_table() {
    let input = "create table table1(key integer, value text)";
    let statement = parse_statement(input).unwrap();
    assert_eq!(
        statement,
        Statement::CreateTable(CreateTableStatement {
            name: "table1".to_string(),
            columns: vec![
                ColumnDef {
                    name: "key".to_string(),
                    col_type: Type::Integer,
                },
                ColumnDef {
                    name: "value".to_string(),
                    col_type: Type::Text,
                }
            ]
        })
    )
}

#[test]
fn select_star_from_table() {
    let input = "select * from table1";
    let statement = parse_statement(input).unwrap();
    assert_eq!(
        statement,
        Statement::Select(SelectStatement {
            core: SelectCore {
                result_columns: vec![ResultColumn::Star],
                from: SelectFrom::Table("table1".to_string()),
            },
        })
    );
}

#[test]
fn select_columns_from_table() {
    let input = "select col1 as first, col2 from table1";
    let statement = parse_statement(input).unwrap();
    assert_eq!(
        statement,
        Statement::Select(SelectStatement {
            core: SelectCore {
                result_columns: vec![
                    ResultColumn::Expr(ExprResultColumn {
                        expr: Expr::Column(Column {
                            name: "col1".to_string()
                        }),
                        alias: Some("first".to_string())
                    }),
                    ResultColumn::Expr(ExprResultColumn {
                        expr: Expr::Column(Column {
                            name: "col2".to_string()
                        }),
                        alias: None
                    }),
                ],
                from: SelectFrom::Table("table1".to_string()),
            },
        })
    );
}

#[test]
fn tokenize_select() {
    let input = "SeLect *, col as c FroM TableName_1;";
    let expected = vec![
        Token::Select,
        Token::Star,
        Token::Comma,
        Token::Identifier("col".to_string()),
        Token::As,
        Token::Identifier("c".to_string()),
        Token::From,
        Token::Identifier("tablename_1".to_string()),
        Token::SemiColon,
    ];
    assert_eq!(tokenize(input).unwrap(), expected);
}

#[test]
fn tokenize_invalid_char() {
    let input = "select @ from table;";
    assert!(tokenize(input).is_err());
}

#[test]
fn tokenize_reports_the_offending_character() {
    assert_eq!(tokenize("select @"), Err(Error::UnexpectedCharacter('@')));
}

#[test]
fn tokenize_skips_whitespace_and_lowercases_words() {
    assert_eq!(
        tokenize("\tCREATE  Table\nT_1 ( )").unwrap(),
        vec![
            Token::Create,
            Token::Table,
            Token::Identifier("t_1".to_string()),
            Token::LPar,
            Token::RPar,
        ]
    );
}

#[test]
fn identifier_text_is_exposed() {
    assert_eq!(Token::Identifier("abc".to_string()).as_identifier(), Some("abc"));
    assert_eq!(Token::Comma.as_identifier(), None);
}

#[test]
fn parse_column_types() {
    let c = parse_create_statement("create table t(a real, b blob, c string, d integer)").unwrap();
    let types: Vec<Type> = c.columns.iter().map(|c| c.col_type).collect();
    assert_eq!(types, vec![Type::Real, Type::Blob, Type::Text, Type::Integer]);
}

#[test]
fn parse_unknown_column_type() {
    assert_eq!(
        parse_statement("create table t(a date)"),
        Err(Error::UnsupportedType("date".to_string()))
    );
}

#[test]
fn parse_empty_input() {
    assert_eq!(parse_statement("  "), Err(Error::UnexpectedEndOfInput));
}

#[test]
fn parse_truncated_select() {
    assert_eq!(parse_statement("select a,"), Err(Error::UnexpectedEndOfInput));
}

#[test]
fn parse_unexpected_token() {
    assert_eq!(
        parse_statement("select a from (x)"),
        Err(Error::UnexpectedToken(Token::LPar))
    );
    assert_eq!(
        parse_statement("table x"),
        Err(Error::UnexpectedToken(Token::Table))
    );
}

#[test]
fn create_statement_rejects_select() {
    assert_eq!(
        parse_create_statement("select * from t"),
        Err(Error::ExpectedCreateStatement)
    );
}
