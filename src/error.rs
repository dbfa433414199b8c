use vstd::prelude::*;

use crate::sql::tokenizer::Token;

verus! {

/// Everything that can go wrong while decoding a database file or a statement.
#[derive(Debug, Clone, PartialEq, Eq)]
pub enum Error {
    /// The file does not start with the sixteen bytes `"SQLite format 3\0"`.
    InvalidHeaderPrefix,
    /// The page size field holds neither 1 nor a power of two from 512 to 32768.
    InvalidPageSize(u16),
    /// A page header starts with a type byte other than a table leaf or interior page.
    UnknownPageType(u8),
    /// A header, cell, record or field runs past the end of the bytes that hold it.
    Truncated,
    /// A length or pointer holds a value that no well-formed file has.
    Malformed,
    /// A payload size was asked of an interior page, whose cells carry none.
    NoPayloadOnInteriorPage,
    /// A record header holds a reserved type code (10 or 11) or a negative one.
    UnsupportedFieldType(i64),
    /// A text field is not valid UTF-8.
    InvalidUtf8,
    /// The statement holds a character that starts no token.
    UnexpectedCharacter(char),
    /// The statement holds a token where the grammar allows none of its kind.
    UnexpectedToken(Token),
    /// The statement ends where the grammar expects another token.
    UnexpectedEndOfInput,
    /// A column is declared with a type name other than integer, real, blob, text or string.
    UnsupportedType(String),
    /// The schema holds a statement other than `CREATE TABLE` for a table.
    ExpectedCreateStatement,
    /// A statement that can be parsed but not run.
    UnsupportedStatement,
    /// A schema row lacks the field of this index, or holds a value of the wrong kind there.
    InvalidSchemaField(usize),
    /// A query names a table that the schema does not hold.
    UnknownTable(String),
    /// A query names a column that its table does not have.
    UnknownColumn(String),
}

} // verus!
