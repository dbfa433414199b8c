use vstd::prelude::*;
use vstd::string::StringExecFns;

use crate::cursor::{spec_field_value, Cursor, CursorView};
use crate::error::Error;
use crate::sql::ast::{self, StatementView};
use crate::sql::parser::{lemma_create_parse_unique, parse_create_statement, spec_parse_statement};
use crate::value::{Value, ValueView};

verus! {

/// A table of the schema: its name, its columns and the root page of its B-tree.
#[derive(Debug, Clone)]
pub struct TableMetadata {
    pub name: String,
    pub columns: Vec<ast::ColumnDef>,
    pub first_page: usize,
}

/// Field `k` of a cursor's row as `Cursor::field` reads it.
pub open spec fn row_field(c: CursorView, k: int) -> Result<Option<ValueView>, Error> {
    if 0 <= k < c.fields.len() {
        match spec_field_value(c.payload, c.fields[k]) {
            Ok(v) => Ok(Some(v)),
            Err(e) => Err(e),
        }
    } else {
        Ok(None)
    }
}

/// Whether a schema row describes a table: its field 0 is the text `table`.
pub open spec fn is_table_row(c: CursorView) -> bool {
    row_field(c, 0) == Ok::<Option<ValueView>, Error>(Some(ValueView::Text("table"@)))
}

/// Whether a schema row for a table is complete: field 4 is `CREATE TABLE` text that parses to
/// `name` and `columns`, field 3 is the positive root page number `first_page`.
pub open spec fn table_row_holds(c: CursorView, name: String, columns: Seq<ast::ColumnDef>, first_page: usize) -> bool {
    &&& row_field(c, 4) matches Ok(Some(ValueView::Text(sql)))
        && spec_parse_statement(sql, Ok::<StatementView, Error>(StatementView::CreateTable { name, columns }))
    &&& row_field(c, 3) matches Ok(Some(ValueView::Int(i))) && first_page as int == i
    &&& first_page > 0
}

/// The `CREATE` text of a schema row, when its field 4 holds text.
pub open spec fn create_text(c: CursorView) -> Option<Seq<char>> {
    match row_field(c, 4) {
        Ok(Some(ValueView::Text(sql))) => Some(sql),
        _ => None,
    }
}

/// Whether field 3 of a schema row holds a positive integer that a `usize` holds.
pub open spec fn has_root_page(c: CursorView) -> bool {
    row_field(c, 3) matches Ok(Some(ValueView::Int(i))) && 0 < i <= usize::MAX
}

/// Whether `sql` parses to a `CREATE TABLE` statement.
pub open spec fn creates_table(sql: Seq<char>) -> bool {
    exists|name: String, columns: Seq<ast::ColumnDef>|
        #[trigger] spec_parse_statement(sql, Ok::<StatementView, Error>(StatementView::CreateTable { name, columns }))
}

/// The errors that a table's schema row can give, field 4 before field 3: field 4 cannot be
/// read, is not text, or is text that does not parse to `CREATE TABLE` (an error of the
/// tokenizer or parser, or `ExpectedCreateStatement` for a `SELECT`); then field 3 cannot be
/// read or is not a positive page number.
pub open spec fn schema_row_error(c: CursorView, e: Error) -> bool {
    ||| row_field(c, 4) == Err::<Option<ValueView>, Error>(e)
    ||| (e == Error::InvalidSchemaField(4) && create_text(c) is None && row_field(c, 4) is Ok)
    ||| (create_text(c) is Some && spec_parse_statement(create_text(c)->Some_0, Err::<StatementView, Error>(e)))
    ||| (create_text(c) is Some && e == Error::ExpectedCreateStatement && exists|v: StatementView|
        #[trigger] spec_parse_statement(create_text(c)->Some_0, Ok::<StatementView, Error>(v)) && v is Select)
    ||| (create_text(c) is Some && creates_table(create_text(c)->Some_0) && row_field(c, 3) == Err::<Option<ValueView>, Error>(e))
    ||| (create_text(c) is Some && creates_table(create_text(c)->Some_0) && e == Error::InvalidSchemaField(3)
        && row_field(c, 3) is Ok && !has_root_page(c))
}

impl TableMetadata {
    /// The table that a schema row describes, or `None` for a row of another kind (an index,
    /// a view, a trigger). The fields it reads must have been materialized.
    pub fn from_cursor(cursor: &Cursor) -> (r: Result<Option<TableMetadata>, Error>)
        requires
            cursor.wf(),
        ensures
            match r {
                Ok(None) => row_field(cursor@, 0) matches Ok(Some(v)) && v != ValueView::Text("table"@),
                Ok(Some(m)) => is_table_row(cursor@) && table_row_holds(cursor@, m.name, m.columns@, m.first_page),
                Err(e) => (e == Error::InvalidSchemaField(0) && row_field(cursor@, 0) == Ok::<Option<ValueView>, Error>(None))
                    || row_field(cursor@, 0) == Err::<Option<ValueView>, Error>(e)
                    || (is_table_row(cursor@) && schema_row_error(cursor@, e)),
            },
            is_table_row(cursor@) && create_text(cursor@) is Some && creates_table(create_text(cursor@)->Some_0)
                && has_root_page(cursor@) ==> r matches Ok(Some(_)),
    {
        let type_value = match cursor.field(0)? {
            Some(v) => v,
            None => return Err(Error::InvalidSchemaField(0)),
        };
        let is_table = match &type_value {
            Value::String(s) => *s == String::from_str("table"),
            _ => false,
        };
        proof {
            reveal_strlit("table");
        }
        if !is_table {
            return Ok(None);
        }
        let create_stmt = match cursor.field(4)? {
            Some(Value::String(s)) => s,
            _ => return Err(Error::InvalidSchemaField(4)),
        };
        let create = parse_create_statement(create_stmt.as_str());
        proof {
            if is_table_row(cursor@) && create_text(cursor@) is Some && creates_table(create_text(cursor@)->Some_0) {
                let sql = create_text(cursor@)->Some_0;
                let (name, columns) = choose|name: String, columns: Seq<ast::ColumnDef>|
                    #[trigger] spec_parse_statement(sql, Ok::<StatementView, Error>(StatementView::CreateTable { name, columns }));
                if create is Err {
                    let e = create->Err_0;
                    if spec_parse_statement(sql, Err::<StatementView, Error>(e)) {
                        lemma_create_parse_unique(sql, name, columns, Err::<StatementView, Error>(e));
                    } else {
                        let v = choose|v: StatementView|
                            #[trigger] spec_parse_statement(sql, Ok::<StatementView, Error>(v)) && v is Select;
                        lemma_create_parse_unique(sql, name, columns, Ok::<StatementView, Error>(v));
                    }
                }
            }
        }
        let create = create?;
        proof {
            let sql = create_text(cursor@)->Some_0;
            assert(spec_parse_statement(sql, Ok::<StatementView, Error>(StatementView::CreateTable { name: create.name, columns: create.columns@ })));
            assert(creates_table(sql));
        }
        let first_page = match cursor.field(3)? {
            Some(Value::Int(i)) => {
                if i <= 0 || i as u64 > usize::MAX as u64 {
                    return Err(Error::InvalidSchemaField(3));
                }
                i as usize
            },
            _ => return Err(Error::InvalidSchemaField(3)),
        };
        Ok(Some(TableMetadata { name: create.name, columns: create.columns, first_page }))
    }
}

} // verus!
