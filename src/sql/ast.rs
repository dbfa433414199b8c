use vstd::prelude::*;

verus! {

#[derive(Debug, Clone, PartialEq, Eq)]
pub enum Statement {
    Select(SelectStatement),
    CreateTable(CreateTableStatement),
}

#[derive(Debug, Clone, PartialEq, Eq)]
pub struct CreateTableStatement {
    pub name: String,
    pub columns: Vec<ColumnDef>,
}

#[derive(Debug, Clone, PartialEq, Eq)]
pub struct ColumnDef {
    pub name: String,
    pub col_type: Type,
}

#[derive(Debug, Copy, Clone, PartialEq, Eq, Structural)]
pub enum Type {
    Integer,
    Real,
    Text,
    Blob,
}

#[derive(Debug, Clone, PartialEq, Eq)]
pub struct SelectStatement {
    pub core: SelectCore,
}

#[derive(Debug, Clone, PartialEq, Eq)]
pub struct SelectCore {
    pub result_columns: Vec<ResultColumn>,
    pub from: SelectFrom,
}

#[derive(Debug, Clone, PartialEq, Eq)]
pub enum ResultColumn {
    Star,
    Expr(ExprResultColumn),
}

#[derive(Debug, Clone, PartialEq, Eq)]
pub struct ExprResultColumn {
    pub expr: Expr,
    pub alias: Option<String>,
}

#[derive(Debug, Clone, PartialEq, Eq)]
pub enum Expr {
    Column(Column),
}

#[derive(Debug, Clone, PartialEq, Eq)]
pub struct Column {
    pub name: String,
}

#[derive(Debug, Clone, PartialEq, Eq)]
pub enum SelectFrom {
    Table(String),
}

/// A statement with its lists as sequences.
pub enum StatementView {
    Select { result_columns: Seq<ResultColumn>, table: String },
    CreateTable { name: String, columns: Seq<ColumnDef> },
}

impl View for Statement {
    type V = StatementView;

    open spec fn view(&self) -> StatementView {
        match self {
            Statement::Select(s) => StatementView::Select {
                result_columns: s.core.result_columns@,
                table: match s.core.from {
                    SelectFrom::Table(t) => t,
                },
            },
            Statement::CreateTable(c) => StatementView::CreateTable { name: c.name, columns: c.columns@ },
        }
    }
}

} // verus!
