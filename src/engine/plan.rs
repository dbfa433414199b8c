use vstd::prelude::*;

use crate::cursor::Scanner;
use crate::db::TableMetadata;
use crate::error::Error;
use crate::sql::ast::{self, ColumnDef, Expr, ResultColumn, SelectFrom};

use super::operator::{Operator, SeqScan};

verus! {

/// The index of the first table named `name` from index `i` on, if any.
pub open spec fn find_table(tables: Seq<TableMetadata>, name: Seq<char>, i: int) -> Option<int>
    decreases tables.len() - i,
{
    if i < 0 || i >= tables.len() {
        None
    } else if tables[i].name@ == name {
        Some(i)
    } else {
        find_table(tables, name, i + 1)
    }
}

/// The index of the first column named `name` from index `i` on, if any.
pub open spec fn find_column(columns: Seq<ColumnDef>, name: Seq<char>, i: int) -> Option<int>
    decreases columns.len() - i,
{
    if i < 0 || i >= columns.len() {
        None
    } else if columns[i].name@ == name {
        Some(i)
    } else {
        find_column(columns, name, i + 1)
    }
}

/// The record field indices that the result columns `rcs` select from a table with
/// `columns`: every index for `*`, the first column of that name otherwise.
pub open spec fn field_indices(columns: Seq<ColumnDef>, rcs: Seq<ResultColumn>) -> Result<Seq<usize>, Error>
    decreases rcs.len(),
{
    if rcs.len() == 0 {
        Ok(Seq::empty())
    } else {
        match field_indices(columns, rcs.drop_last()) {
            Err(e) => Err(e),
            Ok(fields) => match rcs.last() {
                ResultColumn::Star => Ok(fields + Seq::new(columns.len(), |i: int| i as usize)),
                ResultColumn::Expr(e) => match e.expr {
                    Expr::Column(col) => match find_column(columns, col.name@, 0) {
                        Some(i) => Ok(fields.push(i as usize)),
                        None => Err(Error::UnknownColumn(col.name)),
                    },
                },
            },
        }
    }
}

proof fn lemma_field_indices_error_persists(columns: Seq<ColumnDef>, rcs: Seq<ResultColumn>, i: int, e: Error)
    requires
        0 <= i <= rcs.len(),
        field_indices(columns, rcs.subrange(0, i)) == Err::<Seq<usize>, Error>(e),
    ensures
        field_indices(columns, rcs) == Err::<Seq<usize>, Error>(e),
    decreases rcs.len() - i,
{
    if i < rcs.len() {
        assert(rcs.subrange(0, i + 1).drop_last() =~= rcs.subrange(0, i));
        lemma_field_indices_error_persists(columns, rcs, i + 1, e);
    } else {
        assert(rcs.subrange(0, i) =~= rcs);
    }
}

/// Turns statements into operators over the tables of a schema.
pub struct Planner<'d> {
    tables: &'d Vec<TableMetadata>,
}

impl<'d> Planner<'d> {
    pub fn new(tables: &'d Vec<TableMetadata>) -> (r: Self)
        ensures
            r.tables() == tables@,
    {
        Self { tables }
    }

    pub closed spec fn tables(&self) -> Seq<TableMetadata> {
        self.tables@
    }

    /// A sequential scan for a `SELECT`; other statements cannot be run.
    pub fn compile(self, statement: &ast::Statement) -> (r: Result<Operator, Error>)
        ensures
            match statement {
                ast::Statement::Select(s) => select_plan(self.tables(), *s, r),
                _ => r == Err::<Operator, Error>(Error::UnsupportedStatement),
            },
    {
        match statement {
            ast::Statement::Select(s) => self.compile_select(s),
            _ => Err(Error::UnsupportedStatement),
        }
    }

    fn compile_select(self, select: &ast::SelectStatement) -> (r: Result<Operator, Error>)
        ensures
            select_plan(self.tables(), *select, r),
    {
        let SelectFrom::Table(table_name) = &select.core.from;
        let tables = self.tables;
        let mut t: usize = 0;
        while t < tables.len() && tables[t].name != *table_name
            invariant
                t <= tables@.len(),
                find_table(tables@, table_name@, 0) == find_table(tables@, table_name@, t as int),
            decreases tables@.len() - t,
        {
            t = t + 1;
        }
        if t == tables.len() {
            return Err(Error::UnknownTable(table_name.clone()));
        }
        let table = &tables[t];
        let result_columns = &select.core.result_columns;
        let mut columns: Vec<usize> = Vec::new();
        let mut k: usize = 0;
        proof {
            assert(result_columns@.subrange(0, 0) =~= Seq::<ResultColumn>::empty());
        }
        while k < result_columns.len()
            invariant
                t < tables@.len(),
                *table == tables@[t as int],
                find_table(tables@, table_name@, 0) == Some(t as int),
                self.tables() == tables@,
                result_columns@ == select.core.result_columns@,
                select.core.from == SelectFrom::Table(*table_name),
                k <= result_columns@.len(),
                field_indices(table.columns@, result_columns@.subrange(0, k as int)) == Ok::<Seq<usize>, Error>(columns@),
            decreases result_columns@.len() - k,
        {
            let ghost before = columns@;
            proof {
                assert(result_columns@.subrange(0, k + 1).drop_last() =~= result_columns@.subrange(0, k as int));
            }
            match &result_columns[k] {
                ResultColumn::Star => {
                    let mut i: usize = 0;
                    while i < table.columns.len()
                        invariant
                t < tables@.len(),
                *table == tables@[t as int],
                find_table(tables@, table_name@, 0) == Some(t as int),
                self.tables() == tables@,
                result_columns@ == select.core.result_columns@,
                select.core.from == SelectFrom::Table(*table_name),
                            k < result_columns@.len(),
                            i <= table.columns@.len(),
                            columns@ == before + Seq::new(i as nat, |j: int| j as usize),
                        decreases table.columns@.len() - i,
                    {
                        columns.push(i);
                        proof {
                            assert(columns@ =~= before + Seq::new((i + 1) as nat, |j: int| j as usize));
                        }
                        i = i + 1;
                    }
                },
                ResultColumn::Expr(e) => {
                    let Expr::Column(col) = &e.expr;
                    let mut i: usize = 0;
                    while i < table.columns.len() && table.columns[i].name != col.name
                        invariant
                t < tables@.len(),
                *table == tables@[t as int],
                find_table(tables@, table_name@, 0) == Some(t as int),
                self.tables() == tables@,
                result_columns@ == select.core.result_columns@,
                select.core.from == SelectFrom::Table(*table_name),
                            k < result_columns@.len(),
                            i <= table.columns@.len(),
                            find_column(table.columns@, col.name@, 0) == find_column(table.columns@, col.name@, i as int),
                        decreases table.columns@.len() - i,
                    {
                        i = i + 1;
                    }
                    if i == table.columns.len() {
                        proof {
                            lemma_field_indices_error_persists(table.columns@, result_columns@, k + 1, Error::UnknownColumn(col.name));
                        }
                        return Err(Error::UnknownColumn(col.name.clone()));
                    }
                    columns.push(i);
                },
            }
            k = k + 1;
        }
        proof {
            assert(result_columns@.subrange(0, k as int) =~= result_columns@);
        }
        Ok(Operator::SeqScan(SeqScan::new(columns, Scanner::new(table.first_page))))
    }
}

/// What compiling `select` against `tables` gives: the first table of that name, or
/// `UnknownTable`; then the field indices of its result columns, or the first
/// `UnknownColumn`; and a scan of those fields from the table's root page.
pub open spec fn select_plan(tables: Seq<TableMetadata>, select: ast::SelectStatement, r: Result<Operator, Error>) -> bool {
    let SelectFrom::Table(name) = select.core.from;
    match find_table(tables, name@, 0) {
        None => r == Err::<Operator, Error>(Error::UnknownTable(name)),
        Some(i) => match field_indices(tables[i].columns@, select.core.result_columns@) {
            Err(e) => r == Err::<Operator, Error>(e),
            Ok(fields) => r matches Ok(Operator::SeqScan(scan)) && {
                &&& scan.fields@ == fields
                &&& scan.scanner@.initial_page == tables[i].first_page
                &&& scan.scanner@.stack.len() == 0
                &&& scan.scanner.wf()
            },
        },
    }
}

} // verus!
