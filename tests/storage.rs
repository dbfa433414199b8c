use std::sync::Arc;

use rqlite::cursor::{Cursor, PositionedPage, Scanner, ScannerElem};
use rqlite::db::TableMetadata;
use rqlite::engine::operator::Operator;
use rqlite::engine::plan::Planner;
use rqlite::error::Error;
use rqlite::page::{Cell, DbHeader, Page, PageHeader, PageType};
use rqlite::pager::{parse_header, parse_overflow_page, parse_page, HEADER_SIZE};
use rqlite::sql::parser::parse_statement;
use rqlite::value::Value;

const PAGE_SIZE: usize = 4096;

enum Col {
    Int(i64),
    Text(String),
    Null,
}

fn varint(mut v: u64) -> Vec<u8> {
    if v > 0x00ff_ffff_ffff_ffff {
        let mut out = Vec::new();
        let last = (v & 0xff) as u8;
        v >>= 8;
        for i in (0..8).rev() {
            out.push(((v >> (7 * i)) & 0x7f) as u8 | 0x80);
        }
        out.push(last);
        return out;
    }
    let mut groups = vec![(v & 0x7f) as u8];
    v >>= 7;
    while v > 0 {
        groups.push((v & 0x7f) as u8 | 0x80);
        v >>= 7;
    }
    groups.reverse();
    groups
}

fn record(cols: &[Col]) -> Vec<u8> {
    let mut codes = Vec::new();
    let mut body = Vec::new();
    for c in cols {
        match c {
            Col::Null => codes.extend(varint(0)),
            Col::Int(i) => {
                codes.extend(varint(6));
                body.extend(i.to_be_bytes());
            }
            Col::Text(s) => {
                codes.extend(varint(2 * s.len() as u64 + 13));
                body.extend(s.as_bytes());
            }
        }
    }
    let mut header_len = codes.len() + 1;
    if varint(header_len as u64).len() > 1 {
        header_len += 1;
    }
    let mut out = varint(header_len as u64);
    out.extend(codes);
    out.extend(body);
    out
}

fn page_header() -> PageHeader {
    PageHeader {
        page_type: PageType::TableLeaf,
        cell_count: 0,
        rightmost_pointer: None,
    }
}

fn db_header() -> DbHeader {
    DbHeader {
        page_size: PAGE_SIZE as u32,
        page_reserved_size: 0,
    }
}

/// A leaf cell for `payload`, with the part past the local size stored in a chain of new
/// overflow pages appended to `pages`; `first_free` is the number the first one gets.
fn leaf_cell(row_id: u64, payload: &[u8], overflow_pages: &mut Vec<Vec<u8>>, first_free: usize) -> Vec<u8> {
    let (local, overflow) = page_header()
        .local_and_overflow_size(&db_header(), payload.len())
        .unwrap();
    let mut cell = varint(payload.len() as u64);
    cell.extend(varint(row_id));
    cell.extend(&payload[..local]);
    if overflow.is_some() {
        let mut rest = &payload[local..];
        let mut number = first_free + overflow_pages.len();
        cell.extend((number as u32).to_be_bytes());
        while !rest.is_empty() {
            let take = rest.len().min(PAGE_SIZE - 4);
            let next = if take < rest.len() { number + 1 } else { 0 };
            let mut page = (next as u32).to_be_bytes().to_vec();
            page.extend(&rest[..take]);
            page.resize(PAGE_SIZE, 0);
            overflow_pages.push(page);
            rest = &rest[take..];
            number += 1;
        }
    }
    cell
}

fn btree_page(page_num: usize, kind: u8, cells: &[Vec<u8>], rightmost: Option<u32>) -> Vec<u8> {
    let mut page = vec![0u8; PAGE_SIZE];
    let start = if page_num == 1 { HEADER_SIZE } else { 0 };
    page[start] = kind;
    page[start + 3..start + 5].copy_from_slice(&(cells.len() as u16).to_be_bytes());
    let header_size = if let Some(r) = rightmost {
        page[start + 8..start + 12].copy_from_slice(&r.to_be_bytes());
        12
    } else {
        8
    };
    let mut end = PAGE_SIZE;
    for (i, cell) in cells.iter().enumerate() {
        end -= cell.len();
        page[end..end + cell.len()].copy_from_slice(cell);
        let at = start + header_size + 2 * i;
        page[at..at + 2].copy_from_slice(&(end as u16).to_be_bytes());
    }
    page[start + 5..start + 7].copy_from_slice(&(end as u16).to_be_bytes());
    if page_num == 1 {
        page[..16].copy_from_slice(b"SQLite format 3\0");
        page[16..18].copy_from_slice(&(PAGE_SIZE as u16).to_be_bytes());
    }
    page
}

fn interior_cell(left: u32, key: u64) -> Vec<u8> {
    let mut cell = left.to_be_bytes().to_vec();
    cell.extend(varint(key));
    cell
}

fn schema_row(name: &str, root: i64, sql: &str) -> Vec<u8> {
    record(&[
        Col::Text("table".to_string()),
        Col::Text(name.to_string()),
        Col::Text(name.to_string()),
        Col::Int(root),
        Col::Text(sql.to_string()),
    ])
}

/// A database file of a schema page and one leaf page per table (page 2, 3, ...), plus
/// the overflow pages that their rows need.
fn database(tables: &[(&str, &str, Vec<Vec<u8>>)]) -> Vec<u8> {
    let mut overflow = Vec::new();
    let first_free = tables.len() + 2;
    let mut schema = Vec::new();
    let mut leaves = Vec::new();
    for (i, (name, sql, rows)) in tables.iter().enumerate() {
        let root = i + 2;
        schema.push(leaf_cell(i as u64 + 1, &schema_row(name, root as i64, sql), &mut overflow, first_free));
        let cells: Vec<Vec<u8>> = rows
            .iter()
            .enumerate()
            .map(|(r, payload)| leaf_cell(r as u64 + 1, payload, &mut overflow, first_free))
            .collect();
        leaves.push(btree_page(root, 0x0d, &cells, None));
    }
    let mut file = btree_page(1, 0x0d, &schema, None);
    for l in leaves {
        file.extend(l);
    }
    for o in overflow {
        file.extend(o);
    }
    file
}

fn raw_page(file: &[u8], n: usize) -> &[u8] {
    &file[(n - 1) * PAGE_SIZE..n * PAGE_SIZE]
}

fn read_page(file: &[u8], header: &DbHeader, n: usize) -> Arc<Page> {
    Arc::new(parse_page(header, raw_page(file, n), n).unwrap())
}

fn scan(file: &[u8], root: usize) -> Vec<Cursor> {
    let header = parse_header(file).unwrap();
    let mut scanner = Scanner::new(root);
    drain(file, &header, &mut scanner)
}

fn drain(file: &[u8], header: &DbHeader, scanner: &mut Scanner) -> Vec<Cursor> {
    let mut rows = Vec::new();
    loop {
        match scanner.next_elem().unwrap() {
            Some(ScannerElem::Page(n)) => scanner.push_page(read_page(file, header, n)),
            Some(ScannerElem::Cursor(c)) => rows.push(c),
            None => return rows,
        }
    }
}

fn field(file: &[u8], cursor: &mut Cursor, n: usize) -> Value {
    while let Some(p) = cursor.pending_overflow(n) {
        cursor.append_overflow(&parse_overflow_page(raw_page(file, p)));
    }
    cursor.field(n).unwrap().unwrap()
}

fn tables(file: &[u8]) -> Vec<TableMetadata> {
    let mut out = Vec::new();
    for mut c in scan(file, 1) {
        for k in [0, 3, 4] {
            field(file, &mut c, k);
        }
        if let Some(m) = TableMetadata::from_cursor(&c).unwrap() {
            out.push(m);
        }
    }
    out
}

fn show(v: &Value) -> String {
    match v {
        Value::Null => "null".to_string(),
        Value::Int(i) => i.to_string(),
        Value::String(s) => s.clone(),
        Value::Blob(b) => format!("{:?}", b),
        Value::Float(bits) => f64::from_bits(*bits).to_string(),
    }
}

fn query(file: &[u8], sql: &str) -> Vec<String> {
    let header = parse_header(file).unwrap();
    let tables = tables(file);
    let statement = parse_statement(sql).unwrap();
    let Operator::SeqScan(mut seq) = Planner::new(&tables).compile(&statement).unwrap();
    let mut lines = Vec::new();
    for mut c in drain(file, &header, &mut seq.scanner) {
        let values: Vec<String> = seq.fields.iter().map(|&k| show(&field(file, &mut c, k))).collect();
        lines.push(values.join("|"));
    }
    lines
}

#[test]
fn empty_schema_yields_no_rows() {
    let file = database(&[]);
    assert_eq!(scan(&file, 1).len(), 0);
    assert!(tables(&file).is_empty());
}

#[test]
fn single_small_table() {
    let rows = vec![
        record(&[Col::Int(1), Col::Text("a".to_string())]),
        record(&[Col::Int(2), Col::Text("bb".to_string())]),
        record(&[Col::Int(3), Col::Text("ccc".to_string())]),
    ];
    let file = database(&[("t", "CREATE TABLE t(id integer, name text)", rows)]);
    let t = tables(&file);
    assert_eq!(t.len(), 1);
    assert_eq!(t[0].name, "t");
    assert_eq!(t[0].first_page, 2);
    assert_eq!(query(&file, "SELECT * FROM t"), vec!["1|a", "2|bb", "3|ccc"]);
}

#[test]
fn projection_and_reordering() {
    let rows = vec![
        record(&[Col::Int(10), Col::Text("x".to_string()), Col::Int(100)]),
        record(&[Col::Int(20), Col::Text("y".to_string()), Col::Int(200)]),
    ];
    let file = database(&[("t", "CREATE TABLE t(k integer, v text, w integer)", rows)]);
    assert_eq!(query(&file, "SELECT w, k FROM t"), vec!["100|10", "200|20"]);
}

#[test]
fn interior_page_traversal() {
    let mut leaf_a = Vec::new();
    let mut leaf_b = Vec::new();
    let mut unused = Vec::new();
    for id in 1..=100u64 {
        let cell = leaf_cell(id, &record(&[Col::Int(id as i64)]), &mut unused, 0);
        if id <= 50 {
            leaf_a.push(cell);
        } else {
            leaf_b.push(cell);
        }
    }
    let schema = vec![leaf_cell(1, &schema_row("t", 2, "CREATE TABLE t(id integer)"), &mut unused, 0)];
    let mut file = btree_page(1, 0x0d, &schema, None);
    file.extend(btree_page(2, 0x05, &[interior_cell(3, 50)], Some(4)));
    file.extend(btree_page(3, 0x0d, &leaf_a, None));
    file.extend(btree_page(4, 0x0d, &leaf_b, None));
    let expected: Vec<String> = (1..=100).map(|i: i64| i.to_string()).collect();
    assert_eq!(query(&file, "select id from t"), expected);
}

#[test]
fn overflow_payload() {
    let text = "A".repeat(10_000);
    let rows = vec![record(&[Col::Text(text.clone())])];
    let file = database(&[("t", "CREATE TABLE t(body text)", rows)]);
    assert_eq!(file.len(), 4 * PAGE_SIZE);
    let mut cursors = scan(&file, 2);
    assert_eq!(cursors.len(), 1);
    assert_eq!(cursors[0].pending_overflow(0), Some(3));
    assert_eq!(field(&file, &mut cursors[0], 0), Value::String(text.clone()));
    assert_eq!(cursors[0].pending_overflow(0), None);
    assert_eq!(cursors[0].field(0).unwrap(), Some(Value::String(text)));
}

#[test]
fn bad_magic() {
    let mut file = database(&[]);
    file[0] = b's';
    assert_eq!(parse_header(&file).unwrap_err(), Error::InvalidHeaderPrefix);
}

#[test]
fn header_page_sizes() {
    let mut file = database(&[]);
    assert_eq!(parse_header(&file).unwrap().page_size, 4096);
    file[16..18].copy_from_slice(&1u16.to_be_bytes());
    file[20] = 8;
    let h = parse_header(&file).unwrap();
    assert_eq!((h.page_size, h.page_reserved_size), (65536, 8));
    assert_eq!(h.usable_page_size(), 65528);
    file[16..18].copy_from_slice(&3000u16.to_be_bytes());
    assert_eq!(parse_header(&file).unwrap_err(), Error::InvalidPageSize(3000));
    file[16..18].copy_from_slice(&256u16.to_be_bytes());
    assert_eq!(parse_header(&file).unwrap_err(), Error::InvalidPageSize(256));
}

#[test]
fn local_payload_formula() {
    let leaf = page_header();
    let header = db_header();
    assert_eq!(leaf.local_and_overflow_size(&header, 0).unwrap(), (0, None));
    assert_eq!(leaf.local_and_overflow_size(&header, 4061).unwrap(), (4061, None));
    assert_eq!(leaf.local_and_overflow_size(&header, 4062).unwrap(), (489, Some(3573)));
    assert_eq!(leaf.local_and_overflow_size(&header, 10004).unwrap(), (1820, Some(8184)));
    assert_eq!(leaf.local_and_overflow_size(&header, 489 + 4092 + 3572).unwrap(), (4061, Some(4092)));
    assert_eq!(leaf.local_and_overflow_size(&header, 489 + 4092 + 3573).unwrap(), (489, Some(4092 + 3573)));
    let small = DbHeader { page_size: 512, page_reserved_size: 0 };
    assert_eq!(leaf.local_and_overflow_size(&small, 1000).unwrap(), (39, Some(961)));
}

#[test]
fn local_payload_split_sums_to_payload() {
    for (page_size, reserved) in [(512u32, 0u8), (4096, 0), (65536, 0), (1024, 33)] {
        let header = DbHeader { page_size, page_reserved_size: reserved };
        let usable = header.usable_page_size();
        for p in (0..=10 * usable).step_by(7) {
            let (local, overflow) = page_header().local_and_overflow_size(&header, p).unwrap();
            assert_eq!(local + overflow.unwrap_or(0), p);
            assert!(local <= usable - 35);
            if p <= usable - 35 {
                assert_eq!((local, overflow), (p, None));
            }
        }
    }
}

#[test]
fn interior_page_has_no_payload() {
    let interior = PageHeader {
        page_type: PageType::TableInterior,
        cell_count: 0,
        rightmost_pointer: Some(2),
    };
    assert_eq!(
        interior.local_and_overflow_size(&db_header(), 10),
        Err(Error::NoPayloadOnInteriorPage)
    );
    assert_eq!(interior.byte_size(), 12);
    assert_eq!(page_header().byte_size(), 8);
}

#[test]
fn page_parsing_counts_cells() {
    let rows = vec![record(&[Col::Int(7)]), record(&[Col::Null])];
    let file = database(&[("t", "create table t(a integer)", rows)]);
    let header = parse_header(&file).unwrap();
    let page = read_page(&file, &header, 2);
    assert_eq!(page.header.cell_count, 2);
    assert_eq!(page.cells.len(), 2);
    match page.get(0) {
        Some(Cell::TableLeaf(c)) => {
            assert_eq!(c.payload, record(&[Col::Int(7)]));
            assert_eq!(c.first_overflow, None);
        }
        other => panic!("unexpected cell {:?}", other),
    }
    assert!(page.get(2).is_none());
    let schema = read_page(&file, &header, 1);
    assert_eq!(schema.cells.len(), 1);
}

#[test]
fn unknown_page_type() {
    let mut file = database(&[("t", "create table t(a integer)", vec![])]);
    file[PAGE_SIZE] = 0x0a;
    let header = parse_header(&file).unwrap();
    assert_eq!(
        parse_page(&header, raw_page(&file, 2), 2).unwrap_err(),
        Error::UnknownPageType(0x0a)
    );
}

#[test]
fn cell_pointer_into_the_file_header() {
    let mut file = database(&[("t", "create table t(a integer)", vec![])]);
    file[108..110].copy_from_slice(&50u16.to_be_bytes());
    let header = parse_header(&file).unwrap();
    assert_eq!(parse_page(&header, raw_page(&file, 1), 1).unwrap_err(), Error::Malformed);
}

#[test]
fn truncated_page() {
    let file = database(&[("t", "create table t(a integer)", vec![record(&[Col::Int(1)])])]);
    let header = parse_header(&file).unwrap();
    let page = raw_page(&file, 2);
    assert_eq!(parse_page(&header, &page[..4], 2).unwrap_err(), Error::Truncated);
    assert_eq!(parse_page(&header, &page[..PAGE_SIZE - 3], 2).unwrap_err(), Error::Truncated);
}

#[test]
fn overflow_page_links() {
    let mut page = vec![0, 0, 0, 9];
    page.extend(b"xyz");
    let o = parse_overflow_page(&page);
    assert_eq!(o.next, Some(9));
    assert_eq!(o.payload, b"xyz".to_vec());
    page[3] = 0;
    assert_eq!(parse_overflow_page(&page).next, None);
}

fn cursor_over(payload: Vec<u8>) -> Result<Cursor, Error> {
    Cursor::from_leaf_cell(&rqlite::page::TableLeafCell {
        payload,
        first_overflow: None,
    })
}

#[test]
fn fixed_width_fields_sign_extend() {
    // codes: i8, i16, i24, i32, i48, i64, zero, one, null, float
    let mut payload = vec![11, 1, 2, 3, 4, 5, 6, 8, 9, 0, 7];
    payload.extend([0xfe]);
    payload.extend([0xff, 0x00]);
    payload.extend([0x80, 0x00, 0x01]);
    payload.extend([0x7f, 0xff, 0xff, 0xff]);
    payload.extend([0xff, 0xff, 0xff, 0xff, 0xff, 0xfd]);
    payload.extend((-5i64).to_be_bytes());
    payload.extend(1.5f64.to_be_bytes());
    let c = cursor_over(payload).unwrap();
    let values: Vec<Value> = (0..10).map(|k| c.field(k).unwrap().unwrap()).collect();
    assert_eq!(
        values,
        vec![
            Value::Int(-2),
            Value::Int(-256),
            Value::Int(-8_388_607),
            Value::Int(2_147_483_647),
            Value::Int(-3),
            Value::Int(-5),
            Value::Int(0),
            Value::Int(1),
            Value::Null,
            Value::Float(1.5f64.to_bits()),
        ]
    );
    assert_eq!(c.field(10).unwrap(), None);
    assert_eq!(values[0].as_int(), Some(-2));
    assert_eq!(values[0].as_str(), None);
}

#[test]
fn blob_and_text_fields() {
    let c = cursor_over(vec![4, 17, 16, 12, b'h', b'i', 0xab, 0xcd]).unwrap();
    assert_eq!(c.field(0).unwrap(), Some(Value::String("hi".to_string())));
    assert_eq!(c.field(0).unwrap().unwrap().as_str(), Some("hi"));
    assert_eq!(c.field(1).unwrap(), Some(Value::Blob(vec![0xab, 0xcd])));
    assert_eq!(c.field(2).unwrap(), Some(Value::Blob(vec![])));
}

#[test]
fn invalid_utf8_text() {
    let c = cursor_over(vec![2, 15, 0xc3, 0x28]).unwrap();
    assert_eq!(c.field(0), Err(Error::InvalidUtf8));
}

#[test]
fn reserved_type_code() {
    assert_eq!(cursor_over(vec![2, 10]).unwrap_err(), Error::UnsupportedFieldType(10));
    assert_eq!(cursor_over(vec![2, 11]).unwrap_err(), Error::UnsupportedFieldType(11));
}

#[test]
fn record_header_past_payload() {
    assert_eq!(cursor_over(vec![5, 1]).unwrap_err(), Error::Truncated);
    assert_eq!(cursor_over(vec![0]).unwrap_err(), Error::Malformed);
}

#[test]
fn field_past_materialized_payload() {
    let c = cursor_over(vec![2, 6, 1, 2]).unwrap();
    assert_eq!(c.pending_overflow(0), None);
    assert_eq!(c.field(0), Err(Error::Truncated));
}

#[test]
fn field_read_twice_is_equal() {
    let text = "B".repeat(6000);
    let file = database(&[("t", "create table t(a text, b integer)", vec![record(&[Col::Text(text.clone()), Col::Int(42)])])]);
    let mut c = scan(&file, 2).remove(0);
    let first = field(&file, &mut c, 0);
    let second = field(&file, &mut c, 0);
    assert_eq!(first, second);
    assert_eq!(first, Value::String(text));
    assert_eq!(field(&file, &mut c, 1), Value::Int(42));
}

#[test]
fn planner_errors() {
    let file = database(&[("t", "create table t(a integer)", vec![])]);
    let tables = tables(&file);
    let unknown_table = parse_statement("select a from u").unwrap();
    assert_eq!(
        Planner::new(&tables).compile(&unknown_table).unwrap_err(),
        Error::UnknownTable("u".to_string())
    );
    let unknown_column = parse_statement("select b from t").unwrap();
    assert_eq!(
        Planner::new(&tables).compile(&unknown_column).unwrap_err(),
        Error::UnknownColumn("b".to_string())
    );
    let create = parse_statement("create table x(a integer)").unwrap();
    assert_eq!(Planner::new(&tables).compile(&create).unwrap_err(), Error::UnsupportedStatement);
}

#[test]
fn star_expands_to_every_column() {
    let file = database(&[("t", "create table t(a integer, b integer, c integer)", vec![])]);
    let tables = tables(&file);
    let statement = parse_statement("select c, *, a from t").unwrap();
    let Operator::SeqScan(seq) = Planner::new(&tables).compile(&statement).unwrap();
    assert_eq!(seq.fields, vec![2, 0, 1, 2, 0]);
}

#[test]
fn schema_rows_of_other_kinds_are_skipped() {
    let mut unused = Vec::new();
    let index_row = record(&[
        Col::Text("index".to_string()),
        Col::Text("i".to_string()),
        Col::Text("t".to_string()),
        Col::Int(3),
        Col::Null,
    ]);
    let schema = vec![
        leaf_cell(1, &schema_row("t", 2, "create table t(a integer)"), &mut unused, 0),
        leaf_cell(2, &index_row, &mut unused, 0),
    ];
    let mut file = btree_page(1, 0x0d, &schema, None);
    file.extend(btree_page(2, 0x0d, &[], None));
    let t = tables(&file);
    assert_eq!(t.len(), 1);
    assert_eq!(t[0].name, "t");
}

#[test]
fn schema_row_without_sql_text() {
    let row = record(&[
        Col::Text("table".to_string()),
        Col::Text("t".to_string()),
        Col::Text("t".to_string()),
        Col::Int(2),
        Col::Int(0),
    ]);
    let c = cursor_over(row).unwrap();
    assert_eq!(TableMetadata::from_cursor(&c).unwrap_err(), Error::InvalidSchemaField(4));
}

#[test]
fn three_level_tree_yields_rows_in_order() {
    let mut unused = Vec::new();
    let leaf = |ids: std::ops::RangeInclusive<u64>, unused: &mut Vec<Vec<u8>>| -> Vec<Vec<u8>> {
        ids.map(|id| leaf_cell(id, &record(&[Col::Int(id as i64)]), unused, 0)).collect()
    };
    let schema = vec![leaf_cell(1, &schema_row("t", 2, "CREATE TABLE t(id integer)"), &mut unused, 0)];
    let mut file = btree_page(1, 0x0d, &schema, None);
    // root 2 -> interior 3 (leaves 5, 6) and interior 4 (leaves 7, 8)
    file.extend(btree_page(2, 0x05, &[interior_cell(3, 20)], Some(4)));
    file.extend(btree_page(3, 0x05, &[interior_cell(5, 10)], Some(6)));
    file.extend(btree_page(4, 0x05, &[interior_cell(7, 30)], Some(8)));
    file.extend(btree_page(5, 0x0d, &leaf(1..=10, &mut unused), None));
    file.extend(btree_page(6, 0x0d, &leaf(11..=20, &mut unused), None));
    file.extend(btree_page(7, 0x0d, &leaf(21..=30, &mut unused), None));
    file.extend(btree_page(8, 0x0d, &leaf(31..=40, &mut unused), None));
    let expected: Vec<String> = (1..=40).map(|i: i64| i.to_string()).collect();
    assert_eq!(query(&file, "select * from t"), expected);
}

#[test]
fn next_cell_moves_on_past_the_end() {
    let file = database(&[("t", "create table t(a integer)", vec![])]);
    let header = parse_header(&file).unwrap();
    let mut position = PositionedPage { page: read_page(&file, &header, 2), cell: 0 };
    assert!(position.next_cell().is_none());
    assert_eq!(position.cell, 1);
    assert!(position.next_page().is_none());
}

#[test]
fn schema_row_with_select_text() {
    let row = record(&[
        Col::Text("table".to_string()),
        Col::Text("t".to_string()),
        Col::Text("t".to_string()),
        Col::Int(2),
        Col::Text("select a from t".to_string()),
    ]);
    let c = cursor_over(row).unwrap();
    assert_eq!(TableMetadata::from_cursor(&c).unwrap_err(), Error::ExpectedCreateStatement);
}

#[test]
fn schema_row_with_bad_root_page() {
    let row = record(&[
        Col::Text("table".to_string()),
        Col::Text("t".to_string()),
        Col::Text("t".to_string()),
        Col::Int(0),
        Col::Text("create table t(a integer)".to_string()),
    ]);
    let c = cursor_over(row).unwrap();
    assert_eq!(TableMetadata::from_cursor(&c).unwrap_err(), Error::InvalidSchemaField(3));
}
