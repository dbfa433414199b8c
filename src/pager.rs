use vstd::prelude::*;

use crate::error::Error;
use crate::page::{
    self, valid_page_size, Cell, CellView, DbHeader, PageHeader, PageType, PageView,
};

verus! {

/// The number of bytes the varint at the start of `b` occupies, counting from byte `i`:
/// a byte below 0x80 ends it, and the ninth byte always does.
pub open spec fn varint_size_from(b: Seq<u8>, i: nat) -> nat
    decreases 9 - i,
{
    if i >= 8 {
        9
    } else if i < b.len() && b[i as int] < 0x80 {
        i + 1
    } else {
        varint_size_from(b, i + 1)
    }
}

/// The number of bytes (1 to 9) that the varint at the start of `b` occupies.
pub open spec fn varint_size(b: Seq<u8>) -> nat {
    varint_size_from(b, 0)
}

/// The unsigned value of the first `n` bytes of a varint: seven low bits from each of
/// the first eight bytes, all eight bits of the ninth.
pub open spec fn varint_unsigned(b: Seq<u8>, n: nat) -> nat
    decreases n,
{
    if n == 0 {
        0
    } else if n == 9 {
        varint_unsigned(b, 8) * 256 + b[8] as nat
    } else {
        varint_unsigned(b, (n - 1) as nat) * 128 + (b[n - 1] % 128) as nat
    }
}

/// Two's-complement reading of an unsigned 64-bit quantity.
pub open spec fn as_signed64(u: nat) -> int {
    if u >= 0x8000_0000_0000_0000 {
        u - 0x1_0000_0000_0000_0000
    } else {
        u as int
    }
}

/// The value of the varint at the start of `b`.
pub open spec fn varint_value(b: Seq<u8>) -> int {
    as_signed64(varint_unsigned(b, varint_size(b)))
}

proof fn lemma_varint_unsigned_bound(b: Seq<u8>, n: nat)
    requires
        n <= 8,
    ensures
        varint_unsigned(b, n) < pow2_7(n),
    decreases n,
{
    if n > 0 {
        lemma_varint_unsigned_bound(b, (n - 1) as nat);
    }
}

pub proof fn lemma_varint_size_from_bound(b: Seq<u8>, i: nat)
    requires
        i <= 8,
    ensures
        i < varint_size_from(b, i) <= 9,
    decreases 9 - i,
{
    if i < 8 {
        lemma_varint_size_from_bound(b, i + 1);
    }
}

proof fn lemma_pow2_7_bound(n: nat)
    requires
        n <= 8,
    ensures
        pow2_7(n) <= 0x100_0000_0000_0000,
        n <= 7 ==> pow2_7(n) <= 0x2_0000_0000_0000,
{
    reveal_with_fuel(pow2_7, 9);
}

spec fn pow2_7(n: nat) -> nat
    decreases n,
{
    if n == 0 {
        1
    } else {
        128 * pow2_7((n - 1) as nat)
    }
}

/// Reads the varint that starts at `offset`. Returns the number of bytes it occupies
/// and its value, the 64-bit pattern read as two's complement.
pub fn read_varint_at(buffer: &[u8], offset: usize) -> (r: (u8, i64))
    requires
        offset <= buffer@.len(),
        offset + varint_size(buffer@.subrange(offset as int, buffer@.len() as int)) <= buffer@.len(),
    ensures
        r.0 as nat == varint_size(buffer@.subrange(offset as int, buffer@.len() as int)),
        r.1 as int == varint_value(buffer@.subrange(offset as int, buffer@.len() as int)),
{
    let ghost b = buffer@.subrange(offset as int, buffer@.len() as int);
    let len = buffer.len();
    let mut size: u8 = 0;
    let mut result: u64 = 0;
    loop
        invariant_except_break
            size <= 8,
            varint_size(b) == varint_size_from(b, size as nat),
            result < pow2_7(size as nat),
        invariant
            b == buffer@.subrange(offset as int, buffer@.len() as int),
            b.len() + offset == buffer@.len(),
            len == buffer@.len(),
            offset + varint_size(b) <= buffer@.len(),
            result as nat == varint_unsigned(b, size as nat),
        ensures
            size as nat == varint_size(b),
        decreases 9 - size,
    {
        proof {
            lemma_varint_size_from_bound(b, size as nat);
            lemma_pow2_7_bound(size as nat);
        }
        assert(b[size as int] == buffer@[offset + size]);
        let current_byte = buffer[offset + size as usize];
        if size == 8 {
            result = result * 256 + current_byte as u64;
            size = 9;
            break;
        }
        result = result * 128 + (current_byte % 128) as u64;
        size = size + 1;
        if current_byte < 128 {
            break;
        }
        proof {
            lemma_varint_unsigned_bound(b, size as nat);
        }
    }
    let value: i64 = if result >= 0x8000_0000_0000_0000 {
        -((u64::MAX - result) as i64) - 1
    } else {
        result as i64
    };
    (size, value)
}

pub const HEADER_SIZE: usize = 100;

const HEADER_PAGE_SIZE_OFFSET: usize = 16;

const HEADER_PAGE_RESERVED_SIZE_OFFSET: usize = 20;

const PAGE_MAX_SIZE: u32 = 65536;

const PAGE_LEAF_TABLE_ID: u8 = 0x0d;

const PAGE_INTERIOR_TABLE_ID: u8 = 0x05;

const PAGE_CELL_COUNT_OFFSET: usize = 3;

const PAGE_RIGHTMOST_POINTER_OFFSET: usize = 8;

/// Big-endian 16-bit value of bytes `i` and `i + 1`.
pub open spec fn be16(s: Seq<u8>, i: int) -> int {
    s[i] * 256 + s[i + 1]
}

/// Big-endian 32-bit value of bytes `i` to `i + 3`.
pub open spec fn be32(s: Seq<u8>, i: int) -> int {
    ((s[i] * 256 + s[i + 1]) * 256 + s[i + 2]) * 256 + s[i + 3]
}

/// The bytes `"SQLite format 3\0"` that open every database file.
pub open spec fn header_prefix() -> Seq<u8> {
    seq![0x53u8, 0x51, 0x4c, 0x69, 0x74, 0x65, 0x20, 0x66, 0x6f, 0x72, 0x6d, 0x61, 0x74, 0x20, 0x33, 0x00]
}

/// The database header that the first 100 bytes of a file declare.
pub open spec fn spec_parse_header(b: Seq<u8>) -> Result<DbHeader, Error> {
    let raw = be16(b, 16);
    if b.subrange(0, 16) != header_prefix() {
        Err(Error::InvalidHeaderPrefix)
    } else if raw == 1 {
        Ok(DbHeader { page_size: 65536, page_reserved_size: b[20] })
    } else if valid_page_size(raw as u32) {
        Ok(DbHeader { page_size: raw as u32, page_reserved_size: b[20] })
    } else {
        Err(Error::InvalidPageSize(raw as u16))
    }
}

/// Big-endian 32-bit word at `offset`.
pub fn read_be_double_at(input: &[u8], offset: usize) -> (r: u32)
    requires
        offset + 4 <= input@.len(),
    ensures
        r == be32(input@, offset as int),
{
    ((input[offset] as u32 * 256 + input[offset + 1] as u32) * 256 + input[offset + 2] as u32) * 256
        + input[offset + 3] as u32
}

/// Big-endian 16-bit word at `offset`.
fn read_be_word_at(input: &[u8], offset: usize) -> (r: u16)
    requires
        offset + 2 <= input@.len(),
    ensures
        r == be16(input@, offset as int),
{
    input[offset] as u16 * 256 + input[offset + 1] as u16
}

/// Whether the varint that starts at `offset` ends inside `buffer`.
pub fn varint_in_bounds(buffer: &[u8], offset: usize) -> (r: bool)
    requires
        offset <= buffer@.len(),
    ensures
        r == (offset + varint_size(buffer@.subrange(offset as int, buffer@.len() as int))
            <= buffer@.len()),
{
    let ghost b = buffer@.subrange(offset as int, buffer@.len() as int);
    let len = buffer.len();
    let mut i: usize = 0;
    while i < 9
        invariant
            b == buffer@.subrange(offset as int, buffer@.len() as int),
            len == buffer@.len(),
            offset <= len,
            i <= 8,
            varint_size(b) == varint_size_from(b, i as nat),
        decreases 9 - i,
    {
        proof {
            lemma_varint_size_from_bound(b, i as nat);
        }
        if i >= len - offset {
            return false;
        }
        if i == 8 || buffer[offset + i] < 128 {
            return true;
        }
        i = i + 1;
    }
    false
}

/// Reads the database header from the first 100 bytes of a file.
pub fn parse_header(buffer: &[u8]) -> (r: Result<DbHeader, Error>)
    requires
        buffer@.len() >= HEADER_SIZE,
    ensures
        r == spec_parse_header(buffer@),
        r matches Ok(h) ==> h.wf(),
{
    let prefix_ok = buffer[0] == 0x53 && buffer[1] == 0x51 && buffer[2] == 0x4c && buffer[3] == 0x69
        && buffer[4] == 0x74 && buffer[5] == 0x65 && buffer[6] == 0x20 && buffer[7] == 0x66
        && buffer[8] == 0x6f && buffer[9] == 0x72 && buffer[10] == 0x6d && buffer[11] == 0x61
        && buffer[12] == 0x74 && buffer[13] == 0x20 && buffer[14] == 0x33 && buffer[15] == 0x00;
    proof {
        if prefix_ok {
            assert(buffer@.subrange(0, 16) =~= header_prefix());
        } else {
            assert(buffer@.subrange(0, 16) != header_prefix()) by {
                if buffer@.subrange(0, 16) == header_prefix() {
                    assert forall|i: int| 0 <= i < 16 implies #[trigger] buffer@[i] == header_prefix()[i] by {
                        assert(buffer@.subrange(0, 16)[i] == buffer@[i]);
                    }
                }
            }
        }
    }
    if !prefix_ok {
        return Err(Error::InvalidHeaderPrefix);
    }
    let page_size_raw = read_be_word_at(buffer, HEADER_PAGE_SIZE_OFFSET);
    let page_size = if page_size_raw == 1 {
        PAGE_MAX_SIZE
    } else if page_size_raw == 512 || page_size_raw == 1024 || page_size_raw == 2048
        || page_size_raw == 4096 || page_size_raw == 8192 || page_size_raw == 16384
        || page_size_raw == 32768 {
        page_size_raw as u32
    } else {
        return Err(Error::InvalidPageSize(page_size_raw));
    };
    let page_reserved_size = buffer[HEADER_PAGE_RESERVED_SIZE_OFFSET];
    Ok(DbHeader { page_size, page_reserved_size })
}

/// Splits an overflow page into the next page of the chain (0 on disk ends it) and the
/// payload bytes after the four-byte link.
pub fn parse_overflow_page(buffer: &[u8]) -> (r: page::OverflowPage)
    requires
        buffer@.len() >= 4,
    ensures
        r.payload@ == buffer@.subrange(4, buffer@.len() as int),
        r.next == if be32(buffer@, 0) == 0 {
            None
        } else {
            Some(be32(buffer@, 0) as usize)
        },
{
    let next = read_be_double_at(buffer, 0);
    page::OverflowPage {
        payload: vstd::slice::slice_to_vec(&buffer[4..buffer.len()]),
        next: if next != 0 {
            Some(next as usize)
        } else {
            None
        },
    }
}

/// The header of the page whose content (after the database header on page 1) is `b`.
pub open spec fn spec_parse_page_header(b: Seq<u8>) -> Result<PageHeader, Error> {
    if b.len() < 1 {
        Err(Error::Truncated)
    } else if b[0] == 0x0d {
        if b.len() < 8 {
            Err(Error::Truncated)
        } else {
            Ok(PageHeader { page_type: PageType::TableLeaf, cell_count: be16(b, 3) as u16, rightmost_pointer: None })
        }
    } else if b[0] == 0x05 {
        if b.len() < 12 {
            Err(Error::Truncated)
        } else {
            Ok(PageHeader {
                page_type: PageType::TableInterior,
                cell_count: be16(b, 3) as u16,
                rightmost_pointer: Some(be32(b, 8) as u32),
            })
        }
    } else {
        Err(Error::UnknownPageType(b[0]))
    }
}

fn parse_page_header(buffer: &[u8]) -> (r: Result<PageHeader, Error>)
    ensures
        r == spec_parse_page_header(buffer@),
        r matches Ok(h) ==> h.wf(),
{
    if buffer.len() < 1 {
        return Err(Error::Truncated);
    }
    let (page_type, rightmost_ptr) = if buffer[0] == PAGE_LEAF_TABLE_ID {
        (PageType::TableLeaf, false)
    } else if buffer[0] == PAGE_INTERIOR_TABLE_ID {
        (PageType::TableInterior, true)
    } else {
        return Err(Error::UnknownPageType(buffer[0]));
    };
    if buffer.len() < (if rightmost_ptr { 12 } else { 8 }) {
        return Err(Error::Truncated);
    }
    let cell_count = read_be_word_at(buffer, PAGE_CELL_COUNT_OFFSET);
    let rightmost_pointer = if rightmost_ptr {
        Some(read_be_double_at(buffer, PAGE_RIGHTMOST_POINTER_OFFSET))
    } else {
        None
    };
    Ok(PageHeader { page_type, cell_count, rightmost_pointer })
}

/// The cell pointers that follow a page header, made relative to the page content by
/// subtracting `bias` (the size of the database header on page 1).
pub open spec fn spec_cell_pointers(b: Seq<u8>, n: nat, bias: int) -> Result<Seq<u16>, Error> {
    if 2 * n > b.len() {
        Err(Error::Truncated)
    } else if exists|i: int| 0 <= i < n && #[trigger] be16(b, 2 * i) < bias {
        Err(Error::Malformed)
    } else {
        Ok(Seq::new(n, |i: int| (be16(b, 2 * i) - bias) as u16))
    }
}

fn parse_cell_pointers(buffer: &[u8], n: usize, ptr_offset: u16) -> (r: Result<Vec<u16>, Error>)
    ensures
        match r {
            Ok(v) => spec_cell_pointers(buffer@, n as nat, ptr_offset as int) == Ok::<Seq<u16>, Error>(v@),
            Err(e) => spec_cell_pointers(buffer@, n as nat, ptr_offset as int) == Err::<Seq<u16>, Error>(e),
        },
{
    if n > buffer.len() / 2 {
        return Err(Error::Truncated);
    }
    let len = buffer.len();
    let mut pointers: Vec<u16> = Vec::with_capacity(n);
    let mut i: usize = 0;
    while i < n
        invariant
            len == buffer@.len(),
            2 * n <= buffer@.len(),
            i <= n,
            pointers@.len() == i,
            forall|j: int| 0 <= j < i ==> #[trigger] be16(buffer@, 2 * j) >= ptr_offset,
            forall|j: int| 0 <= j < i ==> #[trigger] pointers@[j] == (be16(buffer@, 2 * j) - ptr_offset) as u16,
        decreases n - i,
    {
        let raw = read_be_word_at(buffer, 2 * i);
        if raw < ptr_offset {
            proof {
                assert(be16(buffer@, 2 * (i as int)) < ptr_offset);
            }
            return Err(Error::Malformed);
        }
        pointers.push(raw - ptr_offset);
        i = i + 1;
    }
    proof {
        assert(pointers@ =~= Seq::new(n as nat, |i: int| (be16(buffer@, 2 * i) - ptr_offset) as u16));
    }
    Ok(pointers)
}

/// A table leaf cell: payload size and row id varints, the local part of the payload, and
/// the first overflow page when the payload does not fit.
pub open spec fn spec_parse_table_leaf_cell(db_header: DbHeader, header: PageHeader, b: Seq<u8>) -> Result<CellView, Error> {
    let n1 = varint_size(b);
    let size = varint_value(b);
    let rest = b.subrange(n1 as int, b.len() as int);
    let n2 = varint_size(rest);
    let body = rest.subrange(n2 as int, rest.len() as int);
    if n1 > b.len() || n2 > rest.len() {
        Err(Error::Truncated)
    } else if size < 0 || size > usize::MAX {
        Err(Error::Malformed)
    } else {
        match header.spec_local_and_overflow_size(db_header, size) {
            Err(e) => Err(e),
            Ok((local, overflow)) => leaf_cell_payload(body, local as int, overflow is Some),
        }
    }
}

/// The local payload of `local` bytes at the start of `body`, followed by the first
/// overflow page number when the payload overflows.
pub open spec fn leaf_cell_payload(body: Seq<u8>, local: int, overflows: bool) -> Result<CellView, Error> {
    if local > body.len() || (overflows && local + 4 > body.len()) {
        Err(Error::Truncated)
    } else {
        Ok(CellView::TableLeaf {
            payload: body.subrange(0, local),
            first_overflow: if overflows {
                Some(be32(body, local) as usize)
            } else {
                None
            },
        })
    }
}

#[verifier::rlimit(30)]
fn parse_table_leaf_cell(db_header: &DbHeader, header: &PageHeader, buffer: &[u8]) -> (r: Result<Cell, Error>)
    requires
        db_header.wf(),
    ensures
        match r {
            Ok(c) => spec_parse_table_leaf_cell(*db_header, *header, buffer@) == Ok::<CellView, Error>(c@),
            Err(e) => spec_parse_table_leaf_cell(*db_header, *header, buffer@) == Err::<CellView, Error>(e),
        },
{
    let ghost b = buffer@;
    proof {
        assert(b.subrange(0, b.len() as int) =~= b);
    }
    if !varint_in_bounds(buffer, 0) {
        return Err(Error::Truncated);
    }
    let (n1, size) = read_varint_at(buffer, 0);
    let n1 = n1 as usize;
    let ghost rest = b.subrange(n1 as int, b.len() as int);
    if !varint_in_bounds(buffer, n1) {
        return Err(Error::Truncated);
    }
    let (n2, _) = read_varint_at(buffer, n1);
    let start = n1 + n2 as usize;
    proof {
        assert(rest.subrange(n2 as int, rest.len() as int) =~= b.subrange(start as int, b.len() as int));
    }
    if size < 0 || size as u64 > usize::MAX as u64 {
        return Err(Error::Malformed);
    }
    let (local, overflow) = header.local_and_overflow_size(db_header, size as usize)?;
    let avail = buffer.len() - start;
    if local > avail {
        return Err(Error::Truncated);
    }
    let first_overflow = match overflow {
        Some(_) => {
            if local > avail - 4 || avail < 4 {
                return Err(Error::Truncated);
            }
            Some(read_be_double_at(buffer, start + local) as usize)
        },
        None => None,
    };
    let payload = vstd::slice::slice_to_vec(&buffer[start..start + local]);
    proof {
        let body = b.subrange(start as int, b.len() as int);
        assert(body.subrange(0, local as int) =~= payload@);
        if overflow is Some {
            assert(be32(body, local as int) == be32(b, start + local));
        }
        assert(leaf_cell_payload(body, local as int, overflow is Some) == Ok::<CellView, Error>(CellView::TableLeaf { payload: payload@, first_overflow }));
    }
    Ok(Cell::TableLeaf(page::TableLeafCell { payload, first_overflow }))
}

/// A table interior cell: the left child page number (the key that follows is not kept).
pub open spec fn spec_parse_table_interior_cell(b: Seq<u8>) -> Result<CellView, Error> {
    if b.len() < 4 {
        Err(Error::Truncated)
    } else {
        Ok(CellView::TableInterior { left_child_page: be32(b, 0) as u32 })
    }
}

fn parse_table_interior_cell(buffer: &[u8]) -> (r: Result<Cell, Error>)
    ensures
        match r {
            Ok(c) => spec_parse_table_interior_cell(buffer@) == Ok::<CellView, Error>(c@),
            Err(e) => spec_parse_table_interior_cell(buffer@) == Err::<CellView, Error>(e),
        },
{
    if buffer.len() < 4 {
        return Err(Error::Truncated);
    }
    Ok(Cell::TableInterior(page::TableInteriorCell { left_child_page: read_be_double_at(buffer, 0) }))
}

/// The cell that starts at `ptr` in page content `b`, parsed as the page type asks.
pub open spec fn spec_parse_cell(db_header: DbHeader, header: PageHeader, b: Seq<u8>, ptr: u16) -> Result<CellView, Error> {
    if ptr > b.len() {
        Err(Error::Truncated)
    } else {
        let cell = b.subrange(ptr as int, b.len() as int);
        match header.page_type {
            PageType::TableLeaf => spec_parse_table_leaf_cell(db_header, header, cell),
            PageType::TableInterior => spec_parse_table_interior_cell(cell),
        }
    }
}

/// The cells at `ptrs`, in order; the first cell that fails to parse gives the error.
pub open spec fn spec_parse_cells(db_header: DbHeader, header: PageHeader, b: Seq<u8>, ptrs: Seq<u16>) -> Result<Seq<CellView>, Error>
    decreases ptrs.len(),
{
    if ptrs.len() == 0 {
        Ok(Seq::empty())
    } else {
        match spec_parse_cells(db_header, header, b, ptrs.drop_last()) {
            Err(e) => Err(e),
            Ok(cells) => match spec_parse_cell(db_header, header, b, ptrs.last()) {
                Err(e) => Err(e),
                Ok(c) => Ok(cells.push(c)),
            },
        }
    }
}

proof fn lemma_parse_cells_len(db_header: DbHeader, header: PageHeader, b: Seq<u8>, ptrs: Seq<u16>)
    ensures
        spec_parse_cells(db_header, header, b, ptrs) matches Ok(cells) ==> cells.len() == ptrs.len(),
    decreases ptrs.len(),
{
    if ptrs.len() > 0 {
        lemma_parse_cells_len(db_header, header, b, ptrs.drop_last());
    }
}

proof fn lemma_parse_cells_error_persists(db_header: DbHeader, header: PageHeader, b: Seq<u8>, ptrs: Seq<u16>, i: int, e: Error)
    requires
        0 <= i <= ptrs.len(),
        spec_parse_cells(db_header, header, b, ptrs.subrange(0, i)) == Err::<Seq<CellView>, Error>(e),
    ensures
        spec_parse_cells(db_header, header, b, ptrs) == Err::<Seq<CellView>, Error>(e),
    decreases ptrs.len() - i,
{
    if i < ptrs.len() {
        assert(ptrs.subrange(0, i + 1).drop_last() =~= ptrs.subrange(0, i));
        lemma_parse_cells_error_persists(db_header, header, b, ptrs, i + 1, e);
    } else {
        assert(ptrs.subrange(0, i) =~= ptrs);
    }
}

fn parse_cells(db_header: &DbHeader, header: &PageHeader, buffer: &[u8], cell_pointers: &[u16]) -> (r: Result<Vec<Cell>, Error>)
    requires
        db_header.wf(),
    ensures
        match r {
            Ok(cells) => spec_parse_cells(*db_header, *header, buffer@, cell_pointers@)
                == Ok::<Seq<CellView>, Error>(cells@.map_values(|c: Cell| c@)),
            Err(e) => spec_parse_cells(*db_header, *header, buffer@, cell_pointers@) == Err::<Seq<CellView>, Error>(e),
        },
{
    let mut cells: Vec<Cell> = Vec::new();
    let mut i: usize = 0;
    proof {
        assert(cell_pointers@.subrange(0, 0) =~= Seq::<u16>::empty());
        assert(cells@.map_values(|c: Cell| c@) =~= Seq::<CellView>::empty());
    }
    while i < cell_pointers.len()
        invariant
            db_header.wf(),
            i <= cell_pointers@.len(),
            spec_parse_cells(*db_header, *header, buffer@, cell_pointers@.subrange(0, i as int))
                == Ok::<Seq<CellView>, Error>(cells@.map_values(|c: Cell| c@)),
        decreases cell_pointers@.len() - i,
    {
        let ptr = cell_pointers[i];
        let ghost prefix = cell_pointers@.subrange(0, i + 1);
        proof {
            assert(prefix.drop_last() =~= cell_pointers@.subrange(0, i as int));
            assert(prefix.last() == ptr);
        }
        if ptr as usize > buffer.len() {
            proof {
                lemma_parse_cells_error_persists(*db_header, *header, buffer@, cell_pointers@, i + 1, Error::Truncated);
            }
            return Err(Error::Truncated);
        }
        let cell_buffer = &buffer[ptr as usize..buffer.len()];
        let parsed = match header.page_type {
            PageType::TableLeaf => parse_table_leaf_cell(db_header, header, cell_buffer),
            PageType::TableInterior => parse_table_interior_cell(cell_buffer),
        };
        match parsed {
            Ok(cell) => {
                let ghost before = cells@;
                let ghost cv = cell@;
                cells.push(cell);
                proof {
                    assert(cells@.map_values(|c: Cell| c@) =~= before.map_values(|c: Cell| c@).push(cv));
                }
            },
            Err(e) => {
                proof {
                    lemma_parse_cells_error_persists(*db_header, *header, buffer@, cell_pointers@, i + 1, e);
                }
                return Err(e);
            },
        }
        i = i + 1;
    }
    proof {
        assert(cell_pointers@.subrange(0, i as int) =~= cell_pointers@);
    }
    Ok(cells)
}

/// Where page content starts: after the 100-byte database header on page 1, at 0 elsewhere.
pub open spec fn header_bias(page_num: usize) -> int {
    if page_num == 1 {
        100
    } else {
        0
    }
}

/// The page whose usable bytes are `b`.
pub open spec fn spec_parse_page(db_header: DbHeader, b: Seq<u8>, page_num: usize) -> Result<PageView, Error> {
    let bias = header_bias(page_num);
    let content = b.subrange(bias, b.len() as int);
    if b.len() < bias {
        Err(Error::Truncated)
    } else {
        match spec_parse_page_header(content) {
            Err(e) => Err(e),
            Ok(header) => {
                let after_header = content.subrange(header.spec_byte_size(), content.len() as int);
                match spec_cell_pointers(after_header, header.cell_count as nat, bias) {
                    Err(e) => Err(e),
                    Ok(ptrs) => match spec_parse_cells(db_header, header, content, ptrs) {
                        Err(e) => Err(e),
                        Ok(cells) => Ok(PageView { header, cells }),
                    },
                }
            },
        }
    }
}

/// Parses the usable bytes of page `page_num` into its header and cells.
pub fn parse_page(db_header: &DbHeader, buffer: &[u8], page_num: usize) -> (r: Result<page::Page, Error>)
    requires
        db_header.wf(),
    ensures
        match r {
            Ok(p) => spec_parse_page(*db_header, buffer@, page_num) == Ok::<PageView, Error>(p@),
            Err(e) => spec_parse_page(*db_header, buffer@, page_num) == Err::<PageView, Error>(e),
        },
        r matches Ok(p) ==> p.wf(),
{
    let ptr_offset: u16 = if page_num == 1 {
        HEADER_SIZE as u16
    } else {
        0
    };
    if buffer.len() < ptr_offset as usize {
        return Err(Error::Truncated);
    }
    let content_buffer = &buffer[ptr_offset as usize..buffer.len()];
    let header = parse_page_header(content_buffer)?;
    let cell_pointers = parse_cell_pointers(
        &content_buffer[header.byte_size()..content_buffer.len()],
        header.cell_count as usize,
        ptr_offset,
    )?;
    let cells = parse_cells(db_header, &header, content_buffer, cell_pointers.as_slice())?;
    proof {
        assert(cells@.map_values(|c: Cell| c@).len() == cells@.len());
        lemma_parse_cells_len(*db_header, header, content_buffer@, cell_pointers@);
    }
    Ok(page::Page { header, cells })
}

/// The bytes from the start of cell `i` of page `page_num` to the end of the page content.
pub open spec fn page_cell_bytes(b: Seq<u8>, page_num: usize, header: PageHeader, i: int) -> Seq<u8> {
    let bias = header_bias(page_num);
    let content = b.subrange(bias, b.len() as int);
    let ptr = be16(content, header.spec_byte_size() + 2 * i) - bias;
    content.subrange(ptr, content.len() as int)
}

proof fn lemma_parse_cells_each(db_header: DbHeader, header: PageHeader, b: Seq<u8>, ptrs: Seq<u16>)
    ensures
        spec_parse_cells(db_header, header, b, ptrs) matches Ok(cells) ==> cells.len() == ptrs.len()
            && forall|i: int| 0 <= i < ptrs.len() ==> spec_parse_cell(db_header, header, b, #[trigger] ptrs[i]) == Ok::<CellView, Error>(cells[i]),
    decreases ptrs.len(),
{
    if ptrs.len() > 0 {
        lemma_parse_cells_each(db_header, header, b, ptrs.drop_last());
        if let Ok(cells) = spec_parse_cells(db_header, header, b, ptrs) {
            assert forall|i: int| 0 <= i < ptrs.len() implies spec_parse_cell(db_header, header, b, #[trigger] ptrs[i]) == Ok::<CellView, Error>(cells[i]) by {
                if i < ptrs.len() - 1 {
                    assert(ptrs.drop_last()[i] == ptrs[i]);
                }
            }
        }
    }
}

/// Whether `c` is a leaf cell that keeps `n` payload bytes.
pub open spec fn leaf_with_local_size(c: CellView, n: int) -> bool {
    c matches CellView::TableLeaf { payload, .. } && payload.len() == n
}

/// A leaf page that parses has one cell per cell pointer, and each keeps exactly the
/// local part of its payload that the overflow threshold gives for its payload size.
pub proof fn lemma_leaf_page_cells(db_header: DbHeader, b: Seq<u8>, page_num: usize)
    requires
        db_header.wf(),
        spec_parse_page(db_header, b, page_num) is Ok,
        spec_parse_page(db_header, b, page_num)->Ok_0.header.page_type == PageType::TableLeaf,
    ensures
        ({
            let p = spec_parse_page(db_header, b, page_num)->Ok_0;
            &&& p.cells.len() == p.header.cell_count
            &&& forall|i: int| 0 <= i < p.cells.len() ==> leaf_with_local_size(
                #[trigger] p.cells[i],
                page::local_size(db_header.usable_size(), varint_value(page_cell_bytes(b, page_num, p.header, i))),
            )
        }),
{
    let p = spec_parse_page(db_header, b, page_num)->Ok_0;
    let bias = header_bias(page_num);
    let content = b.subrange(bias, b.len() as int);
    let header = p.header;
    let after_header = content.subrange(header.spec_byte_size(), content.len() as int);
    let ptrs = spec_cell_pointers(after_header, header.cell_count as nat, bias)->Ok_0;
    lemma_parse_cells_each(db_header, header, content, ptrs);
    assert forall|i: int| 0 <= i < p.cells.len() implies leaf_with_local_size(
        #[trigger] p.cells[i],
        page::local_size(db_header.usable_size(), varint_value(page_cell_bytes(b, page_num, p.header, i))),
    ) by {
        assert(be16(after_header, 2 * i) == be16(content, header.spec_byte_size() + 2 * i));
        let cell = content.subrange(ptrs[i] as int, content.len() as int);
        assert(cell == page_cell_bytes(b, page_num, p.header, i));
        assert(spec_parse_cell(db_header, header, content, ptrs[i]) == Ok::<CellView, Error>(p.cells[i]));
    }
}

} // verus!
