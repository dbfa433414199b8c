use vstd::prelude::*;

use crate::error::Error;

verus! {

/// Page sizes that a database file may declare.
pub open spec fn valid_page_size(n: u32) -> bool {
    n == 512 || n == 1024 || n == 2048 || n == 4096 || n == 8192 || n == 16384 || n == 32768
        || n == 65536
}

/// The part of the 100-byte database header that reading needs.
#[derive(Debug, Copy, Clone)]
pub struct DbHeader {
    pub page_size: u32,
    pub page_reserved_size: u8,
}

impl DbHeader {
    /// A header as parsing produces it: the page size is one of the allowed powers of two.
    pub open spec fn wf(&self) -> bool {
        valid_page_size(self.page_size)
    }

    /// Bytes of each page that hold data: the page size less the reserved tail.
    pub open spec fn usable_size(&self) -> int {
        self.page_size - self.page_reserved_size
    }

    pub fn usable_page_size(&self) -> (r: usize)
        requires
            self.page_reserved_size <= self.page_size,
        ensures
            r == self.usable_size(),
    {
        self.page_size as usize - (self.page_reserved_size as usize)
    }
}

#[derive(Debug, Copy, Clone, PartialEq, Eq, Structural)]
pub enum PageType {
    TableLeaf,
    TableInterior,
}

/// The header of a table B-tree page. `rightmost_pointer` is present on interior pages only.
#[derive(Debug, Copy, Clone)]
pub struct PageHeader {
    pub page_type: PageType,
    pub cell_count: u16,
    pub rightmost_pointer: Option<u32>,
}

/// The number of payload bytes that a table leaf cell keeps on its page, for usable page
/// size `u` and total payload size `p`.
pub open spec fn local_size(u: int, p: int) -> int {
    let min_local = (u - 12) * 32 / 255 - 23;
    let max_local = u - 35;
    if p <= max_local {
        p
    } else {
        let k = min_local + (p - min_local) % (u - 4);
        if k <= max_local {
            k
        } else {
            min_local
        }
    }
}

impl PageHeader {
    pub open spec fn wf(&self) -> bool {
        (self.page_type == PageType::TableInterior) == (self.rightmost_pointer is Some)
    }

    pub open spec fn spec_byte_size(&self) -> int {
        if self.rightmost_pointer is Some {
            12
        } else {
            8
        }
    }

    /// Size of the header on disk: 12 bytes for interior pages, 8 for leaves.
    pub fn byte_size(&self) -> (r: usize)
        ensures
            r == self.spec_byte_size(),
    {
        if self.rightmost_pointer.is_some() {
            12
        } else {
            8
        }
    }

    pub open spec fn spec_local_and_overflow_size(&self, db_header: DbHeader, payload_size: int) -> Result<(usize, Option<usize>), Error> {
        if self.page_type == PageType::TableInterior {
            Err(Error::NoPayloadOnInteriorPage)
        } else {
            let local = local_size(db_header.usable_size(), payload_size);
            if local == payload_size {
                Ok((local as usize, None))
            } else {
                Ok((local as usize, Some((payload_size - local) as usize)))
            }
        }
    }

    /// Splits a payload of `payload_size` bytes into the part kept on the page and the
    /// part that goes to overflow pages (absent when everything fits).
    pub fn local_and_overflow_size(&self, db_header: &DbHeader, payload_size: usize) -> (r: Result<(usize, Option<usize>), Error>)
        requires
            db_header.wf(),
        ensures
            r == self.spec_local_and_overflow_size(*db_header, payload_size as int),
            r matches Ok((local, overflow)) ==> {
                &&& local + match overflow { Some(o) => o as int, None => 0 } == payload_size
                &&& local <= db_header.usable_size() - 35
                &&& (payload_size <= db_header.usable_size() - 35 ==> overflow is None && local == payload_size)
            },
    {
        let local = self.local_payload_size(db_header, payload_size)?;
        if local == payload_size {
            Ok((local, None))
        } else {
            Ok((local, Some(payload_size - local)))
        }
    }

    /// The number of payload bytes kept on a leaf page; interior pages hold no payload.
    pub fn local_payload_size(&self, db_header: &DbHeader, payload_size: usize) -> (r: Result<usize, Error>)
        requires
            db_header.wf(),
        ensures
            match r {
                Ok(local) => self.page_type == PageType::TableLeaf
                    && local == local_size(db_header.usable_size(), payload_size as int)
                    && local <= payload_size
                    && local <= db_header.usable_size() - 35,
                Err(e) => self.page_type == PageType::TableInterior && e == Error::NoPayloadOnInteriorPage,
            },
    {
        match self.page_type {
            PageType::TableInterior => Err(Error::NoPayloadOnInteriorPage),
            PageType::TableLeaf => {
                let usable = db_header.usable_page_size();
                let max_size = usable - 35;
                if payload_size <= max_size {
                    return Ok(payload_size);
                }
                let min_size = ((usable - 12) * 32 / 255) - 23;
                assert(min_size <= max_size);
                let k = min_size + ((payload_size - min_size) % (usable - 4));
                let size = if k <= max_size {
                    k
                } else {
                    min_size
                };
                Ok(size)
            },
        }
    }
}

/// What a cell holds, with its bytes as a sequence.
pub enum CellView {
    TableLeaf { payload: Seq<u8>, first_overflow: Option<usize> },
    TableInterior { left_child_page: u32 },
}

impl View for Cell {
    type V = CellView;

    open spec fn view(&self) -> CellView {
        match self {
            Cell::TableLeaf(c) => CellView::TableLeaf {
                payload: c.payload@,
                first_overflow: c.first_overflow,
            },
            Cell::TableInterior(c) => CellView::TableInterior { left_child_page: c.left_child_page },
        }
    }
}

/// What a page holds: its header and the view of each cell, in cell-pointer order.
pub struct PageView {
    pub header: PageHeader,
    pub cells: Seq<CellView>,
}

impl View for Page {
    type V = PageView;

    open spec fn view(&self) -> PageView {
        PageView { header: self.header, cells: self.cells@.map_values(|c: Cell| c@) }
    }
}

/// A parsed table B-tree page.
#[derive(Debug, Clone)]
pub struct Page {
    pub header: PageHeader,
    pub cells: Vec<Cell>,
}

impl Page {
    /// A page as parsing produces it: a consistent header and one cell per cell pointer.
    pub open spec fn wf(&self) -> bool {
        self.header.wf() && self.cells@.len() == self.header.cell_count
    }

    /// The cell at index `n`, if the page has that many.
    pub fn get(&self, n: usize) -> (r: Option<&Cell>)
        ensures
            n < self.cells@.len() ==> r == Some(&self.cells@[n as int]),
            n >= self.cells@.len() ==> r is None,
    {
        if n < self.cells.len() {
            Some(&self.cells[n])
        } else {
            None
        }
    }
}

/// A row of a table leaf page: the part of its record payload that the page holds, and the
/// first overflow page when the rest lives elsewhere.
#[derive(Debug, Clone)]
pub struct TableLeafCell {
    pub payload: Vec<u8>,
    pub first_overflow: Option<usize>,
}

/// An entry of a table interior page: the child page that holds the keys up to this one.
#[derive(Debug, Clone)]
pub struct TableInteriorCell {
    pub left_child_page: u32,
}

#[derive(Debug, Clone)]
pub enum Cell {
    TableLeaf(TableLeafCell),
    TableInterior(TableInteriorCell),
}

/// A page of an overflow chain: the next page of the chain (absent at its end) and the
/// payload bytes this page holds.
#[derive(Debug, Clone)]
pub struct OverflowPage {
    pub next: Option<usize>,
    pub payload: Vec<u8>,
}

} // verus!
