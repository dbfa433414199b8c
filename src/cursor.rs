use std::sync::Arc;

use vstd::prelude::*;
use vstd::utf8::{decode_utf8, valid_utf8};

use crate::error::Error;
use crate::page::{Cell, OverflowPage, Page, PageType, TableLeafCell};
use crate::pager::{lemma_varint_size_from_bound, read_varint_at, varint_in_bounds, varint_size, varint_value};
use crate::value::{Value, ValueView};

verus! {

/// The type of a record field, from its type code; strings and blobs carry their length.
#[derive(Debug, Copy, Clone, PartialEq, Eq)]
pub enum RecordFieldType {
    Null,
    I8,
    I16,
    I24,
    I32,
    I48,
    I64,
    Float,
    Zero,
    One,
    String(usize),
    Blob(usize),
}

impl RecordFieldType {
    /// Bytes the field takes in the record body.
    pub open spec fn size(self) -> nat {
        match self {
            RecordFieldType::Null => 0,
            RecordFieldType::I8 => 1,
            RecordFieldType::I16 => 2,
            RecordFieldType::I24 => 3,
            RecordFieldType::I32 => 4,
            RecordFieldType::I48 => 6,
            RecordFieldType::I64 => 8,
            RecordFieldType::Float => 8,
            RecordFieldType::Zero => 0,
            RecordFieldType::One => 0,
            RecordFieldType::String(n) => n as nat,
            RecordFieldType::Blob(n) => n as nat,
        }
    }

    /// Bytes the field takes in the record body.
    pub fn byte_size(&self) -> (r: usize)
        ensures
            r == self.size(),
    {
        match self {
            RecordFieldType::Null => 0,
            RecordFieldType::I8 => 1,
            RecordFieldType::I16 => 2,
            RecordFieldType::I24 => 3,
            RecordFieldType::I32 => 4,
            RecordFieldType::I48 => 6,
            RecordFieldType::I64 => 8,
            RecordFieldType::Float => 8,
            RecordFieldType::Zero => 0,
            RecordFieldType::One => 0,
            RecordFieldType::String(size) => *size,
            RecordFieldType::Blob(size) => *size,
        }
    }
}

/// A field of a record: where its bytes start in the record payload, and its type.
#[derive(Debug, Copy, Clone)]
pub struct RecordField {
    pub offset: usize,
    pub field_type: RecordFieldType,
}

impl RecordField {
    pub open spec fn spec_end_offset(self) -> int {
        self.offset + self.field_type.size()
    }

    /// Where the field's bytes end in the record payload.
    pub fn end_offset(&self) -> (r: usize)
        requires
            self.spec_end_offset() <= usize::MAX,
        ensures
            r == self.spec_end_offset(),
    {
        self.offset + self.field_type.byte_size()
    }
}

/// The fields of a record, in column order.
#[derive(Debug, Clone)]
pub struct RecordHeader {
    pub fields: Vec<RecordField>,
}

/// The field type that a record type code stands for.
pub open spec fn spec_field_type(code: int) -> Result<RecordFieldType, Error> {
    if code == 0 {
        Ok(RecordFieldType::Null)
    } else if code == 1 {
        Ok(RecordFieldType::I8)
    } else if code == 2 {
        Ok(RecordFieldType::I16)
    } else if code == 3 {
        Ok(RecordFieldType::I24)
    } else if code == 4 {
        Ok(RecordFieldType::I32)
    } else if code == 5 {
        Ok(RecordFieldType::I48)
    } else if code == 6 {
        Ok(RecordFieldType::I64)
    } else if code == 7 {
        Ok(RecordFieldType::Float)
    } else if code == 8 {
        Ok(RecordFieldType::Zero)
    } else if code == 9 {
        Ok(RecordFieldType::One)
    } else if code >= 12 && (code - 12) / 2 > usize::MAX {
        Err(Error::Malformed)
    } else if code >= 12 && code % 2 == 0 {
        Ok(RecordFieldType::Blob(((code - 12) / 2) as usize))
    } else if code >= 13 && code % 2 == 1 {
        Ok(RecordFieldType::String(((code - 13) / 2) as usize))
    } else {
        Err(Error::UnsupportedFieldType(code as i64))
    }
}

/// The fields that the type codes in `codes` describe, the first starting at `offset`.
pub open spec fn spec_record_fields(codes: Seq<u8>, offset: int) -> Result<Seq<RecordField>, Error>
    decreases codes.len(),
    via spec_record_fields_decreases
{
    if codes.len() == 0 {
        Ok(Seq::empty())
    } else if varint_size(codes) > codes.len() {
        Err(Error::Truncated)
    } else {
        match spec_field_type(varint_value(codes)) {
            Err(e) => Err(e),
            Ok(t) => if offset + t.size() > usize::MAX {
                Err(Error::Malformed)
            } else {
                match spec_record_fields(codes.subrange(varint_size(codes) as int, codes.len() as int), offset + t.size()) {
                    Err(e) => Err(e),
                    Ok(rest) => Ok(seq![RecordField { offset: offset as usize, field_type: t }] + rest),
                }
            },
        }
    }
}

#[via_fn]
proof fn spec_record_fields_decreases(codes: Seq<u8>, offset: int) {
    lemma_varint_size_from_bound(codes, 0);
}

/// The record header at the start of `payload`: a varint header length, then the type codes
/// up to that length; field data starts right after the header.
pub open spec fn spec_parse_record_header(payload: Seq<u8>) -> Result<Seq<RecordField>, Error> {
    let n = varint_size(payload);
    let header_length = varint_value(payload);
    if n > payload.len() {
        Err(Error::Truncated)
    } else if header_length < n {
        Err(Error::Malformed)
    } else if header_length > payload.len() {
        Err(Error::Truncated)
    } else {
        spec_record_fields(payload.subrange(n as int, header_length), header_length)
    }
}

fn parse_field_type(code: i64) -> (r: Result<RecordFieldType, Error>)
    ensures
        r == spec_field_type(code as int),
{
    if code == 0 {
        Ok(RecordFieldType::Null)
    } else if code == 1 {
        Ok(RecordFieldType::I8)
    } else if code == 2 {
        Ok(RecordFieldType::I16)
    } else if code == 3 {
        Ok(RecordFieldType::I24)
    } else if code == 4 {
        Ok(RecordFieldType::I32)
    } else if code == 5 {
        Ok(RecordFieldType::I48)
    } else if code == 6 {
        Ok(RecordFieldType::I64)
    } else if code == 7 {
        Ok(RecordFieldType::Float)
    } else if code == 8 {
        Ok(RecordFieldType::Zero)
    } else if code == 9 {
        Ok(RecordFieldType::One)
    } else if code >= 12 && ((code - 12) / 2) as u64 > usize::MAX as u64 {
        Err(Error::Malformed)
    } else if code >= 12 && code % 2 == 0 {
        Ok(RecordFieldType::Blob(((code - 12) / 2) as usize))
    } else if code >= 13 && code % 2 == 1 {
        Ok(RecordFieldType::String(((code - 13) / 2) as usize))
    } else {
        Err(Error::UnsupportedFieldType(code))
    }
}

/// Parses the record header at the start of a leaf cell's payload.
pub fn parse_record_header(buffer: &[u8]) -> (r: Result<RecordHeader, Error>)
    ensures
        match r {
            Ok(h) => spec_parse_record_header(buffer@) == Ok::<Seq<RecordField>, Error>(h.fields@),
            Err(e) => spec_parse_record_header(buffer@) == Err::<Seq<RecordField>, Error>(e),
        },
{
    let ghost all = buffer@;
    proof {
        assert(all.subrange(0, all.len() as int) =~= all);
    }
    if !varint_in_bounds(buffer, 0) {
        return Err(Error::Truncated);
    }
    let (varint_size, header_length) = read_varint_at(buffer, 0);
    if header_length < varint_size as i64 {
        return Err(Error::Malformed);
    }
    if header_length as u64 > buffer.len() as u64 {
        return Err(Error::Truncated);
    }
    let header_length = header_length as usize;
    let codes = &buffer[varint_size as usize..header_length];
    let ghost all_codes = codes@;
    let mut pos: usize = 0;
    let mut current_offset: usize = header_length;
    let mut fields: Vec<RecordField> = Vec::new();
    proof {
        assert(all_codes.subrange(0, all_codes.len() as int) =~= all_codes);
        match spec_record_fields(all_codes, header_length as int) {
            Ok(rest) => {
                assert(fields@ + rest =~= rest);
            },
            Err(_) => {},
        }
    }
    while pos < codes.len()
        invariant
            pos <= codes@.len(),
            codes@ == all_codes,
            all == buffer@,
            spec_parse_record_header(all) == (match spec_record_fields(all_codes.subrange(pos as int, all_codes.len() as int), current_offset as int) {
                Ok(rest) => Ok::<Seq<RecordField>, Error>(fields@ + rest),
                Err(e) => Err::<Seq<RecordField>, Error>(e),
            }),
        decreases codes@.len() - pos,
    {
        let ghost rest = all_codes.subrange(pos as int, all_codes.len() as int);
        proof {
            assert(codes@.subrange(pos as int, codes@.len() as int) == rest);
        }
        if !varint_in_bounds(codes, pos) {
            proof {
                assert(spec_record_fields(rest, current_offset as int) == Err::<Seq<RecordField>, Error>(Error::Truncated));
            }
            return Err(Error::Truncated);
        }
        let (code_size, code) = read_varint_at(codes, pos);
        proof {
            lemma_varint_size_from_bound(rest, 0);
        }
        let field_type = parse_field_type(code)?;
        let field = RecordField { offset: current_offset, field_type };
        let end = match current_offset.checked_add(field_type.byte_size()) {
            Some(end) => end,
            None => {
                proof {
                    assert(spec_record_fields(rest, current_offset as int) == Err::<Seq<RecordField>, Error>(Error::Malformed));
                }
                return Err(Error::Malformed);
            },
        };
        let ghost old_fields = fields@;
        fields.push(field);
        proof {
            let next = all_codes.subrange(pos + code_size, all_codes.len() as int);
            assert(rest.subrange(code_size as int, rest.len() as int) =~= next);
            match spec_record_fields(next, end as int) {
                Ok(tail) => {
                    assert(fields@ + tail =~= old_fields + (seq![field] + tail));
                },
                Err(_) => {},
            }
        }
        current_offset = end;
        pos = pos + code_size as usize;
    }
    proof {
        assert(all_codes.subrange(pos as int, all_codes.len() as int) =~= Seq::<u8>::empty());
        assert(fields@ + Seq::<RecordField>::empty() =~= fields@);
    }
    Ok(RecordHeader { fields })
}

/// Unsigned big-endian value of `s`.
pub open spec fn be_uint(s: Seq<u8>) -> nat
    decreases s.len(),
{
    if s.len() == 0 {
        0
    } else {
        be_uint(s.drop_last()) * 256 + s.last() as nat
    }
}

pub open spec fn pow256(n: nat) -> nat
    decreases n,
{
    if n == 0 {
        1
    } else {
        256 * pow256((n - 1) as nat)
    }
}

/// Two's-complement big-endian value of `s`: the unsigned value, less 256^len when the top
/// bit is set.
pub open spec fn be_int(s: Seq<u8>) -> int {
    if 2 * be_uint(s) >= pow256(s.len()) {
        be_uint(s) - pow256(s.len())
    } else {
        be_uint(s) as int
    }
}

proof fn lemma_pow256_bound(n: nat)
    requires
        n <= 8,
    ensures
        1 <= pow256(n) <= 0x1_0000_0000_0000_0000,
        n >= 1 ==> pow256(n) % 2 == 0,
{
    reveal_with_fuel(pow256, 9);
}

/// The low `n` bytes of `u`, most significant first.
pub open spec fn be_bytes(u: nat, n: nat) -> Seq<u8>
    decreases n,
{
    if n == 0 {
        Seq::empty()
    } else {
        be_bytes(u / 256, (n - 1) as nat).push((u % 256) as u8)
    }
}

/// The `n`-byte two's-complement pattern of `v`, as an unsigned number.
pub open spec fn twos_complement(v: int, n: nat) -> nat {
    if v < 0 {
        (v + pow256(n)) as nat
    } else {
        v as nat
    }
}

proof fn lemma_be_uint_be_bytes(u: nat, n: nat)
    ensures
        be_bytes(u, n).len() == n,
        be_uint(be_bytes(u, n)) == u % pow256(n),
    decreases n,
{
    if n == 0 {
        assert(u % 1 == 0);
    } else {
        let m = pow256((n - 1) as nat);
        lemma_be_uint_be_bytes(u / 256, (n - 1) as nat);
        assert(be_bytes(u, n).drop_last() == be_bytes(u / 256, (n - 1) as nat));
        assert(m > 0) by {
            lemma_pow256_positive((n - 1) as nat);
        }
        vstd::arithmetic::div_mod::lemma_breakdown(u as int, 256, m as int);
        assert(256 * ((u / 256) % m) == ((u / 256) % m) * 256) by (nonlinear_arith);
    }
}

proof fn lemma_pow256_positive(n: nat)
    ensures
        pow256(n) > 0,
    decreases n,
{
    if n > 0 {
        lemma_pow256_positive((n - 1) as nat);
    }
}

/// Reading back the big-endian encoding of a signed value that fits in one of the record
/// integer widths (1, 2, 3, 4, 6 or 8 bytes) gives the value, sign-extended.
pub proof fn lemma_fixed_width_round_trip(v: int, n: nat)
    requires
        n == 1 || n == 2 || n == 3 || n == 4 || n == 6 || n == 8,
        -(pow256(n) / 2) <= v < pow256(n) / 2,
    ensures
        be_int(be_bytes(twos_complement(v, n), n)) == v,
{
    lemma_pow256_bound(n);
    lemma_be_uint_be_bytes(twos_complement(v, n), n);
    vstd::arithmetic::div_mod::lemma_small_mod(twos_complement(v, n), pow256(n));
}

fn read_be_uint_at(input: &[u8], offset: usize, width: usize) -> (r: (u64, u64))
    requires
        width <= 8,
        offset + width <= input@.len(),
    ensures
        r.0 == be_uint(input@.subrange(offset as int, offset + width)),
        r.1 + 1 == pow256(width as nat),
        r.0 <= r.1,
{
    let len = input.len();
    let mut value: u64 = 0;
    let mut max: u64 = 0;
    let mut i: usize = 0;
    proof {
        assert(input@.subrange(offset as int, offset as int) =~= Seq::<u8>::empty());
    }
    while i < width
        invariant
            i <= width <= 8,
            len == input@.len(),
            offset + width <= input@.len(),
            value == be_uint(input@.subrange(offset as int, offset + i)),
            max + 1 == pow256(i as nat),
            value <= max,
        decreases width - i,
    {
        proof {
            lemma_pow256_bound((i + 1) as nat);
            assert(value * 256 <= max * 256) by (nonlinear_arith)
                requires
                    value <= max,
            ;
            assert(input@.subrange(offset as int, offset + i + 1).drop_last() =~= input@.subrange(offset as int, offset + i));
        }
        value = value * 256 + input[offset + i] as u64;
        max = max * 256 + 255;
        i = i + 1;
    }
    (value, max)
}

fn read_be_signed_at(input: &[u8], offset: usize, width: usize) -> (r: i64)
    requires
        1 <= width <= 8,
        offset + width <= input@.len(),
    ensures
        r == be_int(input@.subrange(offset as int, offset + width)),
{
    let (value, max) = read_be_uint_at(input, offset, width);
    proof {
        lemma_pow256_bound(width as nat);
    }
    if value > max / 2 {
        -((max - value) as i64) - 1
    } else {
        value as i64
    }
}

/// Signed 8-bit integer at `offset`, sign-extended.
fn read_i8_at(input: &[u8], offset: usize) -> (r: i64)
    requires
        offset + 1 <= input@.len(),
    ensures
        r == be_int(input@.subrange(offset as int, offset + 1)),
{
    read_be_signed_at(input, offset, 1)
}

/// Signed big-endian 16-bit integer at `offset`, sign-extended.
fn read_i16_at(input: &[u8], offset: usize) -> (r: i64)
    requires
        offset + 2 <= input@.len(),
    ensures
        r == be_int(input@.subrange(offset as int, offset + 2)),
{
    read_be_signed_at(input, offset, 2)
}

/// Signed big-endian 24-bit integer at `offset`, sign-extended.
fn read_i24_at(input: &[u8], offset: usize) -> (r: i64)
    requires
        offset + 3 <= input@.len(),
    ensures
        r == be_int(input@.subrange(offset as int, offset + 3)),
{
    read_be_signed_at(input, offset, 3)
}

/// Signed big-endian 32-bit integer at `offset`, sign-extended.
fn read_i32_at(input: &[u8], offset: usize) -> (r: i64)
    requires
        offset + 4 <= input@.len(),
    ensures
        r == be_int(input@.subrange(offset as int, offset + 4)),
{
    read_be_signed_at(input, offset, 4)
}

/// Signed big-endian 48-bit integer at `offset`, sign-extended.
fn read_i48_at(input: &[u8], offset: usize) -> (r: i64)
    requires
        offset + 6 <= input@.len(),
    ensures
        r == be_int(input@.subrange(offset as int, offset + 6)),
{
    read_be_signed_at(input, offset, 6)
}

/// Signed big-endian 64-bit integer at `offset`.
fn read_i64_at(input: &[u8], offset: usize) -> (r: i64)
    requires
        offset + 8 <= input@.len(),
    ensures
        r == be_int(input@.subrange(offset as int, offset + 8)),
{
    read_be_signed_at(input, offset, 8)
}

/// The IEEE-754 bit pattern of the big-endian double at `offset`.
fn read_f64_bits_at(input: &[u8], offset: usize) -> (r: u64)
    requires
        offset + 8 <= input@.len(),
    ensures
        r == be_uint(input@.subrange(offset as int, offset + 8)),
{
    read_be_uint_at(input, offset, 8).0
}

/// Relies on std::str::from_utf8: it accepts exactly the well-formed UTF-8 sequences and
/// yields the characters they encode.
#[verifier::external_body]
fn utf8_to_string(bytes: &[u8]) -> (r: Option<String>)
    ensures
        r is Some <==> valid_utf8(bytes@),
        r matches Some(s) ==> s@ == decode_utf8(bytes@),
{
    std::str::from_utf8(bytes).ok().map(|s| s.to_string())
}

/// The value of field `f` decoded from the materialized record payload.
pub open spec fn spec_field_value(payload: Seq<u8>, f: RecordField) -> Result<ValueView, Error> {
    let bytes = payload.subrange(f.offset as int, f.spec_end_offset());
    if f.field_type.size() > 0 && f.spec_end_offset() > payload.len() {
        Err(Error::Truncated)
    } else {
        match f.field_type {
            RecordFieldType::Null => Ok(ValueView::Null),
            RecordFieldType::Zero => Ok(ValueView::Int(0)),
            RecordFieldType::One => Ok(ValueView::Int(1)),
            RecordFieldType::Float => Ok(ValueView::Float(be_uint(bytes) as u64)),
            RecordFieldType::String(n) => if n == 0 {
                Ok(ValueView::Text(Seq::empty()))
            } else if valid_utf8(bytes) {
                Ok(ValueView::Text(decode_utf8(bytes)))
            } else {
                Err(Error::InvalidUtf8)
            },
            RecordFieldType::Blob(n) => if n == 0 {
                Ok(ValueView::Blob(Seq::empty()))
            } else {
                Ok(ValueView::Blob(bytes))
            },
            _ => Ok(ValueView::Int(be_int(bytes) as i64)),
        }
    }
}

/// A row handle: the record header, the payload bytes read so far (the leaf cell's local
/// part, then whatever overflow pages have been appended) and the next overflow page.
#[derive(Debug)]
pub struct Cursor {
    header: RecordHeader,
    payload: Vec<u8>,
    next_overflow_page: Option<usize>,
}

pub struct CursorView {
    pub fields: Seq<RecordField>,
    pub payload: Seq<u8>,
    pub next_overflow_page: Option<usize>,
}

impl View for Cursor {
    type V = CursorView;

    closed spec fn view(&self) -> CursorView {
        CursorView {
            fields: self.header.fields@,
            payload: self.payload@,
            next_overflow_page: self.next_overflow_page,
        }
    }
}

/// Every field ends at an offset that a `usize` holds.
pub open spec fn fields_addressable(fields: Seq<RecordField>) -> bool {
    forall|i: int| 0 <= i < fields.len() ==> #[trigger] fields[i].spec_end_offset() <= usize::MAX
}

proof fn lemma_record_fields_addressable(codes: Seq<u8>, offset: int)
    requires
        offset >= 0,
    ensures
        spec_record_fields(codes, offset) matches Ok(fields) ==> fields_addressable(fields),
    decreases codes.len(),
{
    if codes.len() > 0 && varint_size(codes) <= codes.len() {
        lemma_varint_size_from_bound(codes, 0);
        if let Ok(t) = spec_field_type(varint_value(codes)) {
            let next = codes.subrange(varint_size(codes) as int, codes.len() as int);
            lemma_record_fields_addressable(next, offset + t.size());
            if let Ok(fields) = spec_record_fields(codes, offset) {
                let rest = spec_record_fields(next, offset + t.size())->Ok_0;
                assert(offset + t.size() <= usize::MAX);
                assert(fields == seq![RecordField { offset: offset as usize, field_type: t }] + rest);
                assert forall|i: int| 0 <= i < fields.len() implies #[trigger] fields[i].spec_end_offset() <= usize::MAX by {
                    if i > 0 {
                        assert(fields[i] == rest[i - 1]);
                    }
                }
            }
        }
    }
}

/// Reading a field again after more overflow bytes have been appended to the payload gives
/// the value that the first read gave.
pub proof fn lemma_field_value_stable(payload: Seq<u8>, extra: Seq<u8>, f: RecordField)
    requires
        spec_field_value(payload, f) is Ok,
    ensures
        spec_field_value(payload + extra, f) == spec_field_value(payload, f),
{
    if f.field_type.size() > 0 {
        assert((payload + extra).subrange(f.offset as int, f.spec_end_offset()) =~= payload.subrange(f.offset as int, f.spec_end_offset()));
    }
}

impl Cursor {
    pub open spec fn wf(&self) -> bool {
        fields_addressable(self@.fields)
    }

    /// A cursor over the row of a leaf cell: its record header parsed, its local payload
    /// copied, and its overflow chain not yet read.
    pub fn from_leaf_cell(cell: &TableLeafCell) -> (r: Result<Cursor, Error>)
        ensures
            match r {
                Ok(c) => {
                    &&& spec_parse_record_header(cell.payload@) == Ok::<Seq<RecordField>, Error>(c@.fields)
                    &&& c@.payload == cell.payload@
                    &&& c@.next_overflow_page == cell.first_overflow
                    &&& c.wf()
                },
                Err(e) => spec_parse_record_header(cell.payload@) == Err::<Seq<RecordField>, Error>(e),
            },
    {
        let header = parse_record_header(cell.payload.as_slice())?;
        proof {
            let p = cell.payload@;
            assert(varint_value(p) >= 0);
            lemma_record_fields_addressable(p.subrange(varint_size(p) as int, varint_value(p)), varint_value(p));
        }
        Ok(Cursor {
            header,
            payload: vstd::slice::slice_to_vec(cell.payload.as_slice()),
            next_overflow_page: cell.first_overflow,
        })
    }

    /// The overflow page to read next so that field `n` lies within the payload: present
    /// while the field ends past the bytes read so far and the chain goes on.
    pub fn pending_overflow(&self, n: usize) -> (r: Option<usize>)
        requires
            self.wf(),
        ensures
            r == if n < self@.fields.len() && self@.fields[n as int].spec_end_offset() > self@.payload.len() {
                self@.next_overflow_page
            } else {
                None
            },
    {
        if n >= self.header.fields.len() {
            return None;
        }
        let end_offset = self.header.fields[n].end_offset();
        if end_offset > self.payload.len() {
            self.next_overflow_page
        } else {
            None
        }
    }

    /// Appends the payload of the next overflow page of the chain and moves on to its
    /// successor.
    pub fn append_overflow(&mut self, page: &OverflowPage)
        requires
            old(self).wf(),
        ensures
            final(self).wf(),
            final(self)@.fields == old(self)@.fields,
            final(self)@.payload == old(self)@.payload + page.payload@,
            final(self)@.next_overflow_page == page.next,
    {
        self.payload.extend_from_slice(page.payload.as_slice());
        self.next_overflow_page = page.next;
    }

    /// Field `n` decoded from the payload read so far; `None` past the last field.
    pub fn field(&self, n: usize) -> (r: Result<Option<Value>, Error>)
        requires
            self.wf(),
        ensures
            match r {
                Ok(None) => n >= self@.fields.len(),
                Ok(Some(v)) => n < self@.fields.len() && spec_field_value(self@.payload, self@.fields[n as int]) == Ok::<ValueView, Error>(v@),
                Err(e) => n < self@.fields.len() && spec_field_value(self@.payload, self@.fields[n as int]) == Err::<ValueView, Error>(e),
            },
    {
        if n >= self.header.fields.len() {
            return Ok(None);
        }
        let record_field = self.header.fields[n];
        let offset = record_field.offset;
        let end = record_field.end_offset();
        let size = record_field.field_type.byte_size();
        if size > 0 && end > self.payload.len() {
            return Err(Error::Truncated);
        }
        let payload = self.payload.as_slice();
        let value = match record_field.field_type {
            RecordFieldType::Null => Value::Null,
            RecordFieldType::Zero => Value::Int(0),
            RecordFieldType::One => Value::Int(1),
            RecordFieldType::I8 => Value::Int(read_i8_at(payload, offset)),
            RecordFieldType::I16 => Value::Int(read_i16_at(payload, offset)),
            RecordFieldType::I24 => Value::Int(read_i24_at(payload, offset)),
            RecordFieldType::I32 => Value::Int(read_i32_at(payload, offset)),
            RecordFieldType::I48 => Value::Int(read_i48_at(payload, offset)),
            RecordFieldType::I64 => Value::Int(read_i64_at(payload, offset)),
            RecordFieldType::Float => Value::Float(read_f64_bits_at(payload, offset)),
            RecordFieldType::String(length) => {
                if length == 0 {
                    Value::String(String::new())
                } else {
                    match utf8_to_string(&payload[offset..end]) {
                        Some(s) => Value::String(s),
                        None => return Err(Error::InvalidUtf8),
                    }
                }
            },
            RecordFieldType::Blob(length) => {
                if length == 0 {
                    Value::Blob(Vec::new())
                } else {
                    Value::Blob(vstd::slice::slice_to_vec(&payload[offset..end]))
                }
            },
        };
        Ok(Some(value))
    }
}

/// A page on the scanner's stack and the index of the next cell to visit.
#[derive(Debug)]
pub struct PositionedPage {
    pub page: Arc<Page>,
    pub cell: usize,
}

impl PositionedPage {
    /// The cell under the position (none past the last cell); the position moves on by one
    /// either way.
    pub fn next_cell(&mut self) -> (r: Option<&Cell>)
        requires
            old(self).cell < usize::MAX,
        ensures
            final(self).page == old(self).page,
            final(self).cell == old(self).cell + 1,
            old(self).cell < old(self).page.cells@.len() ==> r == Some(&old(self).page.cells@[old(self).cell as int]),
            old(self).cell >= old(self).page.cells@.len() ==> r is None,
    {
        let cell = self.page.get(self.cell);
        self.cell = self.cell + 1;
        cell
    }

    /// On an interior page whose cells have all been visited, the rightmost child, once:
    /// the position then moves past the end.
    pub fn next_page(&mut self) -> (r: Option<u32>)
        requires
            old(self).page.wf(),
        ensures
            final(self).page == old(self).page,
            if old(self).page.header.page_type == PageType::TableInterior && old(self).cell == old(self).page.cells@.len() {
                r == old(self).page.header.rightmost_pointer && final(self).cell == old(self).cell + 1
            } else {
                r is None && final(self).cell == old(self).cell
            },
    {
        if self.page.header.page_type == PageType::TableInterior && self.cell == self.page.cells.len() {
            self.cell = self.cell + 1;
            self.page.header.rightmost_pointer
        } else {
            None
        }
    }
}

/// What a scanner step asks for or yields: a page to read and push, or a row.
#[derive(Debug)]
pub enum ScannerElem {
    Page(usize),
    Cursor(Cursor),
}

/// What a scanner step comes to, before the row's record header is parsed.
pub enum StepView {
    Page(usize),
    Row(TableLeafCell),
    Done,
}

/// One step of the depth-first traversal from the stack `stack`: the stack after it and what
/// it comes to. An empty stack asks for the root page; an interior page whose cells are
/// done gives its rightmost child, once; otherwise the next cell gives its left child or its
/// row; an exhausted page is popped unless it is the root, whose end ends the scan.
pub open spec fn spec_next_elem(stack: Seq<PositionedPage>, initial_page: usize) -> (Seq<PositionedPage>, StepView)
    decreases stack.len(),
{
    if stack.len() == 0 {
        (stack, StepView::Page(initial_page))
    } else {
        let last = stack.len() - 1;
        let top = stack[last];
        let moved = stack.update(last, PositionedPage { page: top.page, cell: (top.cell + 1) as usize });
        if top.page.header.page_type == PageType::TableInterior && top.cell == top.page.cells@.len()
            && top.page.header.rightmost_pointer is Some {
            (moved, StepView::Page(top.page.header.rightmost_pointer->Some_0 as usize))
        } else if top.cell < top.page.cells@.len() {
            match top.page.cells@[top.cell as int] {
                Cell::TableLeaf(c) => (moved, StepView::Row(c)),
                Cell::TableInterior(c) => (moved, StepView::Page(c.left_child_page as usize)),
            }
        } else if stack.len() > 1 {
            spec_next_elem(stack.drop_last(), initial_page)
        } else if top.cell <= top.page.cells@.len() {
            (moved, StepView::Done)
        } else {
            (stack, StepView::Done)
        }
    }
}

/// Depth-first traversal of a table B-tree. The scanner decides; its caller reads each page
/// that a step asks for and pushes it before the next step.
#[derive(Debug)]
pub struct Scanner {
    initial_page: usize,
    page_stack: Vec<PositionedPage>,
}

pub struct ScannerView {
    pub initial_page: usize,
    pub stack: Seq<PositionedPage>,
}

impl View for Scanner {
    type V = ScannerView;

    closed spec fn view(&self) -> ScannerView {
        ScannerView { initial_page: self.initial_page, stack: self.page_stack@ }
    }
}

impl Scanner {
    /// Every page on the stack is as parsing produces it.
    pub open spec fn wf(&self) -> bool {
        forall|i: int| 0 <= i < self@.stack.len() ==> (#[trigger] self@.stack[i]).page.wf()
    }

    /// A scanner over the table whose root is page `page`; nothing is read yet.
    pub fn new(page: usize) -> (r: Scanner)
        ensures
            r@.initial_page == page,
            r@.stack.len() == 0,
            r.wf(),
    {
        Scanner { initial_page: page, page_stack: Vec::new() }
    }

    /// Pushes the page that the last step asked for; the traversal resumes at its first cell.
    pub fn push_page(&mut self, page: Arc<Page>)
        requires
            old(self).wf(),
            page.wf(),
        ensures
            final(self).wf(),
            final(self)@.initial_page == old(self)@.initial_page,
            final(self)@.stack == old(self)@.stack.push(PositionedPage { page, cell: 0 }),
    {
        self.page_stack.push(PositionedPage { page, cell: 0 });
    }

    /// One step of the traversal: `Page(n)` asks for page `n` to be pushed, `Cursor` yields a
    /// row, `None` ends the scan. A row whose record header does not parse gives the error.
    pub fn next_elem(&mut self) -> (r: Result<Option<ScannerElem>, Error>)
        requires
            old(self).wf(),
        ensures
            final(self).wf(),
            final(self)@.initial_page == old(self)@.initial_page,
            final(self)@.stack == spec_next_elem(old(self)@.stack, old(self)@.initial_page).0,
            ({
                let step = spec_next_elem(old(self)@.stack, old(self)@.initial_page).1;
                match r {
                    Ok(None) => step is Done,
                    Ok(Some(ScannerElem::Page(n))) => step == StepView::Page(n),
                    Ok(Some(ScannerElem::Cursor(c))) => step matches StepView::Row(cell) && {
                        &&& spec_parse_record_header(cell.payload@) == Ok::<Seq<RecordField>, Error>(c@.fields)
                        &&& c@.payload == cell.payload@
                        &&& c@.next_overflow_page == cell.first_overflow
                        &&& c.wf()
                    },
                    Err(e) => step matches StepView::Row(cell)
                        && spec_parse_record_header(cell.payload@) == Err::<Seq<RecordField>, Error>(e),
                }
            }),
    {
        let ghost start = self.page_stack@;
        loop
            invariant
                self.wf(),
                self.initial_page == old(self).initial_page,
                spec_next_elem(self.page_stack@, self.initial_page) == spec_next_elem(start, self.initial_page),
                start == old(self)@.stack,
            decreases self.page_stack@.len(),
        {
            if self.page_stack.len() == 0 {
                return Ok(Some(ScannerElem::Page(self.initial_page)));
            }
            let ghost before = self.page_stack@;
            let mut top = self.page_stack.pop().unwrap();
            proof {
                assert(before.drop_last() == self.page_stack@);
                assert(top == before[before.len() - 1]);
                assert(top.page.wf());
            }
            if let Some(page) = top.next_page() {
                self.page_stack.push(top);
                proof {
                    assert(self.page_stack@ == before.update(before.len() - 1, top));
                }
                return Ok(Some(ScannerElem::Page(page as usize)));
            }
            let past_end = top.cell > top.page.cells.len();
            let next = if past_end {
                None
            } else {
                top.next_cell()
            };
            match next {
                Some(Cell::TableLeaf(cell)) => {
                    let cursor = Cursor::from_leaf_cell(cell);
                    self.page_stack.push(top);
                    proof {
                        assert(self.page_stack@ == before.update(before.len() - 1, top));
                    }
                    return match cursor {
                        Ok(c) => Ok(Some(ScannerElem::Cursor(c))),
                        Err(e) => Err(e),
                    };
                },
                Some(Cell::TableInterior(cell)) => {
                    let child = cell.left_child_page;
                    self.page_stack.push(top);
                    proof {
                        assert(self.page_stack@ == before.update(before.len() - 1, top));
                    }
                    return Ok(Some(ScannerElem::Page(child as usize)));
                },
                None => {
                    if self.page_stack.len() == 0 {
                        self.page_stack.push(top);
                        proof {
                            assert(self.page_stack@ == before.update(before.len() - 1, top));
                            if past_end {
                                assert(self.page_stack@ =~= before);
                            }
                        }
                        return Ok(None);
                    }
                },
            }
        }
    }
}

/// The rows that page `p` of a table B-tree yields from cell `i` on, at `depth` levels above
/// the lowest allowed: a leaf cell is a row, an interior cell's left child yields its rows,
/// and after the last cell an interior page's rightmost child yields its rows.
pub open spec fn page_rows(pages: Map<usize, Page>, p: Page, depth: nat, i: int) -> Seq<TableLeafCell>
    decreases depth, p.cells@.len() + 1 - i,
{
    if depth == 0 || i < 0 {
        Seq::empty()
    } else if i < p.cells@.len() {
        match p.cells@[i] {
            Cell::TableLeaf(c) => seq![c] + page_rows(pages, p, depth, i + 1),
            Cell::TableInterior(c) => tree_rows(pages, c.left_child_page as usize, (depth - 1) as nat)
                + page_rows(pages, p, depth, i + 1),
        }
    } else if i == p.cells@.len() && p.header.page_type == PageType::TableInterior
        && p.header.rightmost_pointer is Some {
        tree_rows(pages, p.header.rightmost_pointer->Some_0 as usize, (depth - 1) as nat)
    } else {
        Seq::empty()
    }
}

/// The rows of the B-tree rooted at page `n` of `pages`, in key order.
pub open spec fn tree_rows(pages: Map<usize, Page>, n: usize, depth: nat) -> Seq<TableLeafCell>
    decreases depth, pages[n].cells@.len() + 2,
{
    if depth == 0 || !pages.contains_key(n) {
        Seq::empty()
    } else {
        page_rows(pages, pages[n], depth, 0)
    }
}

/// Whether every page that page `p` leads to from cell `i` on is in `pages`, within `depth`
/// levels.
pub open spec fn page_within(pages: Map<usize, Page>, p: Page, depth: nat, i: int) -> bool
    decreases depth, p.cells@.len() + 1 - i,
{
    if depth == 0 || i < 0 {
        false
    } else if i < p.cells@.len() {
        match p.cells@[i] {
            Cell::TableLeaf(_) => page_within(pages, p, depth, i + 1),
            Cell::TableInterior(c) => tree_within(pages, c.left_child_page as usize, (depth - 1) as nat)
                && page_within(pages, p, depth, i + 1),
        }
    } else if i == p.cells@.len() && p.header.page_type == PageType::TableInterior
        && p.header.rightmost_pointer is Some {
        tree_within(pages, p.header.rightmost_pointer->Some_0 as usize, (depth - 1) as nat)
    } else {
        true
    }
}

/// Whether page `n` and every page below it are in `pages`, within `depth` levels.
pub open spec fn tree_within(pages: Map<usize, Page>, n: usize, depth: nat) -> bool
    decreases depth, pages[n].cells@.len() + 2,
{
    depth > 0 && pages.contains_key(n) && page_within(pages, pages[n], depth, 0)
}

/// The rows still to come from a scanner stack whose bottom page sits `depth` levels up.
pub open spec fn stack_rows(pages: Map<usize, Page>, depth: nat, stack: Seq<PositionedPage>) -> Seq<TableLeafCell>
    decreases stack.len(),
{
    if stack.len() == 0 {
        Seq::empty()
    } else {
        let top = stack.last();
        page_rows(pages, *top.page, (depth - (stack.len() - 1)) as nat, top.cell as int)
            + stack_rows(pages, depth, stack.drop_last())
    }
}

/// Whether every page of `pages` is as parsing produces it.
pub open spec fn pages_wf(pages: Map<usize, Page>) -> bool {
    forall|n: usize| #[trigger] pages.contains_key(n) ==> pages[n].wf()
}

/// Whether the pages on a scanner stack whose bottom page sits `depth` levels up lead only to
/// pages of `pages`, within the levels left below each, and are as parsing produces them.
pub open spec fn stack_within(pages: Map<usize, Page>, depth: nat, stack: Seq<PositionedPage>) -> bool {
    &&& stack.len() <= depth
    &&& forall|j: int| 0 <= j < stack.len() ==> (*(#[trigger] stack[j]).page).wf()
    &&& forall|j: int| 0 <= j < stack.len() ==> page_within(pages, *(#[trigger] stack[j]).page, (depth - j) as nat, stack[j].cell as int)
}

/// A scan visits a table B-tree in key order: left children in cell order, then the
/// rightmost child, so a table's rows come out in ascending row id. Take the rows of the
/// tree rooted at `root` (at most `depth` levels) and a scan of it in progress: `emitted`,
/// the rows it has yielded, followed by the rows its stack still holds, are the tree's rows.
/// Then one step keeps that so: a row step yields the next row of the tree; a page step asks
/// for a page of the tree whose rows come next; the end comes once every row is yielded.
#[verifier::rlimit(40)]
pub proof fn lemma_scan_step_in_order(
    pages: Map<usize, Page>,
    root: usize,
    depth: nat,
    stack: Seq<PositionedPage>,
    emitted: Seq<TableLeafCell>,
)
    requires
        pages_wf(pages),
        stack.len() == 0 ==> emitted.len() == 0 && tree_within(pages, root, depth),
        stack.len() > 0 ==> stack_within(pages, depth, stack) && emitted + stack_rows(pages, depth, stack)
            == tree_rows(pages, root, depth),
    ensures
        ({
            let (next, step) = spec_next_elem(stack, root);
            match step {
                StepView::Row(c) => next.len() > 0 && stack_within(pages, depth, next)
                    && emitted.push(c) + stack_rows(pages, depth, next) == tree_rows(pages, root, depth),
                StepView::Page(n) => next.len() < depth && stack_within(pages, depth, next)
                    && tree_within(pages, n, (depth - next.len()) as nat)
                    && emitted + tree_rows(pages, n, (depth - next.len()) as nat) + stack_rows(pages, depth, next)
                    == tree_rows(pages, root, depth),
                StepView::Done => emitted == tree_rows(pages, root, depth),
            }
        }),
    decreases stack.len(),
{
    let total = tree_rows(pages, root, depth);
    if stack.len() == 0 {
        assert(emitted + tree_rows(pages, root, depth) + Seq::<TableLeafCell>::empty() =~= total);
        return;
    }
    let last = stack.len() - 1;
    let top = stack[last];
    let p = *top.page;
    let d = (depth - last) as nat;
    let i = top.cell as int;
    let rest = stack_rows(pages, depth, stack.drop_last());
    let moved = stack.update(last, PositionedPage { page: top.page, cell: (top.cell + 1) as usize });
    assert(page_within(pages, *stack[last].page, (depth - last) as nat, stack[last].cell as int));
    assert(p.wf());
    assert(d >= 1);
    assert(stack_rows(pages, depth, stack) == page_rows(pages, p, d, i) + rest);
    assert(moved.drop_last() =~= stack.drop_last());
    assert(forall|j: int| 0 <= j < last ==> moved[j] == stack[j]);
    assert((*moved[last].page).wf());
    if p.header.page_type == PageType::TableInterior && i == p.cells@.len() && p.header.rightmost_pointer is Some {
        let rm = p.header.rightmost_pointer->Some_0 as usize;
        assert(page_rows(pages, p, d, i + 1) =~= Seq::<TableLeafCell>::empty());
        assert(stack_rows(pages, depth, moved) == page_rows(pages, p, d, i + 1) + rest);
        assert(page_within(pages, *moved[last].page, (depth - last) as nat, moved[last].cell as int));
        assert(emitted + tree_rows(pages, rm, (d - 1) as nat) + stack_rows(pages, depth, moved) =~= emitted + (
        page_rows(pages, p, d, i) + rest));
        assert(tree_within(pages, rm, (d - 1) as nat));
        assert(stack_within(pages, depth, moved));
        assert(spec_next_elem(stack, root) == (moved, StepView::Page(rm)));
        assert(moved.len() < depth);
        assert((depth - moved.len()) as nat == (d - 1) as nat);
    } else if i < p.cells@.len() {
        assert(stack_rows(pages, depth, moved) == page_rows(pages, p, d, i + 1) + rest);
        assert(page_within(pages, *moved[last].page, (depth - last) as nat, moved[last].cell as int));
        assert(stack_within(pages, depth, moved));
        match p.cells@[i] {
            Cell::TableLeaf(c) => {
                assert(emitted.push(c) + stack_rows(pages, depth, moved) =~= emitted + (page_rows(pages, p, d, i) + rest));
                assert(spec_next_elem(stack, root) == (moved, StepView::Row(c)));
            },
            Cell::TableInterior(c) => {
                let child = c.left_child_page as usize;
                assert(emitted + tree_rows(pages, child, (d - 1) as nat) + stack_rows(pages, depth, moved) =~= emitted + (
                page_rows(pages, p, d, i) + rest));
                assert(tree_within(pages, child, (d - 1) as nat));
                assert(spec_next_elem(stack, root) == (moved, StepView::Page(child)));
                assert(moved.len() < depth);
                assert((depth - moved.len()) as nat == (d - 1) as nat);
            },
        }
    } else {
        assert(page_rows(pages, p, d, i) =~= Seq::<TableLeafCell>::empty());
        assert(emitted + stack_rows(pages, depth, stack) =~= emitted + rest);
        if stack.len() > 1 {
            let below = stack.drop_last();
            assert(forall|j: int| 0 <= j < below.len() ==> below[j] == stack[j]);
            lemma_scan_step_in_order(pages, root, depth, below, emitted);
        } else {
            assert(rest =~= Seq::<TableLeafCell>::empty());
            assert(emitted + rest =~= emitted);
        }
    }
}

/// Pushing the page that a step asked for, read from the tree, keeps the scan in key order:
/// the rows yielded so far, then the rows the stack holds, are again the tree's rows.
pub proof fn lemma_scan_push_in_order(
    pages: Map<usize, Page>,
    root: usize,
    depth: nat,
    stack: Seq<PositionedPage>,
    emitted: Seq<TableLeafCell>,
    n: usize,
    frame: PositionedPage,
)
    requires
        pages_wf(pages),
        stack.len() < depth,
        stack_within(pages, depth, stack),
        tree_within(pages, n, (depth - stack.len()) as nat),
        emitted + tree_rows(pages, n, (depth - stack.len()) as nat) + stack_rows(pages, depth, stack)
            == tree_rows(pages, root, depth),
        *frame.page == pages[n],
        frame.cell == 0,
    ensures
        stack_within(pages, depth, stack.push(frame)),
        emitted + stack_rows(pages, depth, stack.push(frame)) == tree_rows(pages, root, depth),
{
    let pushed = stack.push(frame);
    assert(pushed.drop_last() =~= stack);
    assert(forall|j: int| 0 <= j < stack.len() ==> pushed[j] == stack[j]);
    assert(pushed[stack.len() as int] == frame);
    assert(pages.contains_key(n));
    assert(emitted + stack_rows(pages, depth, pushed) =~= emitted + tree_rows(pages, n, (depth - stack.len()) as nat)
        + stack_rows(pages, depth, stack));
}

} // verus!
