use vstd::prelude::*;

use crate::cursor::Scanner;

verus! {

/// A query plan the engine can run.
#[derive(Debug)]
pub enum Operator {
    SeqScan(SeqScan),
}

/// A full scan of a table that yields, for each row, the record fields at `fields`, in order.
#[derive(Debug)]
pub struct SeqScan {
    pub fields: Vec<usize>,
    pub scanner: Scanner,
}

impl SeqScan {
    pub fn new(fields: Vec<usize>, scanner: Scanner) -> (r: Self)
        ensures
            r.fields@ == fields@,
            r.scanner == scanner,
    {
        Self { fields, scanner }
    }
}

} // verus!
