use vstd::prelude::*;

pub mod cursor;
pub mod db;
pub mod engine;
pub mod error;
pub mod page;
pub mod pager;
pub mod sql;
pub mod value;

verus! {

} // verus!
