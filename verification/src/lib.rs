use vstd::prelude::*;

pub mod text;
pub mod edinet;
pub mod xbrl;
pub mod ingest;
pub mod repack;
pub mod master;
pub mod company;
pub mod decision;
pub mod codelist;

verus! {
}
