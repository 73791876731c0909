//! Reading the whole table, page by page.
//!
//! Each page comes with the key at which the next one starts, or without
//! one if it is the last. The pages are read one after the other, and all
//! their records are kept.

use crate::record::Record;
use vstd::prelude::*;

verus! {

/// The records of a page; a page may come without a list of records.
pub open spec fn page_records(items: Option<Vec<Record>>) -> Seq<Record> {
    match items {
        Some(records) => records@,
        None => Seq::empty(),
    }
}

/// Adds a page to the records read so far, and returns the key at which the
/// next page starts, or nothing if the page was the last.
pub fn absorb_page(
    rows: &mut Vec<Record>,
    items: Option<Vec<Record>>,
    last_evaluated_key: Option<Record>,
) -> (next: Option<Record>)
    ensures
        final(rows)@ == old(rows)@ + page_records(items),
        next == last_evaluated_key,
{
    match items {
        Some(records) => {
            let mut records = records;
            rows.append(&mut records);
        },
        None => {
            assert(rows@ + Seq::<Record>::empty() =~= rows@);
        },
    }
    last_evaluated_key
}

} // verus!
