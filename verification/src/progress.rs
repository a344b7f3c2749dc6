//! Progress reports over long tables.

use vstd::prelude::*;

verus! {

/// After how many rows progress is reported.
pub const REPORT_EVERY: u64 = 10_000_000;

/// The rows so far in millions, each time that progress is to be reported.
pub fn progress_mark(rows: u64) -> (millions: Option<u64>)
    ensures
        millions == (if rows % REPORT_EVERY == 0 {
            Some(rows / 1_000_000)
        } else {
            None
        }),
        millions is Some <==> rows % 10_000_000 == 0,
        millions matches Some(millions) ==> millions * 1_000_000 == rows,
{
    if rows % REPORT_EVERY == 0 {
        Some(rows / 1_000_000)
    } else {
        None
    }
}

} // verus!
