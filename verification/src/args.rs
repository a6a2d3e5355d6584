//! Run options: which rows to sort by, how to display cells, which branch
//! and date bound to analyze, and the target path.

use vstd::prelude::*;

verus! {

/// Options of one run, as plain values.
pub struct Args {
    /// Sort rows alphabetically by author name instead of by line volume.
    pub alphabetical: bool,
    /// Display each cell as a percentage of its period's column total.
    pub as_percent: bool,
    /// Report excluded files together with the reason for each.
    pub show_excluded: bool,
    /// Branch to analyze; the default branch when absent.
    pub branch: Option<String>,
    /// Upper date bound `YYYY-MM-DD` on every snapshot; no bound when absent.
    pub date: Option<String>,
    /// Path of a folder inside the repository to analyze.
    pub path: String,
}

} // verus!
