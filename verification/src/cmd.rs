//! Command metadata and the user-facing offset convention.

use vstd::prelude::*;

verus! {

/// Descriptive metadata for one CLI command or argument: its argument-map key
/// (`upcase_name`), its command-line name, its one-letter short form and its
/// help text.
pub struct Cmd {
    pub upcase_name: &'static str,
    pub name: &'static str,
    pub short: &'static str,
    pub desc: &'static str,
}

impl Default for Cmd {
    /// An empty command description.
    fn default() -> (c: Cmd)
        ensures
            c.upcase_name@ =~= Seq::<char>::empty(),
            c.name@ =~= Seq::<char>::empty(),
            c.short@ =~= Seq::<char>::empty(),
            c.desc@ =~= Seq::<char>::empty(),
    {
        proof {
            reveal_strlit("");
        }
        Cmd { upcase_name: "", name: "", short: "", desc: "" }
    }
}

/// Maps the user-facing "n records back from the most recent, 0 = most
/// recent" count to the journal's signed addressing scheme, where `-1` is the
/// last line and `-(k)` the k-th line counting backward from the end.
pub fn internal_offset(n: i32) -> (r: i64)
    ensures
        r == -(n as int) - 1,
{
    -(n as i64) - 1
}

} // verus!
