//! Runtime settings of the command-line tool.

use vstd::prelude::*;

verus! {

/// The tool's settings: where the journal file lives and whether mutating
/// commands print the affected record.
#[derive(Clone, Debug)]
pub struct Settings {
    pub journal_file: String,
    pub print: bool,
}

impl Default for Settings {
    /// The built-in defaults: the journal lives in `journal.txt` beside the
    /// working directory, and records are printed.
    fn default() -> (s: Settings)
        ensures
            s.journal_file@ == "journal.txt"@,
            s.print == true,
    {
        Settings { journal_file: "journal.txt".to_owned(), print: true }
    }
}

} // verus!
