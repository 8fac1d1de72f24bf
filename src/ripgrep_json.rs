use vstd::prelude::*;

verus! {

/// A piece of text of a search record.
#[derive(Clone, Debug)]
pub struct Text {
    pub text: String,
}

/// One submatch of a matching line: its text and its byte range in the line.
#[derive(Clone, Debug)]
pub struct SubMatch {
    pub submatch: Text,
    pub start: u32,
    pub end: u32,
}

/// Totals of a search.
#[derive(Clone, Debug)]
pub struct Stats {
    pub matched_lines: u32,
    pub matches: u32,
    pub searches: u32,
    pub searches_with_match: u32,
}

/// One record of the search output.
#[derive(Clone, Debug)]
pub enum Match {
    /// The matches of a file begin.
    Begin { path: Text },
    /// One matching line.
    Match {
        path: Text,
        lines: Text,
        line_number: u32,
        absolute_offset: u32,
        submatches: Vec<SubMatch>,
    },
    /// The matches of a file end.
    End { path: Text },
    /// Totals of the whole search.
    Summary { stats: Stats },
}

} // verus!
