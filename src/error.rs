use vstd::prelude::*;

verus! {

/// Why a table, or a whole extraction, could not be made. Each variant holds
/// the offending raw value, when there is one.
#[derive(Debug)]
pub enum TableExtractorError {
    /// A span attribute that is not a number, or a column span that runs past
    /// the table's width before the last cell of its row.
    InvalidCellSpanError(String),
    /// A cell spanning rows from above meets a cell spanning columns.
    OverlapSpanError(String),
    /// The document's address is not a valid absolute URL.
    InvalidUrlError(String),
    /// The element is not one that this step reads, or its content nests
    /// deeper than the document has nodes.
    ExtractionLimitError(String),
}

} // verus!
