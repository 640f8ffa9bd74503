//! Presentation settings of the tables the command line prints.
use vstd::prelude::*;

verus! {

/// The look of a table.
#[derive(Debug, Clone, Copy, PartialEq, Eq, Structural)]
pub enum TableTheme {
    Default,
    Compact,
    Detailed,
}

/// A table's theme and, if any, its greatest width in columns.
#[derive(Debug, Clone, Copy, PartialEq, Eq, Structural)]
pub struct TableStyle {
    pub theme: TableTheme,
    pub max_width: Option<u16>,
}

impl Default for TableStyle {
    fn default() -> (r: Self)
        ensures
            r.theme == TableTheme::Default,
            r.max_width is None,
    {
        TableStyle { theme: TableTheme::Default, max_width: None }
    }
}

} // verus!
