//! The window layouts: wide with a side panel, or compact with sheets.
use vstd::prelude::*;

verus! {

/// The arrangement of the window.
#[derive(Clone, Copy, PartialEq, Eq, Debug, Structural)]
pub enum Kind {
    Wide,
    Compact,
}

/// A sheet of the compact layout.
#[derive(Clone, Copy, PartialEq, Eq, Debug, Structural)]
pub enum Sheet {
    MapSheet,
    Tools,
    Generate,
    View,
}

impl Sheet {
    /// Every sheet, in the order of their tabs.
    pub const ALL: [Sheet; 4] = [Sheet::MapSheet, Sheet::Tools, Sheet::Generate, Sheet::View];

    /// The sheet's tab label.
    pub fn label(self) -> (s: &'static str)
        ensures
            s@ == match self {
                Sheet::MapSheet => "Map"@,
                Sheet::Tools => "Tools"@,
                Sheet::Generate => "Generate"@,
                Sheet::View => "View"@,
            },
    {
        match self {
            Sheet::MapSheet => "Map",
            Sheet::Tools => "Tools",
            Sheet::Generate => "Generate",
            Sheet::View => "View",
        }
    }
}

} // verus!
