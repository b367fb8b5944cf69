//! One line of the tree, before it is turned into text.

use vstd::prelude::*;
use vstd::string::*;

verus! {

/// One shown entry, with all that its line of text depends on.
#[derive(Debug, PartialEq, Eq)]
pub struct Line {
    /// One column of indentation for each directory between the root and the
    /// entry, outermost first: `true` where a vertical bar runs through the
    /// column, because that directory has siblings further down.
    pub columns: Vec<bool>,
    /// Whether the entry is the last that is shown of its directory.
    pub last: bool,
    /// What stands in front of the name: the directory's path and a
    /// separator, or nothing.
    pub base: String,
    pub name: String,
    pub is_dir: bool,
    /// The size that is shown behind the name, if one is.
    pub size: Option<u64>,
}

/// The mathematical content of a [`Line`].
pub struct LineView {
    pub columns: Seq<bool>,
    pub last: bool,
    pub base: Seq<char>,
    pub name: Seq<char>,
    pub is_dir: bool,
    pub size: Option<u64>,
}

impl View for Line {
    type V = LineView;

    open spec fn view(&self) -> LineView {
        LineView {
            columns: self.columns@,
            last: self.last,
            base: self.base@,
            name: self.name@,
            is_dir: self.is_dir,
            size: self.size,
        }
    }
}

impl DeepView for Line {
    type V = LineView;

    open spec fn deep_view(&self) -> LineView {
        self@
    }
}

} // verus!
