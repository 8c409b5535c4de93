//! The failures that the constructors and accessors of this crate report.

use vstd::prelude::*;

verus! {

/// Every way in which an operation of this crate can fail.
///
/// All failures are ordinary values: an operation that returns one has left
/// its arguments as they were.
#[derive(Clone, Copy, Debug, PartialEq, Eq, Structural)]
pub enum Error {
    /// The dimension name at `position` is empty or repeats an earlier name.
    InvalidName { position: usize },
    /// The entry at `position` holds `actual` values where the label set has
    /// `expected` dimensions.
    EntrySize { position: usize, expected: usize, actual: usize },
    /// The entry at `position` repeats the entry at `first`.
    DuplicateEntry { position: usize, first: usize },
    /// The data has extent `actual` along `axis`, where the labels of that
    /// axis hold `expected` entries.
    ShapeMismatch { axis: usize, expected: usize, actual: usize },
    /// The labels describe `components + 2` axes and the data has `actual`.
    AxisCountMismatch { components: usize, actual: usize },
    /// The block already has a gradient with respect to this parameter.
    DuplicateParameter,
    /// The samples of a gradient do not start with a dimension `sample`
    /// whose values are positions among the samples of the parent.
    SamplesMismatch,
    /// The components of a gradient differ from those of its parent.
    ComponentsMismatch,
    /// The properties of a gradient differ from those of its parent.
    PropertiesMismatch,
    /// A tensor map was given `keys` key entries for `blocks` blocks.
    KeyCountMismatch { keys: usize, blocks: usize },
    /// The blocks at `first` and `second` are tied by their keys and have
    /// different properties.
    PropertiesInconsistent { first: usize, second: usize },
    /// `index` is not below `len`.
    IndexOutOfRange { index: usize, len: usize },
    /// The view asked for, used or released cannot stand beside the views
    /// that are outstanding.
    BorrowConflict,
    /// The data handle does not accept writes.
    ReadOnly,
}

} // verus!
