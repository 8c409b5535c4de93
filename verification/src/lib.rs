//! Storage for numeric arrays whose axes carry labels.
//!
//! A [`Labels`] value names the entries along one axis of an array.
//! A [`TensorBlock`] joins one array with the labels of each of its axes and
//! with the gradients of its values. A [`TensorMap`] collects blocks under
//! keys, which are labels again.

use vstd::prelude::*;

pub mod block;
pub mod data;
pub mod errors;
pub mod labels;
pub mod tensor;

pub use crate::block::{BlockView, TensorBlock};
pub use crate::data::{Access, AccessView, Array, ArrayRef, ArrayRefMut, DenseArray, EmptyArray};
pub use crate::errors::Error;
pub use crate::labels::{LabelValue, Labels, LabelsBuilder, LabelsIter, LabelsView};
pub use crate::tensor::{TensorMap, TensorMapView};

verus! {

/// The directory in which the native core of the library has been built.
///
/// The directory is fixed when the crate is compiled. The caller hands in
/// the output directory of that build, and this is the directory returned.
pub fn c_api_install_dir(out_dir: &'static str) -> (dir: &'static str)
    ensures
        dir@ == out_dir@,
{
    out_dir
}

} // verus!
