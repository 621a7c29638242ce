//! The label-handler state: the label store an HTTP handler works against.

use std::sync::Arc;
use vstd::prelude::*;

use crate::repositories::label::LabelRepository;

verus! {

/// The shared label store a request handler operates on.
pub struct LabelState<T: LabelRepository> {
    pub repository: Arc<T>,
}

} // verus!
