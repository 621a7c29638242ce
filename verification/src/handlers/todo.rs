//! The task-handler state: the task store an HTTP handler works against.

use std::sync::Arc;
use vstd::prelude::*;

use crate::repositories::todo::TodoRepository;

verus! {

/// The shared task store a request handler operates on.
pub struct TodoState<T: TodoRepository> {
    pub repository: Arc<T>,
}

} // verus!
