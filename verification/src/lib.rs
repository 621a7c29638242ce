//! Repository layer of a small task-tracking backend.
//!
//! Tasks and labels are joined through a many-to-many relation.  The heart of
//! the read path is `fold_entities`, which groups a flat join result into
//! nested, label-bearing task entities.  Two store implementations share one
//! contract: a relational backend (driven from outside this library) and an
//! in-memory double, verified here.

use std::sync::Arc;
use vstd::prelude::*;

pub mod handlers;
pub mod repositories;

use handlers::label::LabelState;
use handlers::todo::TodoState;
use repositories::label::LabelRepository;
use repositories::todo::TodoRepository;

verus! {

/// The state the whole application routes requests against: one task store
/// and one label store.
pub struct AppState<T: TodoRepository, L: LabelRepository> {
    pub todo_state: TodoState<T>,
    pub label_state: LabelState<L>,
}

impl<T: TodoRepository, L: LabelRepository> AppState<T, L> {
    pub fn new(todo_repository: T, label_repository: L) -> (r: Self)
        ensures
            *r.todo_state.repository == todo_repository,
            *r.label_state.repository == label_repository,
    {
        AppState {
            todo_state: TodoState { repository: Arc::new(todo_repository) },
            label_state: LabelState { repository: Arc::new(label_repository) },
        }
    }
}

} // verus!
