//! The validation gate: payloads are checked against their declared
//! constraints before any store operation runs, and every violated
//! constraint is reported, not only the first.

use vstd::prelude::*;
use vstd::string::StrSliceExecFns;

pub mod label;
pub mod todo;

use crate::repositories::label::CreateLabel;
use crate::repositories::todo::{CreateTodo, UpdateTodo};
use crate::repositories::{RepositoryError, Violation};

verus! {

/// A payload that passed decoding and the validation gate.
#[derive(Debug)]
pub struct ValidatedJson<T>(pub T);

/// The longest valid title or name, counted in characters.
pub const MAX_TEXT_LEN: usize = 100;

/// The violations of a required text constrained to 1 through 100
/// characters: at most one of "empty" and "too long" can hold.
pub open spec fn text_violations(
    text: Seq<char>,
    empty: Violation,
    too_long: Violation,
) -> Seq<Violation> {
    if text.len() == 0 {
        seq![empty]
    } else if text.len() > MAX_TEXT_LEN {
        seq![too_long]
    } else {
        Seq::empty()
    }
}

fn check_text(text: &String, empty: Violation, too_long: Violation) -> (r: Vec<Violation>)
    ensures
        r@ == text_violations(text@, empty, too_long),
{
    let mut r: Vec<Violation> = Vec::new();
    let len = text.as_str().unicode_len();
    if len == 0 {
        r.push(empty);
        proof {
            assert(r@ =~= seq![empty]);
        }
    } else if len > MAX_TEXT_LEN {
        r.push(too_long);
        proof {
            assert(r@ =~= seq![too_long]);
        }
    } else {
        proof {
            assert(r@ =~= Seq::<Violation>::empty());
        }
    }
    r
}

/// Gate a task-creation payload: the title is required and must be 1 through
/// 100 characters long.  A rejected payload reports every violated
/// constraint and causes no store mutation.
pub fn validate_create_todo(payload: &CreateTodo) -> (r: Result<(), RepositoryError>)
    ensures
        match r {
            Ok(()) => 1 <= payload.title@.len() <= MAX_TEXT_LEN,
            Err(RepositoryError::ValidationFailed(v)) => {
                &&& !(1 <= payload.title@.len() <= MAX_TEXT_LEN)
                &&& v@ == text_violations(
                    payload.title@,
                    Violation::TitleEmpty,
                    Violation::TitleTooLong,
                )
            },
            Err(_) => false,
        },
{
    let v = check_text(&payload.title, Violation::TitleEmpty, Violation::TitleTooLong);
    if v.len() == 0 {
        proof {
            assert(text_violations(
                payload.title@,
                Violation::TitleEmpty,
                Violation::TitleTooLong,
            ).len() == 0);
        }
        Ok(())
    } else {
        Err(RepositoryError::ValidationFailed(v))
    }
}

/// Gate a task-update payload: an absent title means "no change" and is
/// valid; a present title must be 1 through 100 characters long.
pub fn validate_update_todo(payload: &UpdateTodo) -> (r: Result<(), RepositoryError>)
    ensures
        match r {
            Ok(()) => match payload.title {
                Some(t) => 1 <= t@.len() <= MAX_TEXT_LEN,
                None => true,
            },
            Err(RepositoryError::ValidationFailed(v)) => match payload.title {
                Some(t) => {
                    &&& !(1 <= t@.len() <= MAX_TEXT_LEN)
                    &&& v@ == text_violations(
                        t@,
                        Violation::TitleEmpty,
                        Violation::TitleTooLong,
                    )
                },
                None => false,
            },
            Err(_) => false,
        },
{
    match &payload.title {
        Some(title) => {
            let v = check_text(title, Violation::TitleEmpty, Violation::TitleTooLong);
            if v.len() == 0 {
                Ok(())
            } else {
                Err(RepositoryError::ValidationFailed(v))
            }
        }
        None => Ok(()),
    }
}

/// Gate a label-creation payload: the name is required and must be 1 through
/// 100 characters long.
pub fn validate_create_label(payload: &CreateLabel) -> (r: Result<(), RepositoryError>)
    ensures
        match r {
            Ok(()) => 1 <= payload.name@.len() <= MAX_TEXT_LEN,
            Err(RepositoryError::ValidationFailed(v)) => {
                &&& !(1 <= payload.name@.len() <= MAX_TEXT_LEN)
                &&& v@ == text_violations(
                    payload.name@,
                    Violation::NameEmpty,
                    Violation::NameTooLong,
                )
            },
            Err(_) => false,
        },
{
    let v = check_text(&payload.name, Violation::NameEmpty, Violation::NameTooLong);
    if v.len() == 0 {
        Ok(())
    } else {
        Err(RepositoryError::ValidationFailed(v))
    }
}

} // verus!
