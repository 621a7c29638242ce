use todo_app::handlers::{
    validate_create_label, validate_create_todo, validate_update_todo, ValidatedJson,
};
use todo_app::repositories::label::CreateLabel;
use todo_app::repositories::todo::{CreateTodo, UpdateTodo};
use todo_app::repositories::{RepositoryError, Violation};

fn violations(err: RepositoryError) -> Vec<Violation> {
    match err {
        RepositoryError::ValidationFailed(v) => v,
        _ => panic!("expected a validation failure"),
    }
}

#[test]
fn create_todo_empty_title_rejected() {
    let payload = CreateTodo::new(String::new(), vec![]);
    let err = validate_create_todo(&payload).unwrap_err();
    assert_eq!(violations(err), vec![Violation::TitleEmpty]);
}

#[test]
fn create_todo_overlong_title_rejected() {
    let payload = CreateTodo::new("x".repeat(101), vec![]);
    let err = validate_create_todo(&payload).unwrap_err();
    assert_eq!(violations(err), vec![Violation::TitleTooLong]);
}

#[test]
fn create_todo_title_bounds_accepted() {
    assert!(validate_create_todo(&CreateTodo::new("x".to_string(), vec![])).is_ok());
    assert!(validate_create_todo(&CreateTodo::new("x".repeat(100), vec![])).is_ok());
}

#[test]
fn update_todo_absent_title_accepted() {
    let payload = UpdateTodo {
        title: None,
        completed: Some(true),
        labels: None,
    };
    assert!(validate_update_todo(&payload).is_ok());
}

#[test]
fn update_todo_empty_title_rejected() {
    let payload = UpdateTodo {
        title: Some(String::new()),
        completed: None,
        labels: None,
    };
    let err = validate_update_todo(&payload).unwrap_err();
    assert_eq!(violations(err), vec![Violation::TitleEmpty]);
}

#[test]
fn create_label_name_validated() {
    let err = validate_create_label(&CreateLabel {
        name: String::new(),
    })
    .unwrap_err();
    assert_eq!(violations(err), vec![Violation::NameEmpty]);

    let err = validate_create_label(&CreateLabel {
        name: "x".repeat(101),
    })
    .unwrap_err();
    assert_eq!(violations(err), vec![Violation::NameTooLong]);

    let gated = ValidatedJson(CreateLabel {
        name: "ok".to_string(),
    });
    assert!(validate_create_label(&gated.0).is_ok());
}
