use todo_app::repositories::label::{Label, LabelRepository, LabelRepositoryInMemory};
use todo_app::repositories::todo::{
    merge_update, CreateTodo, TodoEntity, TodoRepository, TodoRepositoryInMemory, UpdateTodo,
};
use todo_app::repositories::RepositoryError;
use todo_app::AppState;

#[test]
fn todo_crud_scenario() {
    let title = "todo title".to_string();
    let id = 1;
    let label_data = Label::new(1, "label title".to_string());
    let labels = vec![label_data.clone()];
    let expected = TodoEntity::new(id, title.clone(), labels.clone());

    // create
    let mut repository = TodoRepositoryInMemory::new(labels.clone());
    let todo = repository
        .create(CreateTodo::new(title, vec![label_data.id]))
        .expect("failed create todo");
    assert_eq!(todo, expected);

    // find
    let todo = repository.find(id).unwrap();
    assert_eq!(todo, expected);

    // all
    let todos = repository.all().expect("failed get all todos");
    assert_eq!(todos, vec![expected]);

    // update
    let title = "updated todo title".to_string();
    let todo = repository
        .update(
            id,
            UpdateTodo {
                title: Some(title.clone()),
                completed: Some(true),
                labels: Some(vec![]),
            },
        )
        .expect("failed update todo.");

    let mut expected = TodoEntity::new(id, title, vec![]);
    expected.set_completed(true);

    assert_eq!(todo, expected);

    // delete
    let res = repository.delete(id);
    assert!(res.is_ok());
}

#[test]
fn label_crud_scenario() {
    let label_text = "test_label";

    let mut repository = LabelRepositoryInMemory::new();

    // create
    let label = repository
        .create(label_text.to_string())
        .expect("failed create");
    assert_eq!(label.name, label_text);

    // all
    let labels = repository.all().expect("failed all");
    let label = labels.last().unwrap();
    assert_eq!(label.name, label_text);

    // delete
    repository.delete(label.id).expect("failed delete");
}

#[test]
fn create_then_find_round_trip() {
    let work = Label::new(1, "work".to_string());
    let home = Label::new(2, "home".to_string());
    let mut repository = TodoRepositoryInMemory::new(vec![work.clone(), home.clone()]);

    let created = repository
        .create(CreateTodo::new("T".to_string(), vec![1, 2]))
        .expect("failed create todo");
    let found = repository.find(created.id).expect("failed find todo");

    assert_eq!(found.title, "T".to_string());
    assert!(!found.completed);
    assert_eq!(found.labels, vec![work.clone(), home.clone()]);

    // the label order follows the submitted ids, not the catalog order
    let reversed = repository
        .create(CreateTodo::new("U".to_string(), vec![2, 1]))
        .expect("failed create todo");
    assert_eq!(reversed.labels, vec![home, work]);
}

#[test]
fn update_preserves_omitted_fields() {
    let l1 = Label::new(1, "L1".to_string());
    let mut repository = TodoRepositoryInMemory::new(vec![l1.clone()]);
    repository
        .create(CreateTodo::new("A".to_string(), vec![1]))
        .expect("failed create todo");

    let updated = repository
        .update(
            1,
            UpdateTodo {
                title: None,
                completed: Some(true),
                labels: None,
            },
        )
        .expect("failed update todo");

    assert_eq!(updated.title, "A".to_string());
    assert!(updated.completed);
    assert_eq!(updated.labels, vec![l1]);
}

#[test]
fn update_with_empty_label_list_clears_labels() {
    let l1 = Label::new(1, "L1".to_string());
    let mut repository = TodoRepositoryInMemory::new(vec![l1]);
    let created = repository
        .create(CreateTodo::new("A".to_string(), vec![1]))
        .expect("failed create todo");
    assert_eq!(created.labels.len(), 1);

    let updated = repository
        .update(
            1,
            UpdateTodo {
                title: None,
                completed: None,
                labels: Some(vec![]),
            },
        )
        .expect("failed update todo");

    assert!(updated.labels.is_empty());
}

#[test]
fn delete_then_find_not_found() {
    let mut repository = TodoRepositoryInMemory::new(vec![]);
    let created = repository
        .create(CreateTodo::new("gone soon".to_string(), vec![]))
        .expect("failed create todo");

    repository.delete(created.id).expect("failed delete todo");

    let err = repository.find(created.id).unwrap_err();
    assert!(matches!(err, RepositoryError::NotFound(id) if id == created.id));
}

#[test]
fn duplicate_label_name_rejected() {
    let mut repository = LabelRepositoryInMemory::new();
    let first = repository
        .create("work".to_string())
        .expect("failed create");

    let err = repository.create("work".to_string()).unwrap_err();
    assert!(matches!(err, RepositoryError::Duplicate(id) if id == first.id));

    // a different name still goes through
    repository
        .create("home".to_string())
        .expect("failed create");
}

#[test]
fn find_missing_task_not_found() {
    let repository = TodoRepositoryInMemory::new(vec![]);
    let err = repository.find(42).unwrap_err();
    assert!(matches!(err, RepositoryError::NotFound(42)));
}

#[test]
fn update_missing_task_not_found() {
    let mut repository = TodoRepositoryInMemory::new(vec![]);
    let err = repository
        .update(
            9,
            UpdateTodo {
                title: None,
                completed: None,
                labels: None,
            },
        )
        .unwrap_err();
    assert!(matches!(err, RepositoryError::NotFound(9)));
}

#[test]
fn delete_missing_label_not_found() {
    let mut repository = LabelRepositoryInMemory::new();
    let err = repository.delete(3).unwrap_err();
    assert!(matches!(err, RepositoryError::NotFound(3)));
}

#[test]
fn label_all_ascending_todo_all_descending() {
    let mut labels = LabelRepositoryInMemory::new();
    labels.create("a".to_string()).expect("failed create");
    labels.create("b".to_string()).expect("failed create");
    labels.create("c".to_string()).expect("failed create");
    let all_labels = labels.all().expect("failed all");
    let label_ids: Vec<i32> = all_labels.iter().map(|l| l.id).collect();
    assert_eq!(label_ids, vec![1, 2, 3]);

    let mut todos = TodoRepositoryInMemory::new(vec![]);
    todos
        .create(CreateTodo::new("first".to_string(), vec![]))
        .expect("failed create todo");
    todos
        .create(CreateTodo::new("second".to_string(), vec![]))
        .expect("failed create todo");
    todos
        .create(CreateTodo::new("third".to_string(), vec![]))
        .expect("failed create todo");
    let all_todos = todos.all().expect("failed get all todos");
    let todo_ids: Vec<i32> = all_todos.iter().map(|t| t.id).collect();
    assert_eq!(todo_ids, vec![3, 2, 1]);
}

#[test]
fn unknown_label_ids_are_filtered() {
    let known = Label::new(1, "known".to_string());
    let mut repository = TodoRepositoryInMemory::new(vec![known.clone()]);
    let created = repository
        .create(CreateTodo::new("mixed".to_string(), vec![999, 1, 999]))
        .expect("failed create todo");
    assert_eq!(created.labels, vec![known]);
}

#[test]
fn merge_update_fills_absent_fields() {
    let current = TodoEntity::new(1, "A".to_string(), vec![]);
    let (title, completed, labels) = merge_update(
        &current,
        UpdateTodo {
            title: None,
            completed: Some(true),
            labels: None,
        },
    );
    assert_eq!(title, "A".to_string());
    assert!(completed);
    assert!(labels.is_none());

    let (title, completed, labels) = merge_update(
        &current,
        UpdateTodo {
            title: Some("B".to_string()),
            completed: None,
            labels: Some(vec![4, 5]),
        },
    );
    assert_eq!(title, "B".to_string());
    assert!(!completed);
    assert_eq!(labels, Some(vec![4, 5]));
}

#[test]
fn app_state_holds_both_stores() {
    let state = AppState::new(
        TodoRepositoryInMemory::new(vec![]),
        LabelRepositoryInMemory::new(),
    );
    let err = state.todo_state.repository.find(1).unwrap_err();
    assert!(matches!(err, RepositoryError::NotFound(1)));
    assert!(state.label_state.repository.all().expect("failed all").is_empty());
}
