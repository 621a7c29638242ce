use todo_app::repositories::label::Label;
use todo_app::repositories::todo::{
    fold_entities, fold_find, TodoEntity, TodoWithLabelFromRow,
};
use todo_app::repositories::RepositoryError;

fn row(id: i32, title: &str, label: Option<&Label>) -> TodoWithLabelFromRow {
    TodoWithLabelFromRow {
        id,
        title: title.to_string(),
        completed: false,
        label_id: label.map(|l| l.id),
        label_name: label.map(|l| l.name.clone()),
    }
}

#[test]
fn fold_entities_test() {
    let label_1 = Label {
        id: 1,
        name: "label_1".to_string(),
    };
    let label_2 = Label {
        id: 2,
        name: "label_2".to_string(),
    };
    let rows = vec![
        TodoWithLabelFromRow {
            id: 1,
            title: "todo_1".to_string(),
            completed: false,
            label_id: Some(label_1.id),
            label_name: Some(label_1.name.clone()),
        },
        TodoWithLabelFromRow {
            id: 1,
            title: "todo_1".to_string(),
            completed: false,
            label_id: Some(label_2.id),
            label_name: Some(label_2.name.clone()),
        },
        TodoWithLabelFromRow {
            id: 2,
            title: "todo_2".to_string(),
            completed: false,
            label_id: Some(label_1.id),
            label_name: Some(label_1.name.clone()),
        },
    ];

    let res = fold_entities(rows);

    assert_eq!(
        res,
        vec![
            TodoEntity {
                id: 1,
                title: "todo_1".to_string(),
                completed: false,
                labels: vec![label_1.clone(), label_2],
            },
            TodoEntity {
                id: 2,
                title: "todo_2".to_string(),
                completed: false,
                labels: vec![label_1],
            }
        ]
    )
}

#[test]
fn fold_dedups_repeated_label_rows() {
    let work = Label {
        id: 10,
        name: "work".to_string(),
    };
    let home = Label {
        id: 20,
        name: "home".to_string(),
    };
    let rows = vec![
        row(1, "todo_1", Some(&work)),
        row(1, "todo_1", Some(&home)),
        row(1, "todo_1", Some(&work)),
    ];
    let res = fold_entities(rows);
    assert_eq!(res.len(), 1);
    assert_eq!(res[0].labels, vec![work, home]);
}

#[test]
fn fold_counts_distinct_tasks() {
    let l = Label {
        id: 1,
        name: "l".to_string(),
    };
    let rows = vec![
        row(1, "a", Some(&l)),
        row(2, "b", Some(&l)),
        row(1, "a", None),
        row(3, "c", None),
        row(2, "b", Some(&l)),
    ];
    let res = fold_entities(rows);
    assert_eq!(res.len(), 3);
    assert_eq!(res[0].id, 1);
    assert_eq!(res[1].id, 2);
    assert_eq!(res[2].id, 3);
}

#[test]
fn fold_null_label_row_yields_empty_labels() {
    let rows = vec![row(5, "bare", None)];
    let res = fold_entities(rows);
    assert_eq!(
        res,
        vec![TodoEntity {
            id: 5,
            title: "bare".to_string(),
            completed: false,
            labels: vec![],
        }]
    );
}

#[test]
fn fold_empty_input_yields_empty_output() {
    let res = fold_entities(vec![]);
    assert!(res.is_empty());
}

#[test]
fn fold_find_returns_first_entity() {
    let rows = vec![row(4, "found", None)];
    let todo = fold_find(rows, 4).expect("fold_find failed");
    assert_eq!(todo.id, 4);
    assert_eq!(todo.title, "found".to_string());
}

#[test]
fn fold_find_empty_rows_not_found() {
    let err = fold_find(vec![], 7).unwrap_err();
    assert!(matches!(err, RepositoryError::NotFound(7)));
}
