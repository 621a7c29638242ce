//! Task entities, the join-row folder and the task store.

use vstd::prelude::*;

use crate::repositories::label::{
    has_label_id, label_index, labels_view, lemma_label_index, Label, LabelView,
};
use crate::repositories::RepositoryError;

verus! {

/// A task row before labels are joined in.
#[derive(Debug)]
pub struct TodoFromRow {
    pub id: i32,
    pub title: String,
    pub completed: bool,
}

/// One row of the task/label join: the task fields, and the label fields of
/// one associated label, or nulls when the task has no labels.
#[derive(Debug)]
pub struct TodoWithLabelFromRow {
    pub id: i32,
    pub title: String,
    pub completed: bool,
    pub label_id: Option<i32>,
    pub label_name: Option<String>,
}

/// The mathematical value of a join row.  The two nullable label columns of
/// a row come from the same joined label row, so the view carries a single
/// optional label; a row missing either column counts as carrying none.
pub ghost struct JoinRowView {
    pub id: int,
    pub title: Seq<char>,
    pub completed: bool,
    pub label: Option<LabelView>,
}

impl View for TodoWithLabelFromRow {
    type V = JoinRowView;

    open spec fn view(&self) -> JoinRowView {
        JoinRowView {
            id: self.id as int,
            title: self.title@,
            completed: self.completed,
            label: match (self.label_id, self.label_name) {
                (Some(lid), Some(lname)) => Some(LabelView { id: lid as int, name: lname@ }),
                _ => None,
            },
        }
    }
}

// ---------------------------------------------------------------------------
// View shorthands
// ---------------------------------------------------------------------------

pub open spec fn rows_view(s: Seq<TodoWithLabelFromRow>) -> Seq<JoinRowView> {
    s.map_values(|r: TodoWithLabelFromRow| r@)
}

pub open spec fn todos_view(s: Seq<TodoEntity>) -> Seq<TodoView> {
    s.map_values(|t: TodoEntity| t@)
}


/// The mathematical value of a task entity.
pub ghost struct TodoView {
    pub id: int,
    pub title: Seq<char>,
    pub completed: bool,
    pub labels: Seq<LabelView>,
}

/// A task entity: a task row together with the ordered labels associated to
/// it.  The label sequence is rebuilt from the join on every read.
#[derive(Debug)]
pub struct TodoEntity {
    pub id: i32,
    pub title: String,
    pub completed: bool,
    pub labels: Vec<Label>,
}

impl View for TodoEntity {
    type V = TodoView;

    open spec fn view(&self) -> TodoView {
        TodoView {
            id: self.id as int,
            title: self.title@,
            completed: self.completed,
            labels: labels_view(self.labels@),
        }
    }
}

impl TodoEntity {
    /// A fresh, not-yet-completed task entity.
    pub fn new(id: i32, title: String, labels: Vec<Label>) -> (r: TodoEntity)
        ensures
            r@ == (TodoView {
                id: id as int,
                title: title@,
                completed: false,
                labels: labels_view(labels@),
            }),
    {
        TodoEntity { id, title, completed: false, labels }
    }

    pub fn set_completed(&mut self, completed: bool)
        ensures
            final(self)@ == (TodoView { completed, ..old(self)@ }),
    {
        self.completed = completed;
    }
}

impl Clone for TodoEntity {
    fn clone(&self) -> (r: Self)
        ensures
            r@ == self@,
    {
        let labels = self.labels.clone();
        proof {
            assert forall|i: int| 0 <= i < labels@.len() implies
                labels_view(labels@)[i] == labels_view(self.labels@)[i] by {
                assert(cloned::<Label>(self.labels@[i], labels@[i]));
            }
            assert(labels_view(labels@) =~= labels_view(self.labels@));
        }
        TodoEntity {
            id: self.id,
            title: self.title.clone(),
            completed: self.completed,
            labels,
        }
    }
}

impl PartialEq for TodoEntity {
    fn eq(&self, other: &Self) -> (r: bool)
        ensures
            r == (self@ == other@),
    {
        if self.id != other.id || self.completed != other.completed
            || !self.title.eq(&other.title) {
            return false;
        }
        if self.labels.len() != other.labels.len() {
            assert(self@.labels.len() != other@.labels.len());
            return false;
        }
        let n = self.labels.len();
        let mut i: usize = 0;
        while i < n
            invariant
                i <= n,
                n == self.labels@.len(),
                n == other.labels@.len(),
                forall|j: int| 0 <= j < i ==>
                    (#[trigger] labels_view(self.labels@)[j])
                        == labels_view(other.labels@)[j],
            decreases n - i,
        {
            if !self.labels[i].eq(&other.labels[i]) {
                assert(labels_view(self.labels@)[i as int]
                    != labels_view(other.labels@)[i as int]);
                return false;
            }
            i += 1;
        }
        proof {
            assert(labels_view(self.labels@) =~= labels_view(other.labels@));
        }
        true
    }
}

impl Eq for TodoEntity {}

impl vstd::std_specs::cmp::PartialEqSpecImpl for TodoEntity {
    open spec fn obeys_eq_spec() -> bool {
        true
    }

    open spec fn eq_spec(&self, other: &Self) -> bool {
        self@ == other@
    }
}

/// A request to create a task with a title and the ids of the labels to
/// associate.
#[derive(Debug)]
pub struct CreateTodo {
    pub title: String,
    pub labels: Vec<i32>,
}

impl CreateTodo {
    pub fn new(title: String, label_ids: Vec<i32>) -> (r: CreateTodo)
        ensures
            r.title@ == title@,
            r.labels == label_ids,
    {
        CreateTodo { title, labels: label_ids }
    }
}

/// A partial update of a task: absent fields mean "no change"; a submitted
/// label id list — even an empty one — replaces the associations wholesale.
#[derive(Debug)]
pub struct UpdateTodo {
    pub title: Option<String>,
    pub completed: Option<bool>,
    pub labels: Option<Vec<i32>>,
}

// ---------------------------------------------------------------------------
// The join-row folder, specification side
// ---------------------------------------------------------------------------

/// Does some task in `ts` carry the id `id`?
pub open spec fn has_task_id(ts: Seq<TodoView>, id: int) -> bool {
    exists|k: int| 0 <= k < ts.len() && ts[k].id == id
}

/// The first index of a task with id `id`, or -1 when there is none.
pub open spec fn task_index(ts: Seq<TodoView>, id: int) -> int
    decreases ts.len(),
{
    if ts.len() == 0 {
        -1
    } else if ts[0].id == id {
        0
    } else {
        let r = task_index(ts.drop_first(), id);
        if r < 0 {
            -1
        } else {
            r + 1
        }
    }
}

pub proof fn lemma_task_index(ts: Seq<TodoView>, id: int)
    ensures
        has_task_id(ts, id) <==> task_index(ts, id) >= 0,
        task_index(ts, id) >= 0 ==> {
            let k = task_index(ts, id);
            &&& k < ts.len()
            &&& ts[k].id == id
            &&& forall|j: int| 0 <= j < k ==> ts[j].id != id
        },
    decreases ts.len(),
{
    if ts.len() == 0 {
    } else if ts[0].id == id {
    } else {
        lemma_task_index(ts.drop_first(), id);
        assert forall|k: int| 0 <= k < ts.len() && ts[k].id == id implies
            has_task_id(ts.drop_first(), id) by {
            assert(k != 0);
            assert(ts.drop_first()[k - 1] == ts[k]);
        }
        if task_index(ts, id) >= 0 {
            let r = task_index(ts.drop_first(), id);
            assert(ts.drop_first()[r] == ts[r + 1]);
            assert forall|j: int| 0 <= j < r + 1 implies ts[j].id != id by {
                if j > 0 {
                    assert(ts.drop_first()[j - 1] == ts[j]);
                }
            }
        }
    }
}

/// A task entity freshly built from one join row.
pub open spec fn new_todo(row: JoinRowView) -> TodoView {
    TodoView {
        id: row.id,
        title: row.title,
        completed: row.completed,
        labels: match row.label {
            Some(l) => seq![l],
            None => Seq::empty(),
        },
    }
}

/// Append the row's label to a task already in the output, unless the row
/// carries no label or the task already holds one with the same id.
pub open spec fn add_row_label(t: TodoView, row: JoinRowView) -> TodoView {
    match row.label {
        Some(l) => if has_label_id(t.labels, l.id) {
            t
        } else {
            TodoView { labels: t.labels.push(l), ..t }
        },
        None => t,
    }
}

/// One folding step: merge one join row into the output built so far.
pub open spec fn fold_step(acc: Seq<TodoView>, row: JoinRowView) -> Seq<TodoView> {
    if has_task_id(acc, row.id) {
        let k = task_index(acc, row.id);
        acc.update(k, add_row_label(acc[k], row))
    } else {
        acc.push(new_todo(row))
    }
}

/// What folding a join result means: merge the rows left to right into an
/// output ordered by first appearance of each task id.
pub open spec fn fold_spec(rows: Seq<JoinRowView>) -> Seq<TodoView>
    decreases rows.len(),
{
    if rows.len() == 0 {
        Seq::empty()
    } else {
        fold_step(fold_spec(rows.drop_last()), rows.last())
    }
}

// ---------------------------------------------------------------------------
// What the fold output looks like: laws of the join-row folder
// ---------------------------------------------------------------------------

/// The task ids of a row sequence, one per row.
pub open spec fn row_ids(rows: Seq<JoinRowView>) -> Seq<int> {
    rows.map_values(|r: JoinRowView| r.id)
}

/// The ids of a task sequence, one per task.
pub open spec fn todo_ids(ts: Seq<TodoView>) -> Seq<int> {
    ts.map_values(|t: TodoView| t.id)
}

/// Does some row in `rows` carry the task id `id`?
pub open spec fn has_row_id(rows: Seq<JoinRowView>, id: int) -> bool {
    exists|i: int| 0 <= i < rows.len() && rows[i].id == id
}

/// `s` with every later repeat of an element dropped: the distinct elements
/// of `s` in first-appearance order.
pub open spec fn distinct_firsts(s: Seq<int>) -> Seq<int>
    decreases s.len(),
{
    if s.len() == 0 {
        Seq::empty()
    } else {
        let p = distinct_firsts(s.drop_last());
        if p.contains(s.last()) {
            p
        } else {
            p.push(s.last())
        }
    }
}

/// No two labels of `ls` share an id.
pub open spec fn no_dup_label_ids(ls: Seq<LabelView>) -> bool {
    forall|i: int, j: int| 0 <= i < j < ls.len() ==> ls[i].id != ls[j].id
}

/// The labels the fold gives to task `id`: the labels of that task's rows, in
/// row order, with later repeats of a label id dropped.
pub open spec fn labels_for(rows: Seq<JoinRowView>, id: int) -> Seq<LabelView>
    decreases rows.len(),
{
    if rows.len() == 0 {
        Seq::empty()
    } else {
        let p = labels_for(rows.drop_last(), id);
        if rows.last().id == id {
            match rows.last().label {
                Some(l) => if has_label_id(p, l.id) {
                    p
                } else {
                    p.push(l)
                },
                None => p,
            }
        } else {
            p
        }
    }
}

/// The title of the first row carrying task `id` (meaningful only when such a
/// row exists).
pub open spec fn first_title(rows: Seq<JoinRowView>, id: int) -> Seq<char>
    decreases rows.len(),
{
    if rows.len() == 0 {
        Seq::empty()
    } else if has_row_id(rows.drop_last(), id) {
        first_title(rows.drop_last(), id)
    } else {
        rows.last().title
    }
}

/// The completion flag of the first row carrying task `id` (meaningful only
/// when such a row exists).
pub open spec fn first_completed(rows: Seq<JoinRowView>, id: int) -> bool
    decreases rows.len(),
{
    if rows.len() == 0 {
        false
    } else if has_row_id(rows.drop_last(), id) {
        first_completed(rows.drop_last(), id)
    } else {
        rows.last().completed
    }
}

proof fn lemma_distinct_firsts(s: Seq<int>)
    ensures
        distinct_firsts(s).no_duplicates(),
        forall|x: int| distinct_firsts(s).contains(x) <==> s.contains(x),
    decreases s.len(),
{
    if s.len() == 0 {
    } else {
        lemma_distinct_firsts(s.drop_last());
        let p = distinct_firsts(s.drop_last());
        assert forall|x: int| #![auto] s.contains(x) <==>
            (s.drop_last().contains(x) || s.last() == x) by {
            if s.contains(x) {
                let i = choose|i: int| 0 <= i < s.len() && s[i] == x;
                if i < s.len() - 1 {
                    assert(s.drop_last()[i] == x);
                }
            }
            if s.drop_last().contains(x) {
                let i = choose|i: int|
                    0 <= i < s.drop_last().len() && s.drop_last()[i] == x;
                assert(s[i] == x);
            }
            if s.last() == x {
                assert(s[s.len() - 1] == x);
            }
        }
        if p.contains(s.last()) {
            assert(distinct_firsts(s) == p);
        } else {
            let q = p.push(s.last());
            assert(distinct_firsts(s) == q);
            assert forall|x: int| #![auto] q.contains(x) <==> s.contains(x) by {
                if q.contains(x) {
                    let i = choose|i: int| 0 <= i < q.len() && q[i] == x;
                    if i < p.len() {
                        assert(p[i] == x);
                    }
                }
                if s.contains(x) {
                    if s.drop_last().contains(x) {
                        let i = choose|i: int| 0 <= i < p.len() && p[i] == x;
                        assert(q[i] == x);
                    } else {
                        assert(q[q.len() - 1] == x);
                    }
                }
            }
            assert(q.no_duplicates()) by {
                assert forall|i: int, j: int| 0 <= i < j < q.len() implies
                    q[i] != q[j] by {
                    if j == q.len() - 1 {
                        assert(q[i] == p[i]);
                        if p[i] == s.last() {
                            assert(p.contains(s.last()));
                        }
                    } else {
                        assert(q[i] == p[i] && q[j] == p[j]);
                    }
                }
            }
        }
    }
}

/// Folding neither invents nor loses a task: the output has an entity with id
/// `id` exactly when some input row carries it.
pub proof fn lemma_fold_membership(rows: Seq<JoinRowView>, id: int)
    ensures
        has_task_id(fold_spec(rows), id) <==> has_row_id(rows, id),
    decreases rows.len(),
{
    if rows.len() == 0 {
    } else {
        let prev = rows.drop_last();
        let last = rows.last();
        let f0 = fold_spec(prev);
        lemma_fold_membership(prev, id);
        assert forall|i: int| 0 <= i < rows.len() && rows[i].id == id implies
            has_row_id(prev, id) || last.id == id by {
            if i < prev.len() {
                assert(prev[i] == rows[i]);
            }
        }
        assert(forall|i: int| 0 <= i < prev.len() ==> prev[i] == rows[i]);
        assert(has_row_id(rows, id) <==> has_row_id(prev, id) || last.id == id) by {
            if last.id == id {
                assert(rows[rows.len() - 1].id == id);
            }
        }
        if has_task_id(f0, last.id) {
            lemma_task_index(f0, last.id);
            let k0 = task_index(f0, last.id);
            let f1 = fold_spec(rows);
            assert(f1 == f0.update(k0, add_row_label(f0[k0], last)));
            assert(forall|k: int| 0 <= k < f1.len() ==> f1[k].id == f0[k].id);
            assert(has_task_id(f1, id) <==> has_task_id(f0, id)) by {
                if has_task_id(f0, id) {
                    let k = choose|k: int| 0 <= k < f0.len() && f0[k].id == id;
                    assert(f1[k].id == id);
                }
                if has_task_id(f1, id) {
                    let k = choose|k: int| 0 <= k < f1.len() && f1[k].id == id;
                    assert(f0[k].id == id);
                }
            }
        } else {
            let f1 = fold_spec(rows);
            assert(f1 == f0.push(new_todo(last)));
            assert(has_task_id(f1, id) <==> has_task_id(f0, id) || last.id == id) by {
                if has_task_id(f0, id) {
                    let k = choose|k: int| 0 <= k < f0.len() && f0[k].id == id;
                    assert(f1[k].id == id);
                }
                if last.id == id {
                    assert(f1[f1.len() - 1].id == id);
                }
                if has_task_id(f1, id) {
                    let k = choose|k: int| 0 <= k < f1.len() && f1[k].id == id;
                    if k < f0.len() {
                        assert(f0[k].id == id);
                    }
                }
            }
        }
    }
}

proof fn lemma_labels_for_absent(rows: Seq<JoinRowView>, id: int)
    requires
        !has_row_id(rows, id),
    ensures
        labels_for(rows, id) == Seq::<LabelView>::empty(),
    decreases rows.len(),
{
    if rows.len() == 0 {
    } else {
        assert(rows[rows.len() - 1].id != rows.last().id || rows.last().id != id);
        assert forall|i: int| 0 <= i < rows.drop_last().len() &&
            rows.drop_last()[i].id == id implies false by {
            assert(rows[i] == rows.drop_last()[i]);
        }
        lemma_labels_for_absent(rows.drop_last(), id);
        assert(rows[rows.len() - 1] == rows.last());
    }
}

/// Law: the output ids of a fold are the distinct input task ids in
/// first-appearance order; in particular no task id appears twice.
pub proof fn lemma_fold_output_ids(rows: Seq<JoinRowView>)
    ensures
        todo_ids(fold_spec(rows)) == distinct_firsts(row_ids(rows)),
        todo_ids(fold_spec(rows)).no_duplicates(),
    decreases rows.len(),
{
    lemma_distinct_firsts(row_ids(rows));
    if rows.len() == 0 {
        assert(todo_ids(fold_spec(rows)) =~= distinct_firsts(row_ids(rows)));
    } else {
        let prev = rows.drop_last();
        let last = rows.last();
        let f0 = fold_spec(prev);
        lemma_fold_output_ids(prev);
        assert(row_ids(rows).drop_last() =~= row_ids(prev));
        assert(row_ids(rows).last() == last.id);
        let p = distinct_firsts(row_ids(prev));
        assert(p == todo_ids(f0));
        if has_task_id(f0, last.id) {
            lemma_task_index(f0, last.id);
            let k0 = task_index(f0, last.id);
            assert(p.contains(last.id)) by {
                assert(todo_ids(f0)[k0] == last.id);
            }
            assert(todo_ids(fold_spec(rows)) =~= p);
        } else {
            assert(!p.contains(last.id)) by {
                if p.contains(last.id) {
                    let k = choose|k: int| 0 <= k < p.len() && p[k] == last.id;
                    assert(f0[k].id == last.id);
                }
            }
            assert(todo_ids(fold_spec(rows)) =~= p.push(last.id));
        }
    }
}

proof fn lemma_labels_for_nodup(rows: Seq<JoinRowView>, id: int)
    ensures
        no_dup_label_ids(labels_for(rows, id)),
    decreases rows.len(),
{
    if rows.len() == 0 {
    } else {
        lemma_labels_for_nodup(rows.drop_last(), id);
        let p = labels_for(rows.drop_last(), id);
        if rows.last().id == id {
            match rows.last().label {
                Some(l) => {
                    if !has_label_id(p, l.id) {
                        let q = p.push(l);
                        assert forall|i: int, j: int| 0 <= i < j < q.len() implies
                            q[i].id != q[j].id by {
                            if j == q.len() - 1 {
                                assert(q[i] == p[i]);
                                if p[i].id == l.id {
                                    assert(has_label_id(p, l.id));
                                }
                            } else {
                                assert(q[i] == p[i] && q[j] == p[j]);
                            }
                        }
                    }
                }
                None => {}
            }
        }
    }
}

/// Law: each entity of a fold output draws its title and completion flag from
/// the first row of its task, and its labels from that task's rows in order,
/// with later repeats of a label id dropped.
pub proof fn lemma_fold_entity_fields(rows: Seq<JoinRowView>)
    ensures
        forall|k: int| 0 <= k < fold_spec(rows).len() ==> {
            let t = #[trigger] fold_spec(rows)[k];
            &&& t.labels == labels_for(rows, t.id)
            &&& t.title == first_title(rows, t.id)
            &&& t.completed == first_completed(rows, t.id)
        },
    decreases rows.len(),
{
    if rows.len() == 0 {
    } else {
        let prev = rows.drop_last();
        let last = rows.last();
        let f0 = fold_spec(prev);
        let f1 = fold_spec(rows);
        lemma_fold_entity_fields(prev);
        lemma_fold_output_ids(prev);
        assert forall|k: int| 0 <= k < f0.len() implies
            has_row_id(prev, (#[trigger] f0[k]).id) by {
            lemma_fold_membership(prev, f0[k].id);
            assert(has_task_id(f0, f0[k].id));
        }
        if has_task_id(f0, last.id) {
            lemma_task_index(f0, last.id);
            let k0 = task_index(f0, last.id);
            assert(f1 == f0.update(k0, add_row_label(f0[k0], last)));
            assert forall|k: int| 0 <= k < f1.len() implies {
                let t = #[trigger] f1[k];
                &&& t.labels == labels_for(rows, t.id)
                &&& t.title == first_title(rows, t.id)
                &&& t.completed == first_completed(rows, t.id)
            } by {
                if k == k0 {
                    let t = f1[k0];
                    assert(t == add_row_label(f0[k0], last));
                    assert(f0[k0].id == last.id);
                    assert(t.id == last.id);
                    assert(has_row_id(prev, last.id));
                    assert(first_title(rows, last.id) == first_title(prev, last.id));
                    assert(labels_for(prev, last.id) == f0[k0].labels);
                } else {
                    let t = f1[k];
                    assert(t == f0[k]);
                    assert(t.id != last.id) by {
                        assert(todo_ids(f0)[k] == f0[k].id);
                        assert(todo_ids(f0)[k0] == last.id);
                    }
                    assert(labels_for(rows, t.id) == labels_for(prev, t.id));
                    assert(has_row_id(prev, t.id));
                    assert(first_title(rows, t.id) == first_title(prev, t.id));
                }
            }
        } else {
            assert(f1 == f0.push(new_todo(last)));
            lemma_fold_membership(prev, last.id);
            assert(!has_row_id(prev, last.id));
            lemma_labels_for_absent(prev, last.id);
            assert forall|k: int| 0 <= k < f1.len() implies {
                let t = #[trigger] f1[k];
                &&& t.labels == labels_for(rows, t.id)
                &&& t.title == first_title(rows, t.id)
                &&& t.completed == first_completed(rows, t.id)
            } by {
                if k < f0.len() {
                    let t = f0[k];
                    assert(f1[k] == t);
                    assert(t.id != last.id);
                    assert(labels_for(rows, t.id) == labels_for(prev, t.id));
                    assert(has_row_id(prev, t.id));
                    assert(first_title(rows, t.id) == first_title(prev, t.id));
                } else {
                    let t = f1[k];
                    assert(t == new_todo(last));
                    assert(t.id == last.id);
                    assert(labels_for(prev, last.id) == Seq::<LabelView>::empty());
                    match last.label {
                        Some(l) => {
                            assert(!has_label_id(Seq::<LabelView>::empty(), l.id));
                            assert(labels_for(rows, last.id)
                                =~= Seq::<LabelView>::empty().push(l));
                            assert(t.labels =~= Seq::<LabelView>::empty().push(l));
                        }
                        None => {
                            assert(t.labels =~= Seq::<LabelView>::empty());
                        }
                    }
                    assert(first_title(rows, last.id) == last.title);
                }
            }
        }
    }
}

/// Law: no entity of a fold output carries two labels with one id, however
/// often the same (task, label) pair occurs among the join rows.
pub proof fn lemma_fold_labels_distinct(rows: Seq<JoinRowView>)
    ensures
        forall|k: int| 0 <= k < fold_spec(rows).len() ==>
            no_dup_label_ids((#[trigger] fold_spec(rows)[k]).labels),
{
    lemma_fold_entity_fields(rows);
    assert forall|k: int| 0 <= k < fold_spec(rows).len() implies
        no_dup_label_ids((#[trigger] fold_spec(rows)[k]).labels) by {
        lemma_labels_for_nodup(rows, fold_spec(rows)[k].id);
    }
}

proof fn lemma_distinct_firsts_constant(s: Seq<int>, t: int)
    requires
        s.len() > 0,
        forall|i: int| 0 <= i < s.len() ==> s[i] == t,
    ensures
        distinct_firsts(s) =~= seq![t],
    decreases s.len(),
{
    if s.len() == 1 {
        assert(s.drop_last() =~= Seq::<int>::empty());
        assert(distinct_firsts(s.drop_last()) == Seq::<int>::empty());
        assert(s.last() == t);
        assert(distinct_firsts(s) =~= Seq::<int>::empty().push(t));
    } else {
        assert forall|i: int| 0 <= i < s.drop_last().len() implies
            #[trigger] s.drop_last()[i] == t by {
            assert(s[i] == t);
        }
        lemma_distinct_firsts_constant(s.drop_last(), t);
        let p = distinct_firsts(s.drop_last());
        assert(p.contains(t)) by {
            assert(p[0] == t);
        }
        assert(s.last() == t);
        assert(distinct_firsts(s) == p);
    }
}

/// Law: folding the rows of a single task — in whatever order they stand —
/// yields exactly one entity, carrying that task's distinct labels in
/// first-appearance order and the task fields of its first row.
pub proof fn lemma_fold_single_task(rows: Seq<JoinRowView>, t: int)
    requires
        rows.len() > 0,
        forall|i: int| 0 <= i < rows.len() ==> (#[trigger] rows[i]).id == t,
    ensures
        fold_spec(rows).len() == 1,
        fold_spec(rows)[0].id == t,
        fold_spec(rows)[0].labels == labels_for(rows, t),
        no_dup_label_ids(labels_for(rows, t)),
        fold_spec(rows)[0].title == first_title(rows, t),
        fold_spec(rows)[0].completed == first_completed(rows, t),
{
    lemma_fold_output_ids(rows);
    assert forall|i: int| 0 <= i < row_ids(rows).len() implies
        #[trigger] row_ids(rows)[i] == t by {
        assert(rows[i].id == t);
    }
    lemma_distinct_firsts_constant(row_ids(rows), t);
    assert(todo_ids(fold_spec(rows)).len() == 1);
    assert(fold_spec(rows).len() == 1);
    assert(todo_ids(fold_spec(rows))[0] == fold_spec(rows)[0].id);
    lemma_fold_entity_fields(rows);
    assert(fold_spec(rows)[0] == fold_spec(rows)[0]);
    lemma_labels_for_nodup(rows, t);
}

/// Law: a task whose only join row carries no label folds to a single entity
/// with an empty label sequence — not an error and not a dropped entity.
pub proof fn lemma_fold_null_label_row(row: JoinRowView)
    requires
        row.label is None,
    ensures
        fold_spec(seq![row]) == seq![
            TodoView {
                id: row.id,
                title: row.title,
                completed: row.completed,
                labels: Seq::empty(),
            },
        ],
{
    let s = seq![row];
    assert(s.drop_last() =~= Seq::<JoinRowView>::empty());
    assert(fold_spec(s.drop_last()) == Seq::<TodoView>::empty());
    assert(!has_task_id(Seq::<TodoView>::empty(), row.id));
    assert(s.last() == row);
    assert(fold_spec(s) == Seq::<TodoView>::empty().push(new_todo(row)));
    assert(fold_spec(s) =~= seq![new_todo(row)]);
}

/// Law: folding preserves the task count — the output holds exactly one
/// entity per distinct task id of the input.
pub proof fn lemma_fold_task_count(rows: Seq<JoinRowView>)
    ensures
        fold_spec(rows).len() == row_ids(rows).to_set().len(),
{
    lemma_fold_output_ids(rows);
    lemma_distinct_firsts(row_ids(rows));
    let df = distinct_firsts(row_ids(rows));
    df.unique_seq_to_set();
    assert(df.to_set() =~= row_ids(rows).to_set());
    assert(fold_spec(rows).len() == todo_ids(fold_spec(rows)).len());
}

// ---------------------------------------------------------------------------
// The join-row folder, executable side
// ---------------------------------------------------------------------------

/// Group a flat join result into task entities.  Rows are merged left to
/// right: a row whose task id was already seen contributes at most its label
/// (duplicate label ids for one task are dropped); any other row opens a new
/// entity.  The output keeps the first-appearance order of task ids.
pub fn fold_entities(rows: Vec<TodoWithLabelFromRow>) -> (r: Vec<TodoEntity>)
    ensures
        todos_view(r@) == fold_spec(rows_view(rows@)),
{
    let ghost rv = rows_view(rows@);
    let mut accum: Vec<TodoEntity> = Vec::new();
    let n = rows.len();
    let mut i: usize = 0;
    while i < n
        invariant
            i <= n,
            n == rows@.len(),
            rv == rows_view(rows@),
            todos_view(accum@) == fold_spec(rv.take(i as int)),
        decreases n - i,
    {
        let row = &rows[i];
        let rid: i32 = row.id;
        let ghost rowv = rv[i as int];
        let ghost acc0 = todos_view(accum@);
        assert(rowv == rows@[i as int]@);
        assert(rid as int == rowv.id);

        // Scan the output built so far for a task with this row's id.
        let mut j: usize = 0;
        while j < accum.len() && accum[j].id != rid
            invariant
                j <= accum@.len(),
                forall|k: int| 0 <= k < j ==> todos_view(accum@)[k].id != rid as int,
            decreases accum@.len() - j,
        {
            assert(todos_view(accum@)[j as int].id == accum@[j as int].id as int);
            j += 1;
        }

        proof {
            lemma_task_index(acc0, rowv.id);
        }

        if j < accum.len() {
            // The task exists: the row contributes at most its label.
            proof {
                assert(acc0[j as int].id == accum@[j as int].id as int);
                let k = task_index(acc0, rowv.id);
                assert(k >= 0);
                if k < j as int {
                    assert(acc0[k].id != rowv.id);
                    assert(false);
                }
                if k > j as int {
                    assert(acc0[j as int].id != rowv.id);
                    assert(false);
                }
                assert(k == j as int);
            }
            let mut e = accum.remove(j);
            let ghost e0 = e@;
            match (&row.label_id, &row.label_name) {
                (Some(lid0), Some(lname)) => {
                    let lid: i32 = *lid0;
                    let ghost lv = LabelView { id: lid as int, name: lname@ };
                    proof {
                        assert(rowv.label == Some(lv));
                    }
                    let mut k: usize = 0;
                    while k < e.labels.len() && e.labels[k].id != lid
                        invariant
                            k <= e.labels@.len(),
                            e@ == e0,
                            forall|kk: int| 0 <= kk < k ==> e0.labels[kk].id != lid as int,
                        decreases e.labels@.len() - k,
                    {
                        assert(e0.labels[k as int].id == e.labels@[k as int].id as int);
                        k += 1;
                    }
                    if k == e.labels.len() {
                        e.labels.push(Label { id: lid, name: lname.clone() });
                        proof {
                            assert(!has_label_id(e0.labels, lid as int));
                            assert(e@.labels =~= e0.labels.push(lv));
                            assert(e@ == add_row_label(e0, rowv));
                        }
                    } else {
                        proof {
                            assert(e0.labels[k as int].id == e.labels@[k as int].id as int);
                            assert(has_label_id(e0.labels, lid as int));
                            assert(e@ == add_row_label(e0, rowv));
                        }
                    }
                }
                _ => {
                    proof {
                        assert(rowv.label is None);
                        assert(e@ == add_row_label(e0, rowv));
                    }
                }
            }
            accum.insert(j, e);
            proof {
                assert(todos_view(accum@) =~= acc0.update(j as int, e@));
                assert(todos_view(accum@) == fold_step(acc0, rowv));
            }
        } else {
            // No task with this id yet: open a new entity.
            proof {
                assert(forall|k: int| 0 <= k < acc0.len() ==> acc0[k].id != rowv.id);
                assert(!has_task_id(acc0, rowv.id));
            }
            let labels: Vec<Label> = match (&row.label_id, &row.label_name) {
                (Some(lid), Some(lname)) => {
                    let mut v: Vec<Label> = Vec::new();
                    v.push(Label { id: *lid, name: lname.clone() });
                    v
                }
                _ => Vec::new(),
            };
            proof {
                assert(labels_view(labels@) =~= new_todo(rowv).labels);
            }
            accum.push(TodoEntity {
                id: row.id,
                title: row.title.clone(),
                completed: row.completed,
                labels,
            });
            proof {
                assert(accum@.last()@ == new_todo(rowv));
                assert(todos_view(accum@) =~= acc0.push(new_todo(rowv)));
                assert(todos_view(accum@) == fold_step(acc0, rowv));
            }
        }
        proof {
            assert(rv.take(i as int + 1).drop_last() =~= rv.take(i as int));
            assert(rv.take(i as int + 1).last() == rowv);
            assert(fold_spec(rv.take(i as int + 1))
                == fold_step(fold_spec(rv.take(i as int)), rowv));
        }
        i += 1;
    }
    proof {
        assert(rv.take(n as int) =~= rv);
    }
    accum
}

// ---------------------------------------------------------------------------
// The task store
// ---------------------------------------------------------------------------

pub open spec fn ids_view(s: Seq<i32>) -> Seq<int> {
    s.map_values(|x: i32| x as int)
}

/// The labels a store resolves a submitted id sequence to: each id in
/// submitted order mapped to the first catalog label carrying it; unknown ids
/// are dropped, as are later repeats of an id.
pub open spec fn resolve_spec(catalog: Seq<LabelView>, ids: Seq<int>) -> Seq<LabelView>
    decreases ids.len(),
{
    if ids.len() == 0 {
        Seq::empty()
    } else {
        let p = resolve_spec(catalog, ids.drop_last());
        let id = ids.last();
        if has_label_id(p, id) {
            p
        } else if label_index(catalog, id) >= 0 {
            p.push(catalog[label_index(catalog, id)])
        } else {
            p
        }
    }
}

proof fn lemma_resolve_nodup(catalog: Seq<LabelView>, ids: Seq<int>)
    ensures
        no_dup_label_ids(resolve_spec(catalog, ids)),
    decreases ids.len(),
{
    if ids.len() == 0 {
    } else {
        lemma_resolve_nodup(catalog, ids.drop_last());
        let p = resolve_spec(catalog, ids.drop_last());
        let id = ids.last();
        if !has_label_id(p, id) && label_index(catalog, id) >= 0 {
            lemma_label_index(catalog, id);
            let l = catalog[label_index(catalog, id)];
            assert(l.id == id);
            let q = p.push(l);
            assert forall|i: int, j: int| 0 <= i < j < q.len() implies
                q[i].id != q[j].id by {
                if j == q.len() - 1 {
                    assert(q[i] == p[i]);
                    if p[i].id == id {
                        assert(has_label_id(p, id));
                    }
                } else {
                    assert(q[i] == p[i] && q[j] == p[j]);
                }
            }
        }
    }
}

/// What any task store guarantees: one contract that the in-memory double
/// and a relational backend both honor.  The model `tasks()` lists the
/// stored tasks in ascending id order; `catalog()` is the label population
/// that submitted label ids are resolved against.
pub trait TodoRepository: Sized {
    spec fn catalog(&self) -> Seq<LabelView>;

    spec fn tasks(&self) -> Seq<TodoView>;

    spec fn inv(&self) -> bool;

    /// Create a task with a fresh id, not yet completed, holding the
    /// submitted label ids resolved against the catalog.
    fn create(&mut self, payload: CreateTodo) -> (r: Result<TodoEntity, RepositoryError>)
        requires
            old(self).inv(),
        ensures
            final(self).inv(),
            final(self).catalog() == old(self).catalog(),
            match r {
                Ok(t) => {
                    &&& final(self).tasks() == old(self).tasks().push(t@)
                    &&& t@.title == payload.title@
                    &&& t@.completed == false
                    &&& t@.labels == resolve_spec(
                        old(self).catalog(),
                        ids_view(payload.labels@),
                    )
                    &&& forall|k: int| 0 <= k < old(self).tasks().len() ==>
                        (#[trigger] old(self).tasks()[k]).id != t@.id
                },
                Err(RepositoryError::Unexpected(_)) => *final(self) == *old(self),
                Err(_) => false,
            },
    ;

    /// Find the task with id `id`, its labels rebuilt from the join.
    fn find(&self, id: i32) -> (r: Result<TodoEntity, RepositoryError>)
        requires
            self.inv(),
        ensures
            match r {
                Ok(t) => {
                    &&& has_task_id(self.tasks(), id as int)
                    &&& t@ == self.tasks()[task_index(self.tasks(), id as int)]
                },
                Err(RepositoryError::NotFound(i)) => {
                    &&& i == id
                    &&& !has_task_id(self.tasks(), id as int)
                },
                Err(_) => false,
            },
    ;

    /// List every task, newest first: descending id order.
    fn all(&self) -> (r: Result<Vec<TodoEntity>, RepositoryError>)
        requires
            self.inv(),
        ensures
            match r {
                Ok(v) => {
                    &&& v@.len() == self.tasks().len()
                    &&& forall|i: int| 0 <= i < v@.len() ==>
                        (#[trigger] v@[i])@ == self.tasks()[self.tasks().len() - 1 - i]
                },
                Err(RepositoryError::Unexpected(_)) => true,
                Err(_) => false,
            },
    ;

    /// Partially update the task with id `id`: absent fields keep their
    /// stored values; a submitted label id list — even an empty one —
    /// replaces the task's associations wholesale.
    fn update(&mut self, id: i32, payload: UpdateTodo) -> (r: Result<
        TodoEntity,
        RepositoryError,
    >)
        requires
            old(self).inv(),
        ensures
            final(self).inv(),
            final(self).catalog() == old(self).catalog(),
            match r {
                Ok(t) => {
                    let ts = old(self).tasks();
                    let k = task_index(ts, id as int);
                    &&& has_task_id(ts, id as int)
                    &&& final(self).tasks() == ts.update(k, t@)
                    &&& t@.id == id as int
                    &&& t@.title == (match payload.title {
                        Some(s) => s@,
                        None => ts[k].title,
                    })
                    &&& t@.completed == (match payload.completed {
                        Some(c) => c,
                        None => ts[k].completed,
                    })
                    &&& t@.labels == (match payload.labels {
                        Some(ids) => resolve_spec(old(self).catalog(), ids_view(ids@)),
                        None => ts[k].labels,
                    })
                },
                Err(RepositoryError::NotFound(i)) => {
                    &&& i == id
                    &&& !has_task_id(old(self).tasks(), id as int)
                    &&& *final(self) == *old(self)
                },
                Err(_) => false,
            },
    ;

    /// Delete the task with id `id` and all its label associations.
    fn delete(&mut self, id: i32) -> (r: Result<(), RepositoryError>)
        requires
            old(self).inv(),
        ensures
            final(self).inv(),
            final(self).catalog() == old(self).catalog(),
            match r {
                Ok(()) => {
                    &&& has_task_id(old(self).tasks(), id as int)
                    &&& final(self).tasks() == old(self).tasks().remove(
                        task_index(old(self).tasks(), id as int),
                    )
                },
                Err(RepositoryError::NotFound(i)) => {
                    &&& i == id
                    &&& !has_task_id(old(self).tasks(), id as int)
                    &&& *final(self) == *old(self)
                },
                Err(_) => false,
            },
    ;
}

/// The read path of a single-task lookup after the join query: fold the
/// task's join rows and take the one entity out, or report the id as not
/// found when the join returned no rows.
pub fn fold_find(rows: Vec<TodoWithLabelFromRow>, id: i32) -> (r: Result<
    TodoEntity,
    RepositoryError,
>)
    ensures
        match r {
            Ok(t) => {
                &&& fold_spec(rows_view(rows@)).len() > 0
                &&& t@ == fold_spec(rows_view(rows@))[0]
            },
            Err(RepositoryError::NotFound(i)) => {
                &&& i == id
                &&& fold_spec(rows_view(rows@)).len() == 0
            },
            Err(_) => false,
        },
{
    let mut todos = fold_entities(rows);
    if todos.len() > 0 {
        Ok(todos.remove(0))
    } else {
        Err(RepositoryError::NotFound(id))
    }
}

/// The decision part of a partial task update: the effective title and
/// completion flag (submitted value, or the stored one when absent) and the
/// label id list to replace the associations with, if one was submitted.
pub fn merge_update(current: &TodoEntity, payload: UpdateTodo) -> (r: (
    String,
    bool,
    Option<Vec<i32>>,
))
    ensures
        r.0@ == (match payload.title {
            Some(s) => s@,
            None => current@.title,
        }),
        r.1 == (match payload.completed {
            Some(c) => c,
            None => current@.completed,
        }),
        r.2 == payload.labels,
{
    let title = match payload.title {
        Some(t) => t,
        None => current.title.clone(),
    };
    let completed = match payload.completed {
        Some(c) => c,
        None => current.completed,
    };
    (title, completed, payload.labels)
}

/// Law: a freshly created task is found again.  A task store's `create`
/// appends an entity whose id no stored task carries; `find` on that id then
/// answers exactly the appended entity — title, completion flag and resolved
/// labels included.
pub proof fn lemma_create_then_find(ts: Seq<TodoView>, t: TodoView)
    requires
        forall|k: int| 0 <= k < ts.len() ==> (#[trigger] ts[k]).id != t.id,
    ensures
        has_task_id(ts.push(t), t.id),
        ts.push(t)[task_index(ts.push(t), t.id)] == t,
{
    let ts2 = ts.push(t);
    assert(ts2[ts2.len() - 1] == t);
    lemma_task_index(ts2, t.id);
    let k = task_index(ts2, t.id);
    if k < ts2.len() - 1 {
        assert(ts2[k] == ts[k]);
        assert(false);
    }
}

/// Law: deleting a task makes it unfindable.  A task store's `delete`
/// removes the entity at the deleted id's index; as long as no two stored
/// tasks share an id, no entity with that id remains, so a following `find`
/// must answer `NotFound`.
pub proof fn lemma_delete_then_find(ts: Seq<TodoView>, id: int)
    requires
        todo_ids(ts).no_duplicates(),
        has_task_id(ts, id),
    ensures
        !has_task_id(ts.remove(task_index(ts, id)), id),
{
    lemma_task_index(ts, id);
    let k = task_index(ts, id);
    let rest = ts.remove(k);
    assert forall|j: int| 0 <= j < rest.len() implies
        (#[trigger] rest[j]).id != id by {
        if j < k {
            assert(rest[j] == ts[j]);
            assert(todo_ids(ts)[j] == ts[j].id);
            assert(todo_ids(ts)[k] == ts[k].id);
        } else {
            assert(rest[j] == ts[j + 1]);
            assert(todo_ids(ts)[j + 1] == ts[j + 1].id);
            assert(todo_ids(ts)[k] == ts[k].id);
        }
    }
}

/// The in-memory task store: the test double of the relational backend.  It
/// holds its tasks in a vector ordered by ascending id and resolves submitted
/// label ids against a fixed label catalog.
#[derive(Debug)]
pub struct TodoRepositoryInMemory {
    store: Vec<TodoEntity>,
    labels: Vec<Label>,
}

impl TodoRepositoryInMemory {
    pub fn new(labels: Vec<Label>) -> (r: Self)
        ensures
            r.inv(),
            r.tasks() == Seq::<TodoView>::empty(),
            r.catalog() == labels_view(labels@),
    {
        let r = TodoRepositoryInMemory { store: Vec::new(), labels };
        proof {
            assert(r.tasks() =~= Seq::<TodoView>::empty());
        }
        r
    }

    /// Map submitted label ids to catalog labels: submitted order, unknown
    /// ids filtered out, repeats of an id dropped.
    fn resolve_labels(&self, label_ids: &Vec<i32>) -> (r: Vec<Label>)
        ensures
            labels_view(r@) == resolve_spec(labels_view(self.labels@), ids_view(label_ids@)),
    {
        let ghost cv = labels_view(self.labels@);
        let ghost iv = ids_view(label_ids@);
        let mut r: Vec<Label> = Vec::new();
        let n = label_ids.len();
        let mut i: usize = 0;
        while i < n
            invariant
                i <= n,
                n == label_ids@.len(),
                cv == labels_view(self.labels@),
                iv == ids_view(label_ids@),
                labels_view(r@) == resolve_spec(cv, iv.take(i as int)),
            decreases n - i,
        {
            let id = label_ids[i];
            assert(iv[i as int] == id as int);
            let ghost p = labels_view(r@);
            let m = r.len();
            let mut j: usize = 0;
            while j < m && r[j].id != id
                invariant
                    j <= m,
                    m == r@.len(),
                    p == labels_view(r@),
                    forall|jj: int| 0 <= jj < j ==> (#[trigger] p[jj]).id != id as int,
                decreases m - j,
            {
                assert(p[j as int].id == r@[j as int].id as int);
                j += 1;
            }
            if j == m {
                proof {
                    assert forall|jj: int| 0 <= jj < p.len() implies
                        (#[trigger] p[jj]).id != id as int by {}
                    assert(!has_label_id(p, id as int));
                    lemma_label_index(cv, id as int);
                }
                let cn = self.labels.len();
                let mut c: usize = 0;
                while c < cn && self.labels[c].id != id
                    invariant
                        c <= cn,
                        cn == self.labels@.len(),
                        cv == labels_view(self.labels@),
                        forall|cc: int| 0 <= cc < c ==> (#[trigger] cv[cc]).id != id as int,
                    decreases cn - c,
                {
                    assert(cv[c as int].id == self.labels@[c as int].id as int);
                    c += 1;
                }
                if c < cn {
                    proof {
                        assert(cv[c as int].id == id as int);
                        let k = label_index(cv, id as int);
                        assert(k >= 0);
                        if k < c as int {
                            assert(cv[k].id != id as int);
                            assert(false);
                        }
                        if k > c as int {
                            assert(false);
                        }
                    }
                    r.push(self.labels[c].clone());
                    proof {
                        assert(labels_view(r@) =~= p.push(cv[c as int]));
                    }
                } else {
                    proof {
                        assert forall|cc: int| 0 <= cc < cv.len() implies
                            (#[trigger] cv[cc]).id != id as int by {}
                        assert(!has_label_id(cv, id as int));
                        assert(label_index(cv, id as int) < 0);
                    }
                }
            } else {
                proof {
                    assert(p[j as int].id == id as int);
                    assert(has_label_id(p, id as int));
                }
            }
            proof {
                assert(iv.take(i as int + 1).drop_last() =~= iv.take(i as int));
                assert(iv.take(i as int + 1).last() == id as int);
                assert(resolve_spec(cv, iv.take(i as int + 1))
                    == labels_view(r@));
            }
            i += 1;
        }
        proof {
            assert(iv.take(n as int) =~= iv);
        }
        r
    }
}

impl TodoRepository for TodoRepositoryInMemory {
    closed spec fn catalog(&self) -> Seq<LabelView> {
        labels_view(self.labels@)
    }

    closed spec fn tasks(&self) -> Seq<TodoView> {
        todos_view(self.store@)
    }

    closed spec fn inv(&self) -> bool {
        &&& forall|i: int, j: int| 0 <= i < j < self.store@.len() ==>
            (#[trigger] self.store@[i]).id < (#[trigger] self.store@[j]).id
        &&& forall|k: int| 0 <= k < self.store@.len() ==>
            no_dup_label_ids((#[trigger] self.store@[k])@.labels)
    }

    fn create(&mut self, payload: CreateTodo) -> (r: Result<TodoEntity, RepositoryError>)
        ensures
            match r {
                Err(RepositoryError::Unexpected(_)) => {
                    &&& old(self).tasks().len() > 0
                    &&& old(self).tasks().last().id == i32::MAX
                },
                _ => true,
            },
    {
        let ghost ts = self.tasks();
        let id: i32 = if self.store.len() == 0 {
            1
        } else {
            let last = self.store[self.store.len() - 1].id;
            if last == i32::MAX {
                proof {
                    assert(ts.last().id == i32::MAX);
                }
                return Err(RepositoryError::Unexpected("task id space exhausted".to_owned()));
            }
            last + 1
        };
        proof {
            assert forall|k: int| 0 <= k < ts.len() implies
                (#[trigger] ts[k]).id < id as int by {
                assert(ts[k].id == self.store@[k].id as int);
                if self.store@.len() > 1 && k < self.store@.len() - 1 {
                    assert(self.store@[k].id < self.store@[self.store@.len() - 1].id);
                }
            }
        }
        let labels = self.resolve_labels(&payload.labels);
        let todo = TodoEntity { id, title: payload.title, completed: false, labels };
        let entry = todo.clone();
        self.store.push(entry);
        proof {
            lemma_resolve_nodup(self.catalog(), ids_view(payload.labels@));
            assert(self.tasks() =~= ts.push(todo@));
        }
        Ok(todo)
    }

    fn find(&self, id: i32) -> (r: Result<TodoEntity, RepositoryError>)
    {
        let ghost ts = self.tasks();
        let n = self.store.len();
        let mut k: usize = 0;
        while k < n && self.store[k].id != id
            invariant
                k <= n,
                n == self.store@.len(),
                ts == self.tasks(),
                forall|j: int| 0 <= j < k ==> (#[trigger] ts[j]).id != id as int,
            decreases n - k,
        {
            assert(ts[k as int].id == self.store@[k as int].id as int);
            k += 1;
        }
        proof {
            lemma_task_index(ts, id as int);
        }
        if k < n {
            proof {
                assert(ts[k as int].id == id as int);
                let t = task_index(ts, id as int);
                if t < k as int {
                    assert(ts[t].id != id as int);
                    assert(false);
                }
                if t > k as int {
                    assert(false);
                }
            }
            Ok(self.store[k].clone())
        } else {
            proof {
                assert forall|j: int| 0 <= j < ts.len() implies
                    (#[trigger] ts[j]).id != id as int by {}
            }
            Err(RepositoryError::NotFound(id))
        }
    }

    fn all(&self) -> (r: Result<Vec<TodoEntity>, RepositoryError>)
        ensures
            r is Ok,
    {
        let ghost ts = self.tasks();
        let n = self.store.len();
        let mut v: Vec<TodoEntity> = Vec::new();
        let mut i: usize = n;
        while i > 0
            invariant
                i <= n,
                n == self.store@.len(),
                ts == self.tasks(),
                v@.len() == n - i,
                forall|j: int| 0 <= j < v@.len() ==>
                    (#[trigger] v@[j])@ == ts[n - 1 - j],
            decreases i,
        {
            i -= 1;
            let e = self.store[i].clone();
            v.push(e);
            proof {
                assert(v@.last()@ == ts[i as int]);
            }
        }
        Ok(v)
    }

    fn update(&mut self, id: i32, payload: UpdateTodo) -> (r: Result<
        TodoEntity,
        RepositoryError,
    >)
    {
        let ghost ts = self.tasks();
        let n = self.store.len();
        let mut k: usize = 0;
        while k < n && self.store[k].id != id
            invariant
                k <= n,
                n == self.store@.len(),
                *self == *old(self),
                ts == self.tasks(),
                forall|j: int| 0 <= j < k ==> (#[trigger] ts[j]).id != id as int,
            decreases n - k,
        {
            assert(ts[k as int].id == self.store@[k as int].id as int);
            k += 1;
        }
        proof {
            lemma_task_index(ts, id as int);
        }
        if k == n {
            proof {
                assert forall|j: int| 0 <= j < ts.len() implies
                    (#[trigger] ts[j]).id != id as int by {}
            }
            return Err(RepositoryError::NotFound(id));
        }
        proof {
            assert(ts[k as int].id == id as int);
            let t = task_index(ts, id as int);
            if t < k as int {
                assert(ts[t].id != id as int);
                assert(false);
            }
            if t > k as int {
                assert(false);
            }
        }
        let title: String = match payload.title {
            Some(t) => t,
            None => self.store[k].title.clone(),
        };
        let completed: bool = match payload.completed {
            Some(c) => c,
            None => self.store[k].completed,
        };
        let labels: Vec<Label> = match payload.labels {
            Some(ref ids) => self.resolve_labels(ids),
            None => self.store[k].labels.clone(),
        };
        proof {
            if payload.labels is Some {
                lemma_resolve_nodup(self.catalog(), ids_view(payload.labels->0@));
            } else {
                assert forall|i: int| 0 <= i < labels@.len() implies
                    labels_view(labels@)[i] == ts[k as int].labels[i] by {
                    assert(cloned::<Label>(self.store@[k as int].labels@[i], labels@[i]));
                }
                assert(labels_view(labels@) =~= ts[k as int].labels);
            }
        }
        let todo = TodoEntity { id, title, completed, labels };
        let entry = todo.clone();
        self.store.remove(k);
        self.store.insert(k, entry);
        proof {
            assert(self.tasks() =~= ts.update(k as int, todo@));
        }
        Ok(todo)
    }

    fn delete(&mut self, id: i32) -> (r: Result<(), RepositoryError>)
    {
        let ghost ts = self.tasks();
        let n = self.store.len();
        let mut k: usize = 0;
        while k < n && self.store[k].id != id
            invariant
                k <= n,
                n == self.store@.len(),
                *self == *old(self),
                ts == self.tasks(),
                forall|j: int| 0 <= j < k ==> (#[trigger] ts[j]).id != id as int,
            decreases n - k,
        {
            assert(ts[k as int].id == self.store@[k as int].id as int);
            k += 1;
        }
        proof {
            lemma_task_index(ts, id as int);
        }
        if k < n {
            proof {
                assert(ts[k as int].id == id as int);
                let t = task_index(ts, id as int);
                if t < k as int {
                    assert(ts[t].id != id as int);
                    assert(false);
                }
                if t > k as int {
                    assert(false);
                }
            }
            self.store.remove(k);
            proof {
                assert(self.tasks() =~= ts.remove(k as int));
            }
            Ok(())
        } else {
            proof {
                assert forall|j: int| 0 <= j < ts.len() implies
                    (#[trigger] ts[j]).id != id as int by {}
            }
            Err(RepositoryError::NotFound(id))
        }
    }
}

} // verus!
