//! Label entities and the label store.

use vstd::prelude::*;

use crate::repositories::RepositoryError;

verus! {

/// The mathematical value of a label: its identity and its name.
pub ghost struct LabelView {
    pub id: int,
    pub name: Seq<char>,
}

/// A label entity: identity is `id`; `name` is checked for uniqueness at
/// creation time only.
#[derive(Debug)]
pub struct Label {
    pub id: i32,
    pub name: String,
}

impl View for Label {
    type V = LabelView;

    open spec fn view(&self) -> LabelView {
        LabelView { id: self.id as int, name: self.name@ }
    }
}

impl Label {
    pub fn new(id: i32, name: String) -> (r: Label)
        ensures
            r@ == (LabelView { id: id as int, name: name@ }),
    {
        Label { id, name }
    }
}

impl Clone for Label {
    fn clone(&self) -> (r: Self)
        ensures
            r@ == self@,
    {
        Label { id: self.id, name: self.name.clone() }
    }
}

impl PartialEq for Label {
    fn eq(&self, other: &Self) -> (r: bool)
        ensures
            r == (self@ == other@),
    {
        let r = self.id == other.id && self.name == other.name;
        proof {
            if r {
                assert(self@ =~= other@);
            }
        }
        r
    }
}

impl Eq for Label {}

impl vstd::std_specs::cmp::PartialEqSpecImpl for Label {
    open spec fn obeys_eq_spec() -> bool {
        true
    }

    open spec fn eq_spec(&self, other: &Self) -> bool {
        self@ == other@
    }
}

/// A request to create a label.
#[derive(Debug)]
pub struct CreateLabel {
    pub name: String,
}

/// A request to rename a label (carried by the wire format; no store
/// operation consumes it).
#[derive(Debug)]
pub struct UpdateLabel {
    pub id: i32,
    pub name: String,
}

// ---------------------------------------------------------------------------
// Spec helpers over label sequences
// ---------------------------------------------------------------------------

pub open spec fn labels_view(s: Seq<Label>) -> Seq<LabelView> {
    s.map_values(|l: Label| l@)
}

/// Does some label in `ls` carry the id `id`?
pub open spec fn has_label_id(ls: Seq<LabelView>, id: int) -> bool {
    exists|k: int| 0 <= k < ls.len() && ls[k].id == id
}

/// Does some label in `ls` carry the name `name`?
pub open spec fn has_label_name(ls: Seq<LabelView>, name: Seq<char>) -> bool {
    exists|k: int| 0 <= k < ls.len() && ls[k].name == name
}

/// The first index of a label with id `id`, or -1 when there is none.
pub open spec fn label_index(ls: Seq<LabelView>, id: int) -> int
    decreases ls.len(),
{
    if ls.len() == 0 {
        -1
    } else if ls[0].id == id {
        0
    } else {
        let r = label_index(ls.drop_first(), id);
        if r < 0 {
            -1
        } else {
            r + 1
        }
    }
}

pub proof fn lemma_label_index(ls: Seq<LabelView>, id: int)
    ensures
        has_label_id(ls, id) <==> label_index(ls, id) >= 0,
        label_index(ls, id) >= 0 ==> {
            let k = label_index(ls, id);
            &&& k < ls.len()
            &&& ls[k].id == id
            &&& forall|j: int| 0 <= j < k ==> ls[j].id != id
        },
    decreases ls.len(),
{
    if ls.len() == 0 {
    } else if ls[0].id == id {
    } else {
        lemma_label_index(ls.drop_first(), id);
        assert forall|k: int| 0 <= k < ls.len() && ls[k].id == id implies
            has_label_id(ls.drop_first(), id) by {
            assert(k != 0);
            assert(ls.drop_first()[k - 1] == ls[k]);
        }
        if label_index(ls, id) >= 0 {
            let r = label_index(ls.drop_first(), id);
            assert(ls.drop_first()[r] == ls[r + 1]);
            assert forall|j: int| 0 <= j < r + 1 implies ls[j].id != id by {
                if j > 0 {
                    assert(ls.drop_first()[j - 1] == ls[j]);
                }
            }
        }
    }
}

// ---------------------------------------------------------------------------
// The label store
// ---------------------------------------------------------------------------

/// What any label store guarantees: one contract that the in-memory double
/// and a relational backend both honor.  The model `labels()` lists the
/// stored labels in ascending id order.
pub trait LabelRepository: Sized {
    spec fn labels(&self) -> Seq<LabelView>;

    spec fn inv(&self) -> bool;

    /// Create a label with a fresh id, unless one with the same name (exact,
    /// case-sensitive match) already exists; then report the first such
    /// label's id as a duplicate.
    fn create(&mut self, name: String) -> (r: Result<Label, RepositoryError>)
        requires
            old(self).inv(),
        ensures
            final(self).inv(),
            match r {
                Ok(l) => {
                    &&& !has_label_name(old(self).labels(), name@)
                    &&& l@.name == name@
                    &&& final(self).labels() == old(self).labels().push(l@)
                    &&& forall|k: int| 0 <= k < old(self).labels().len() ==>
                        (#[trigger] old(self).labels()[k]).id != l@.id
                },
                Err(RepositoryError::Duplicate(id)) => {
                    &&& *final(self) == *old(self)
                    &&& exists|k: int| {
                        &&& 0 <= k < old(self).labels().len()
                        &&& (#[trigger] old(self).labels()[k]).name == name@
                        &&& old(self).labels()[k].id == id as int
                        &&& forall|j: int| 0 <= j < k ==>
                            (#[trigger] old(self).labels()[j]).name != name@
                    }
                },
                Err(RepositoryError::Unexpected(_)) => *final(self) == *old(self),
                Err(_) => false,
            },
    ;

    /// List every label, in ascending id order.
    fn all(&self) -> (r: Result<Vec<Label>, RepositoryError>)
        requires
            self.inv(),
        ensures
            match r {
                Ok(v) => {
                    &&& labels_view(v@) == self.labels()
                    &&& forall|i: int, j: int| 0 <= i < j < v@.len() ==>
                        (#[trigger] v@[i]).id < (#[trigger] v@[j]).id
                },
                Err(RepositoryError::Unexpected(_)) => true,
                Err(_) => false,
            },
    ;

    /// Remove the label with id `id`; fail with `NotFound` when there is
    /// none.
    fn delete(&mut self, id: i32) -> (r: Result<(), RepositoryError>)
        requires
            old(self).inv(),
        ensures
            final(self).inv(),
            match r {
                Ok(()) => exists|k: int| {
                    &&& 0 <= k < old(self).labels().len()
                    &&& (#[trigger] old(self).labels()[k]).id == id as int
                    &&& final(self).labels() == old(self).labels().remove(k)
                },
                Err(RepositoryError::NotFound(i)) => {
                    &&& i == id
                    &&& !has_label_id(old(self).labels(), id as int)
                    &&& *final(self) == *old(self)
                },
                Err(_) => false,
            },
    ;
}

/// The in-memory label store: the test double of the relational backend,
/// holding its labels in a vector ordered by ascending id.
#[derive(Debug)]
pub struct LabelRepositoryInMemory {
    store: Vec<Label>,
}

impl LabelRepositoryInMemory {
    pub fn new() -> (r: Self)
        ensures
            r.inv(),
            r.labels() == Seq::<LabelView>::empty(),
    {
        let r = LabelRepositoryInMemory { store: Vec::new() };
        proof {
            assert(r.labels() =~= Seq::<LabelView>::empty());
        }
        r
    }
}

impl LabelRepository for LabelRepositoryInMemory {
    closed spec fn labels(&self) -> Seq<LabelView> {
        labels_view(self.store@)
    }

    closed spec fn inv(&self) -> bool {
        forall|i: int, j: int| 0 <= i < j < self.store@.len() ==>
            (#[trigger] self.store@[i]).id < (#[trigger] self.store@[j]).id
    }

    fn create(&mut self, name: String) -> (r: Result<Label, RepositoryError>)
        ensures
            match r {
                Err(RepositoryError::Unexpected(_)) => {
                    &&& !has_label_name(old(self).labels(), name@)
                    &&& old(self).labels().len() > 0
                    &&& old(self).labels().last().id == i32::MAX
                },
                _ => true,
            },
    {
        let ghost ls = self.labels();
        let n = self.store.len();
        let mut k: usize = 0;
        while k < n && !string_eq(&self.store[k].name, &name)
            invariant
                k <= n,
                n == self.store@.len(),
                *self == *old(self),
                forall|j: int| 0 <= j < k ==> (#[trigger] ls[j]).name != name@,
                ls == self.labels(),
            decreases n - k,
        {
            assert(ls[k as int].name == self.store@[k as int].name@);
            k += 1;
        }
        if k < n {
            let id = self.store[k].id;
            proof {
                assert(ls[k as int].name == self.store@[k as int].name@);
                assert(ls[k as int].id == id as int);
            }
            return Err(RepositoryError::Duplicate(id));
        }
        proof {
            assert(forall|j: int| 0 <= j < ls.len() ==> (#[trigger] ls[j]).name != name@);
        }
        let id: i32 = if self.store.len() == 0 {
            1
        } else {
            let last = self.store[self.store.len() - 1].id;
            if last == i32::MAX {
                proof {
                    assert(ls.last().id == i32::MAX);
                }
                return Err(RepositoryError::Unexpected("label id space exhausted".to_owned()));
            }
            last + 1
        };
        proof {
            assert forall|j: int| 0 <= j < ls.len() implies (#[trigger] ls[j]).id < id as int by {
                if self.store@.len() > 1 && j < self.store@.len() - 1 {
                    assert(self.store@[j].id < self.store@[self.store@.len() - 1].id);
                }
            }
        }
        let label = Label { id, name };
        self.store.push(label.clone());
        proof {
            assert(self.labels() =~= ls.push(label@));
        }
        Ok(label)
    }

    fn all(&self) -> (r: Result<Vec<Label>, RepositoryError>)
        ensures
            r is Ok,
    {
        let v = self.store.clone();
        proof {
            assert(labels_view(v@) =~= self.labels());
            assert forall|i: int, j: int| 0 <= i < j < v@.len() implies
                (#[trigger] v@[i]).id < (#[trigger] v@[j]).id by {
                assert(cloned::<Label>(self.store@[i], v@[i]));
                assert(cloned::<Label>(self.store@[j], v@[j]));
            }
        }
        Ok(v)
    }

    fn delete(&mut self, id: i32) -> (r: Result<(), RepositoryError>)
    {
        let ghost ls = self.labels();
        let n = self.store.len();
        let mut k: usize = 0;
        while k < n && self.store[k].id != id
            invariant
                k <= n,
                n == self.store@.len(),
                *self == *old(self),
                forall|j: int| 0 <= j < k ==> (#[trigger] ls[j]).id != id as int,
                ls == self.labels(),
            decreases n - k,
        {
            assert(ls[k as int].id == self.store@[k as int].id as int);
            k += 1;
        }
        if k < n {
            self.store.remove(k);
            proof {
                assert(old(self).labels()[k as int].id == id as int);
                assert(self.labels() =~= old(self).labels().remove(k as int));
            }
            Ok(())
        } else {
            proof {
                assert forall|j: int| 0 <= j < ls.len() implies
                    (#[trigger] ls[j]).id != id as int by {}
            }
            Err(RepositoryError::NotFound(id))
        }
    }
}

/// String equality as one comparison call, so that store code can test names.
fn string_eq(a: &String, b: &String) -> (r: bool)
    ensures
        r == (a@ == b@),
{
    a.eq(b)
}

} // verus!
