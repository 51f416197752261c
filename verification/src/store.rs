//! The in-memory task store: owner of the ordered task collection, with the
//! operations the tracker offers and the load/save contract against the
//! snapshot codec.

use crate::codec::{CodecError, decode, encode, spec_decode, spec_encode};
use crate::task::{Status, Task, TaskView, views_of};
use vstd::prelude::*;

verus! {

/// Error from operations that look a task up by id.
#[derive(Clone, Copy, PartialEq, Eq, Structural, Debug)]
pub enum StoreError {
    /// No task with the given id is in the store.
    TaskNotFound(u64),
}

/// Some task in the collection carries the given id.
pub open spec fn contains_id(ts: Seq<TaskView>, id: u64) -> bool {
    exists|i: int| 0 <= i < ts.len() && (#[trigger] ts[i]).id == id
}

/// No two tasks in the collection share an id.
pub open spec fn unique_ids(ts: Seq<TaskView>) -> bool {
    forall|i: int, j: int|
        0 <= i < j < ts.len() ==> (#[trigger] ts[i]).id != (#[trigger] ts[j]).id
}

/// Every id in the collection lies below the bound.
pub open spec fn ids_below(ts: Seq<TaskView>, bound: u64) -> bool {
    forall|i: int| 0 <= i < ts.len() ==> (#[trigger] ts[i]).id < bound
}

/// In-memory owner of the task collection. Ids are handed out by a counter
/// that stays above every stored id, so they never repeat within a session.
pub struct TaskStore {
    tasks: Vec<Task>,
    next_id: u64,
}

impl View for TaskStore {
    type V = Seq<TaskView>;

    closed spec fn view(&self) -> Seq<TaskView> {
        views_of(self.tasks@)
    }
}

impl TaskStore {
    #[verifier::type_invariant]
    spec fn inv(self) -> bool {
        &&& ids_below(self@, self.next_id)
        &&& unique_ids(self@)
    }

    /// The id the next added task will get.
    pub closed spec fn spec_next_id(&self) -> u64 {
        self.next_id
    }

    pub fn next_id(&self) -> (r: u64)
        ensures
            r == self.spec_next_id(),
    {
        self.next_id
    }

    /// An empty store; the first task will get id 1.
    pub fn new() -> (s: Self)
        ensures
            s@ == Seq::<TaskView>::empty(),
            s.spec_next_id() == 1,
    {
        let s = TaskStore { tasks: Vec::new(), next_id: 1 };
        proof {
            assert(s@ =~= Seq::<TaskView>::empty());
        }
        s
    }

    /// Append a fresh task with the next id; a new task always starts
    /// Pending. The returned task is a copy of the stored one. The one
    /// precondition is the machine limit on the id counter itself.
    pub fn add(&mut self, title: String) -> (t: Task)
        requires
            old(self).spec_next_id() < u64::MAX,
        ensures
            t@ == (TaskView {
                id: old(self).spec_next_id(),
                title: title@,
                status: Status::Pending,
            }),
            final(self)@ == old(self)@.push(t@),
            final(self).spec_next_id() == old(self).spec_next_id() + 1,
            forall|i: int| 0 <= i < old(self)@.len() ==> (#[trigger] old(self)@[i]).id < t@.id,
    {
        proof {
            use_type_invariant(&*self);
        }
        let id = self.next_id;
        let stored_title = title.clone();
        let t = crate::task::add_task(title, id);
        let mut tasks: Vec<Task> = Vec::new();
        core::mem::swap(&mut tasks, &mut self.tasks);
        self.next_id = id + 1;
        tasks.push(Task { id, title: stored_title, status: Status::Pending });
        proof {
            assert(views_of(tasks@) =~= views_of(old(self).tasks@).push(t@));
        }
        core::mem::swap(&mut tasks, &mut self.tasks);
        t
    }

    /// The tasks, in insertion order. An empty store yields an empty list.
    pub fn list(&self) -> (r: &Vec<Task>)
        ensures
            views_of(r@) == self@,
    {
        &self.tasks
    }

    /// How many tasks the store holds.
    pub fn len(&self) -> (n: usize)
        ensures
            n == self@.len(),
    {
        self.tasks.len()
    }

    /// Set the status of the task with the given id. When the id is present,
    /// exactly that task's status changes and every other field of every task
    /// stays; when it is absent, the store is left unchanged.
    pub fn update_status(&mut self, id: u64, new_status: Status) -> (r: Result<(), StoreError>)
        ensures
            final(self).spec_next_id() == old(self).spec_next_id(),
            final(self)@.len() == old(self)@.len(),
            r is Ok <==> contains_id(old(self)@, id),
            r matches Err(e) ==> {
                &&& e == StoreError::TaskNotFound(id)
                &&& final(self)@ == old(self)@
            },
            r is Ok ==> exists|i: int|
                #![auto]
                {
                    &&& 0 <= i < old(self)@.len()
                    &&& old(self)@[i].id == id
                    &&& final(self)@ == old(self)@.update(
                        i,
                        (TaskView { id, title: old(self)@[i].title, status: new_status }),
                    )
                },
    {
        proof {
            use_type_invariant(&*self);
        }
        let mut tasks: Vec<Task> = Vec::new();
        core::mem::swap(&mut tasks, &mut self.tasks);
        let found = find_index(&tasks, id);
        match found {
            None => {
                core::mem::swap(&mut tasks, &mut self.tasks);
                Err(StoreError::TaskNotFound(id))
            },
            Some(i) => {
                let ghost pre = views_of(tasks@);
                let mut t = tasks.remove(i);
                t.status = new_status;
                tasks.insert(i, t);
                proof {
                    assert(views_of(tasks@) =~= pre.update(
                        i as int,
                        (TaskView { id, title: pre[i as int].title, status: new_status }),
                    ));
                    assert forall|k: int| 0 <= k < views_of(tasks@).len() implies (
                    #[trigger] views_of(tasks@)[k]).id == pre[k].id by {}
                }
                core::mem::swap(&mut tasks, &mut self.tasks);
                Ok(())
            },
        }
    }

    /// Remove the task with the given id. When the id is present, exactly
    /// that task goes, the collection shrinks by one, and the remaining
    /// tasks keep their relative order; when it is absent, the store is left
    /// unchanged.
    pub fn delete(&mut self, id: u64) -> (r: Result<(), StoreError>)
        ensures
            final(self).spec_next_id() == old(self).spec_next_id(),
            r is Ok <==> contains_id(old(self)@, id),
            r is Ok ==> final(self)@.len() + 1 == old(self)@.len(),
            r matches Err(e) ==> {
                &&& e == StoreError::TaskNotFound(id)
                &&& final(self)@ == old(self)@
            },
            r is Ok ==> exists|i: int|
                #![auto]
                {
                    &&& 0 <= i < old(self)@.len()
                    &&& old(self)@[i].id == id
                    &&& final(self)@ == old(self)@.remove(i)
                },
    {
        proof {
            use_type_invariant(&*self);
        }
        let mut tasks: Vec<Task> = Vec::new();
        core::mem::swap(&mut tasks, &mut self.tasks);
        let found = find_index(&tasks, id);
        match found {
            None => {
                core::mem::swap(&mut tasks, &mut self.tasks);
                Err(StoreError::TaskNotFound(id))
            },
            Some(i) => {
                let ghost pre = views_of(tasks@);
                let _removed = tasks.remove(i);
                proof {
                    assert(views_of(tasks@) =~= pre.remove(i as int));
                    assert forall|k: int, m: int|
                        0 <= k < m < views_of(tasks@).len() implies (
                    #[trigger] views_of(tasks@)[k]).id != (#[trigger] views_of(tasks@)[m]).id by {
                        assert(views_of(tasks@)[k] == if k < i {
                            pre[k]
                        } else {
                            pre[k + 1]
                        });
                        assert(views_of(tasks@)[m] == if m < i {
                            pre[m]
                        } else {
                            pre[m + 1]
                        });
                    }
                }
                core::mem::swap(&mut tasks, &mut self.tasks);
                Ok(())
            },
        }
    }

    /// Encode the whole store as one snapshot for persistence. The snapshot
    /// decodes back to exactly this store's tasks, whose ids `load` will
    /// accept again: saving never loses a session.
    pub fn save_bytes(&self) -> (out: Vec<u8>)
        ensures
            out@ == spec_encode(self@),
            spec_decode(out@) == Ok::<Seq<TaskView>, CodecError>(self@),
            unique_ids(self@),
            ids_below(self@, u64::MAX),
    {
        let out = encode(&self.tasks);
        proof {
            use_type_invariant(&*self);
            crate::codec::lemma_round_trip(self@);
        }
        out
    }

    /// Build a store from persisted data. Absent data yields an empty store,
    /// not an error. Present data is decoded; a snapshot whose ids collide,
    /// or carry the one id value that would leave no room for a next id, is
    /// rejected as corrupt.
    pub fn load(data: Option<&Vec<u8>>) -> (r: Result<TaskStore, CodecError>)
        ensures
            match data {
                None => r matches Ok(s) && s@ == Seq::<TaskView>::empty() && s.spec_next_id()
                    == 1,
                Some(bytes) => match spec_decode(bytes@) {
                    Err(e) => r == Err::<TaskStore, CodecError>(e),
                    Ok(views) => if unique_ids(views) && ids_below(views, u64::MAX) {
                        r matches Ok(s) && s@ == views
                    } else {
                        r == Err::<TaskStore, CodecError>(CodecError::CorruptState)
                    },
                },
            },
    {
        let bytes = match data {
            None => {
                return Ok(TaskStore::new());
            },
            Some(b) => b,
        };
        let tasks = match decode(bytes) {
            Err(e) => {
                return Err(e);
            },
            Ok(ts) => ts,
        };
        let ghost views = views_of(tasks@);
        let n = tasks.len();
        let mut max_id: u64 = 0;
        let mut i: usize = 0;
        while i < n
            invariant
                i <= n,
                n == tasks@.len(),
                views == views_of(tasks@),
                data == Some(bytes),
                spec_decode(bytes@) == Ok::<Seq<TaskView>, CodecError>(views),
                max_id < u64::MAX,
                forall|k: int| 0 <= k < i ==> (#[trigger] views[k]).id < u64::MAX,
                forall|k: int| 0 <= k < i ==> (#[trigger] views[k]).id <= max_id,
                forall|k: int, m: int|
                    0 <= k < m < i ==> (#[trigger] views[k]).id != (#[trigger] views[m]).id,
            decreases n - i,
        {
            let id = tasks[i].id;
            if id == u64::MAX {
                proof {
                    assert(views[i as int].id == u64::MAX);
                    assert(!ids_below(views, u64::MAX));
                }
                return Err(CodecError::CorruptState);
            }
            let mut j: usize = 0;
            while j < i
                invariant
                    j <= i,
                    i < n,
                    n == tasks@.len(),
                    views == views_of(tasks@),
                    data == Some(bytes),
                    spec_decode(bytes@) == Ok::<Seq<TaskView>, CodecError>(views),
                    id == views[i as int].id,
                    forall|k: int| 0 <= k < j ==> (#[trigger] views[k]).id != id,
                decreases i - j,
            {
                if tasks[j].id == id {
                    proof {
                        assert(views[j as int].id == views[i as int].id);
                        assert(!unique_ids(views));
                    }
                    return Err(CodecError::CorruptState);
                }
                j = j + 1;
            }
            if id > max_id {
                max_id = id;
            }
            i = i + 1;
        }
        let s = TaskStore { tasks, next_id: max_id + 1 };
        proof {
            assert(s@ == views);
        }
        Ok(s)
    }
}

fn find_index(tasks: &Vec<Task>, id: u64) -> (r: Option<usize>)
    ensures
        match r {
            Some(i) => i < tasks@.len() && views_of(tasks@)[i as int].id == id,
            None => !contains_id(views_of(tasks@), id),
        },
{
    let n = tasks.len();
    let mut i: usize = 0;
    while i < n
        invariant
            i <= n,
            n == tasks@.len(),
            forall|k: int| 0 <= k < i ==> (#[trigger] views_of(tasks@)[k]).id != id,
        decreases n - i,
    {
        if tasks[i].id == id {
            return Some(i);
        }
        i = i + 1;
    }
    None
}

/// An add followed immediately by a list shows exactly one more task than
/// before, the new one last and Pending, with every earlier task untouched:
/// this is what `TaskStore::add` ensures of the collection that
/// `TaskStore::list` returns.
pub proof fn lemma_add_then_list(pre: Seq<TaskView>, post: Seq<TaskView>, t: TaskView)
    requires
        post == pre.push(t),
        t.status == Status::Pending,
    ensures
        post.len() == pre.len() + 1,
        post[post.len() - 1].status == Status::Pending,
        forall|i: int| 0 <= i < pre.len() ==> post[i] == pre[i],
{
}

/// Appending a task whose id exceeds every id already present keeps the
/// collection's ids unique: together with the contract of `TaskStore::add`,
/// ids handed out by successive adds are strictly increasing, so no sequence
/// of adds ever repeats an id within a session.
pub proof fn lemma_fresh_id_keeps_ids_unique(ts: Seq<TaskView>, t: TaskView)
    requires
        unique_ids(ts),
        forall|i: int| 0 <= i < ts.len() ==> (#[trigger] ts[i]).id < t.id,
    ensures
        unique_ids(ts.push(t)),
{
    assert forall|i: int, j: int| 0 <= i < j < ts.push(t).len() implies (
    #[trigger] ts.push(t)[i]).id != (#[trigger] ts.push(t)[j]).id by {
        if j < ts.len() {
            assert(ts.push(t)[i] == ts[i]);
            assert(ts.push(t)[j] == ts[j]);
        } else {
            assert(ts.push(t)[i] == ts[i]);
            assert(ts.push(t)[j] == t);
        }
    }
}

} // verus!
