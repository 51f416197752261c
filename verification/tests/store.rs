use task_store::store::{StoreError, TaskStore};
use task_store::task::{Status, Task};

#[test]
fn add_assigns_sequential_unique_ids() {
    let mut s = TaskStore::new();
    let a = s.add(String::from("first"));
    let b = s.add(String::from("second"));
    let c = s.add(String::from("third"));
    assert_eq!(a.id, 1);
    assert_eq!(b.id, 2);
    assert_eq!(c.id, 3);
    assert!(a.id < b.id && b.id < c.id);
}

#[test]
fn add_grows_list_by_one_with_pending_status() {
    let mut s = TaskStore::new();
    s.add(String::from("first"));
    let before = s.list().clone();
    let t = s.add(String::from("second"));
    let after = s.list();
    assert_eq!(after.len(), before.len() + 1);
    assert_eq!(t.status, Status::Pending);
    assert_eq!(after[after.len() - 1], t);
    for i in 0..before.len() {
        assert_eq!(after[i], before[i]);
    }
}

#[test]
fn update_status_changes_only_that_task() {
    let mut s = TaskStore::new();
    s.add(String::from("one"));
    s.add(String::from("two"));
    s.add(String::from("three"));
    let before = s.list().clone();
    let r = s.update_status(2, Status::InProgress);
    assert_eq!(r, Ok(()));
    let after = s.list();
    assert_eq!(after.len(), 3);
    assert_eq!(after[0], before[0]);
    assert_eq!(after[2], before[2]);
    assert_eq!(after[1].id, 2);
    assert_eq!(after[1].title, before[1].title);
    assert_eq!(after[1].status, Status::InProgress);
}

#[test]
fn update_status_missing_id_leaves_store_unchanged() {
    let mut s = TaskStore::new();
    s.add(String::from("one"));
    s.add(String::from("two"));
    let before = s.list().clone();
    let r = s.update_status(9, Status::Completed);
    assert_eq!(r, Err(StoreError::TaskNotFound(9)));
    assert_eq!(s.list(), &before);
}

#[test]
fn delete_removes_exactly_one_and_keeps_order() {
    let mut s = TaskStore::new();
    s.add(String::from("one"));
    s.add(String::from("two"));
    s.add(String::from("three"));
    let r = s.delete(2);
    assert_eq!(r, Ok(()));
    let after = s.list();
    assert_eq!(after.len(), 2);
    assert_eq!(after[0].id, 1);
    assert_eq!(after[0].title, "one");
    assert_eq!(after[1].id, 3);
    assert_eq!(after[1].title, "three");
}

#[test]
fn delete_missing_id_leaves_length_unchanged() {
    let mut s = TaskStore::new();
    s.add(String::from("one"));
    let r = s.delete(7);
    assert_eq!(r, Err(StoreError::TaskNotFound(7)));
    assert_eq!(s.len(), 1);
}

#[test]
fn deleted_ids_are_never_reused() {
    let mut s = TaskStore::new();
    s.add(String::from("one"));
    let b = s.add(String::from("two"));
    s.delete(b.id).unwrap();
    let c = s.add(String::from("three"));
    assert_eq!(c.id, 3);
}

#[test]
fn load_missing_data_gives_empty_store() {
    let s = TaskStore::load(None).unwrap();
    assert_eq!(s.len(), 0);
    assert!(s.list().is_empty());
}

#[test]
fn save_then_load_empty_store() {
    let s = TaskStore::new();
    let bytes = s.save_bytes();
    let s2 = TaskStore::load(Some(&bytes)).unwrap();
    assert!(s2.list().is_empty());
}

#[test]
fn save_then_load_keeps_every_field() {
    let mut s = TaskStore::new();
    s.add(String::from(""));
    s.add(String::from("héllo wörld ✓"));
    s.add(String::from("plain"));
    s.update_status(2, Status::Completed).unwrap();
    let bytes = s.save_bytes();
    let s2 = TaskStore::load(Some(&bytes)).unwrap();
    assert_eq!(s2.list(), s.list());
}

#[test]
fn load_rejects_duplicate_ids() {
    let tasks = vec![
        Task { id: 4, title: String::from("a"), status: Status::Pending },
        Task { id: 4, title: String::from("b"), status: Status::Pending },
    ];
    let bytes = task_store::codec::encode(&tasks);
    let r = TaskStore::load(Some(&bytes));
    assert!(matches!(r, Err(task_store::codec::CodecError::CorruptState)));
}

#[test]
fn load_rejects_id_at_ceiling() {
    let tasks = vec![Task { id: u64::MAX, title: String::from("a"), status: Status::Pending }];
    let bytes = task_store::codec::encode(&tasks);
    let r = TaskStore::load(Some(&bytes));
    assert!(matches!(r, Err(task_store::codec::CodecError::CorruptState)));
}

#[test]
fn load_continues_ids_above_highest() {
    let mut s = TaskStore::new();
    s.add(String::from("one"));
    s.add(String::from("two"));
    s.delete(1).unwrap();
    let bytes = s.save_bytes();
    let mut s2 = TaskStore::load(Some(&bytes)).unwrap();
    let t = s2.add(String::from("three"));
    assert_eq!(t.id, 3);
}

#[test]
fn add_task_starts_pending() {
    let t = task_store::task::add_task(String::from("anything"), 42);
    assert_eq!(t.id, 42);
    assert_eq!(t.title, "anything");
    assert_eq!(t.status, Status::Pending);
}

#[test]
fn scenario_add_update_delete_save_load() {
    let mut s = TaskStore::new();
    let a = s.add(String::from("Buy milk"));
    assert_eq!(a.id, 1);
    assert_eq!(a.status, Status::Pending);
    let b = s.add(String::from("Write report"));
    assert_eq!(b.id, 2);
    s.update_status(1, Status::Completed).unwrap();
    assert_eq!(s.list()[0].status, Status::Completed);
    assert_eq!(s.list()[1].status, Status::Pending);
    assert_eq!(s.list()[1].title, "Write report");
    s.delete(2).unwrap();
    assert_eq!(s.len(), 1);
    assert_eq!(s.list()[0].id, 1);
    let bytes = s.save_bytes();
    let s2 = TaskStore::load(Some(&bytes)).unwrap();
    assert_eq!(s2.len(), 1);
    assert_eq!(s2.list()[0].id, 1);
    assert_eq!(s2.list()[0].title, "Buy milk");
    assert_eq!(s2.list()[0].status, Status::Completed);
}
