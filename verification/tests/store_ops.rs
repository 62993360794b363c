use todo_list::store::{storage_index_of_display, StoreError, TaskStore};
use todo_list::task::Task;

#[test]
fn scenario_add_to_empty() {
    let mut s = TaskStore::new();
    assert_eq!(s.len(), 0);
    let r = s.add(String::from("Buy milk"));
    assert_eq!(r, Ok(()));
    assert_eq!(s.len(), 1);
    assert_eq!(s.list()[0].name, "Buy milk");
    assert_eq!(s.list()[0].completed, false);
}

#[test]
fn add_appends_at_end() {
    let mut s = TaskStore::new();
    s.add(String::from("Buy milk")).unwrap();
    s.add(String::from("Walk dog")).unwrap();
    assert_eq!(s.len(), 2);
    assert_eq!(s.list()[0].name, "Buy milk");
    assert_eq!(s.list()[1].name, "Walk dog");
    assert_eq!(s.list()[1].completed, false);
}

#[test]
fn add_empty_name_rejected() {
    let mut s = TaskStore::new();
    let r = s.add(String::new());
    assert_eq!(r, Err(StoreError::EmptyNameRejected));
    assert_eq!(s.len(), 0);
    s.add(String::from("Walk dog")).unwrap();
    let r2 = s.add(String::new());
    assert_eq!(r2, Err(StoreError::EmptyNameRejected));
    assert_eq!(s.len(), 1);
    assert_eq!(s.list()[0].name, "Walk dog");
}

#[test]
fn toggle_flips_exactly_one() {
    let mut s = TaskStore::new();
    s.add(String::from("Buy milk")).unwrap();
    s.add(String::from("Walk dog")).unwrap();
    let r = s.toggle(0);
    assert_eq!(r, Ok(()));
    assert_eq!(s.list()[0].name, "Buy milk");
    assert_eq!(s.list()[0].completed, true);
    assert_eq!(s.list()[1].name, "Walk dog");
    assert_eq!(s.list()[1].completed, false);
}

#[test]
fn toggle_twice_restores() {
    let mut s = TaskStore::new();
    s.add(String::from("Buy milk")).unwrap();
    s.toggle(0).unwrap();
    s.toggle(0).unwrap();
    assert_eq!(s.list()[0].completed, false);
}

#[test]
fn toggle_out_of_range() {
    let mut s = TaskStore::new();
    s.add(String::from("Buy milk")).unwrap();
    let r = s.toggle(1);
    assert_eq!(r, Err(StoreError::IndexOutOfRange));
    assert_eq!(s.len(), 1);
    assert_eq!(s.list()[0].completed, false);
}

#[test]
fn prune_removes_all_and_only_completed() {
    let mut s = TaskStore::new();
    s.add(String::from("a")).unwrap();
    s.add(String::from("b")).unwrap();
    s.add(String::from("c")).unwrap();
    s.add(String::from("d")).unwrap();
    s.toggle(1).unwrap();
    s.toggle(3).unwrap();
    s.prune_completed();
    assert_eq!(s.len(), 2);
    assert_eq!(s.list()[0].name, "a");
    assert_eq!(s.list()[1].name, "c");
    assert_eq!(s.list()[0].completed, false);
    assert_eq!(s.list()[1].completed, false);
}

#[test]
fn prune_is_idempotent() {
    let mut s = TaskStore::new();
    s.add(String::from("a")).unwrap();
    s.add(String::from("b")).unwrap();
    s.toggle(0).unwrap();
    s.prune_completed();
    s.prune_completed();
    assert_eq!(s.len(), 1);
    assert_eq!(s.list()[0].name, "b");
}

#[test]
fn prune_all_completed_empties_list() {
    let mut s = TaskStore::new();
    s.add(String::from("a")).unwrap();
    s.toggle(0).unwrap();
    s.prune_completed();
    assert_eq!(s.len(), 0);
}

#[test]
fn submit_consumes_buffer() {
    let mut s = TaskStore::new();
    let mut buffer = String::from("Buy milk");
    let r = s.submit(&mut buffer);
    assert_eq!(r, Ok(()));
    assert_eq!(buffer, "");
    assert_eq!(s.len(), 1);
    assert_eq!(s.list()[0].name, "Buy milk");
}

#[test]
fn submit_empty_buffer_rejected() {
    let mut s = TaskStore::new();
    let mut buffer = String::new();
    let r = s.submit(&mut buffer);
    assert_eq!(r, Err(StoreError::EmptyNameRejected));
    assert_eq!(buffer, "");
    assert_eq!(s.len(), 0);
}

#[test]
fn task_new_is_incomplete() {
    let t = Task::new(String::from("Walk dog"));
    assert_eq!(t.name, "Walk dog");
    assert_eq!(t.completed, false);
}

#[test]
fn duplicate_names_kept_by_position() {
    let mut s = TaskStore::new();
    s.add(String::from("x")).unwrap();
    s.add(String::from("x")).unwrap();
    s.toggle(1).unwrap();
    assert_eq!(s.list()[0].completed, false);
    assert_eq!(s.list()[1].completed, true);
}

#[test]
fn display_index_maps_to_storage_index() {
    assert_eq!(storage_index_of_display(0, 3), 2);
    assert_eq!(storage_index_of_display(2, 3), 0);
    assert_eq!(storage_index_of_display(0, 1), 0);
}
