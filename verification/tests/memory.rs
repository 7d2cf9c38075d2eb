use doublets::memory::MemoryDoublets;

type Write = fn(&[u64], &[u64]) -> u64;
type Read = fn(&[u64]) -> bool;

#[test]
fn test_memory_doublets_basic_operations() {
    let mut doublets = MemoryDoublets::new();

    let count = doublets.count(None);
    assert_eq!(count, 0);

    let link_id = doublets.create::<Write>(Some(&[2, 3]), None);
    assert_eq!(link_id, 1);

    let count = doublets.count(None);
    assert_eq!(count, 1);

    let link_id2 = doublets.create::<Write>(Some(&[4, 5]), None);
    assert_eq!(link_id2, 2);

    let visited = std::cell::RefCell::new(Vec::new());
    let handler = |link: &[u64]| -> bool {
        visited.borrow_mut().push(link.to_vec());
        true
    };
    let processed = doublets.each(None, Some(&handler));
    assert_eq!(processed, 2);
    assert_eq!(*visited.borrow(), vec![vec![1, 2, 3], vec![2, 4, 5]]);

    let updated = doublets.update::<Write>(Some(&[1]), Some(&[6, 7]), None);
    assert_eq!(updated, 1);

    let deleted = doublets.delete::<Write>(Some(&[2]), None);
    assert_eq!(deleted, 1);

    let final_count = doublets.count(None);
    assert_eq!(final_count, 1);
}

#[test]
fn memory_count_by_restriction() {
    let mut doublets = MemoryDoublets::new();
    doublets.create::<Write>(Some(&[2, 3]), None);
    doublets.create::<Write>(Some(&[2, 3]), None);
    doublets.create::<Write>(Some(&[7]), None);
    assert_eq!(doublets.count(Some(&[])), 3);
    assert_eq!(doublets.count(Some(&[2])), 1);
    assert_eq!(doublets.count(Some(&[2, 3])), 2);
    assert_eq!(doublets.count(Some(&[3, 7, 7])), 1);
    assert_eq!(doublets.count(Some(&[3, 7, 8])), 0);
    assert_eq!(doublets.count(Some(&[1, 2, 3, 4])), 0);
}

#[test]
fn memory_create_shapes() {
    let mut doublets = MemoryDoublets::new();
    doublets.create::<Write>(Some(&[9]), None);
    doublets.create::<Write>(None, None);
    doublets.create::<Write>(Some(&[1, 2, 3]), None);
    let seen = std::cell::RefCell::new(Vec::new());
    let handler = |link: &[u64]| -> bool {
        seen.borrow_mut().push(link.to_vec());
        true
    };
    doublets.each(Some(&[]), Some(&handler));
    assert_eq!(*seen.borrow(), vec![vec![1, 9, 9], vec![2, 0, 0], vec![3, 0, 0]]);
}

#[test]
fn memory_each_stops_when_handler_refuses() {
    let mut doublets = MemoryDoublets::new();
    for _ in 0..5 {
        doublets.create::<Write>(Some(&[1, 1]), None);
    }
    let calls = std::cell::Cell::new(0);
    let handler = |link: &[u64]| -> bool {
        calls.set(calls.get() + 1);
        link[0] < 3
    };
    let processed = doublets.each(Some(&[1, 1]), Some(&handler));
    assert_eq!(processed, 2);
    assert_eq!(calls.get(), 3);
    assert_eq!(doublets.each::<Read>(Some(&[1, 1]), None), 5);
}

#[test]
fn memory_update_whole_link_and_handler_reports() {
    let mut doublets = MemoryDoublets::new();
    doublets.create::<Write>(Some(&[2, 3]), None);
    doublets.create::<Write>(Some(&[2, 3]), None);
    let reports = std::cell::RefCell::new(Vec::new());
    let handler = |before: &[u64], after: &[u64]| -> u64 {
        reports.borrow_mut().push((before.to_vec(), after.to_vec()));
        0
    };
    let updated = doublets.update(Some(&[2, 3]), Some(&[5, 6, 7]), Some(&handler));
    assert_eq!(updated, 2);
    assert_eq!(reports.borrow().len(), 2);
    assert_eq!(reports.borrow()[0], (vec![1, 2, 3], vec![5, 6, 7]));
    assert_eq!(doublets.count(Some(&[5])), 2);
    assert_eq!(doublets.update::<Write>(None, Some(&[1, 1]), None), 0);
    assert_eq!(doublets.update::<Write>(Some(&[5]), Some(&[1, 2, 3, 4]), None), 2);
    assert_eq!(doublets.count(Some(&[5, 6, 7])), 2);
}

#[test]
fn memory_delete_reports_and_keeps_order() {
    let mut doublets = MemoryDoublets::new();
    doublets.create::<Write>(Some(&[1, 1]), None);
    doublets.create::<Write>(Some(&[2, 2]), None);
    doublets.create::<Write>(Some(&[1, 1]), None);
    let reports = std::cell::RefCell::new(Vec::new());
    let handler = |before: &[u64], after: &[u64]| -> u64 {
        reports.borrow_mut().push((before.to_vec(), after.to_vec()));
        0
    };
    assert_eq!(doublets.delete(Some(&[1, 1]), Some(&handler)), 2);
    assert_eq!(*reports.borrow(), vec![(vec![1, 1, 1], vec![]), (vec![3, 1, 1], vec![])]);
    assert_eq!(doublets.count(None), 1);
    assert_eq!(doublets.delete::<Write>(None, None), 0);
    assert_eq!(doublets.create::<Write>(None, None), 4);
}

#[test]
fn memory_write_handlers_see_each_change() {
    let mut doublets = MemoryDoublets::new();
    let seen = std::cell::RefCell::new(Vec::new());
    let handler = |before: &[u64], after: &[u64]| -> u64 {
        seen.borrow_mut().push((before.to_vec(), after.to_vec()));
        0
    };
    doublets.create(Some(&[2, 3]), Some(&handler));
    doublets.create(Some(&[4]), Some(&handler));
    assert_eq!(doublets.update(Some(&[2, 3]), Some(&[5, 6]), Some(&handler)), 1);
    assert_eq!(doublets.delete(Some(&[2]), Some(&handler)), 1);
    assert_eq!(
        *seen.borrow(),
        vec![
            (vec![], vec![1, 2, 3]),
            (vec![], vec![2, 4, 4]),
            (vec![1, 2, 3], vec![1, 5, 6]),
            (vec![2, 4, 4], vec![]),
        ]
    );
}
