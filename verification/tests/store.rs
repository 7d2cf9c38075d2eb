use doublets::constants::{LinksConstants, Range};
use doublets::data::{Error, Link};
use doublets::handler::{Limited, ReadFn, Scripted, WriteFn};
use doublets::platform::link::Flow;
use doublets::traits::{Doublets, DoubletsExt, Links};
use doublets::unit::Store;

fn abc() -> (Store, u64, u64, u64) {
    let mut store = Store::new();
    let a = store.create_point().unwrap();
    let b = store.create_point().unwrap();
    let c = store.create_link(a, b).unwrap();
    (store, a, b, c)
}

#[test]
fn create_gives_lowest_free_index() {
    let mut store = Store::new();
    assert_eq!(store.create().unwrap(), 1);
    assert_eq!(store.create().unwrap(), 2);
    assert_eq!(store.create().unwrap(), 3);
    assert_eq!(store.delete(2).unwrap(), 0);
    assert_eq!(store.create().unwrap(), 2);
    assert_eq!(store.count(), 3);
    assert_eq!(store.get_link(2), Some(Link::new(2, 0, 0)));
}

#[test]
fn create_reports_null_then_new_link() {
    let mut store = Store::new();
    let mut log = Scripted::recording();
    let flow = store.create_with(&mut log).unwrap();
    assert_eq!(flow, Flow::Continue);
    assert_eq!(log.seen(), vec![(Link::nothing(), Link::new(1, 0, 0))]);
}

#[test]
fn point_and_link() {
    let (store, a, b, c) = abc();
    assert_eq!((a, b, c), (1, 2, 3));
    assert_eq!(store.get_link(a), Some(Link::point(1)));
    assert_eq!(store.get_link(c), Some(Link::new(3, 1, 2)));
    assert_eq!(store.iter(), vec![Link::point(1), Link::point(2), Link::new(3, 1, 2)]);
}

#[test]
fn create_link_with_reports_both_changes() {
    let mut store = Store::new();
    let mut log = Scripted::recording();
    store.create_link_with(5, 6, &mut log).unwrap();
    assert_eq!(log.seen(), vec![(Link::nothing(), Link::new(1, 0, 0)), (Link::new(1, 0, 0), Link::new(1, 5, 6))]);
    let mut stopping = Scripted::new(vec![Flow::Break]);
    let flow = store.create_link_with(7, 8, &mut stopping).unwrap();
    assert_eq!(flow, Flow::Break);
    assert_eq!(stopping.seen().len(), 1);
    assert_eq!(store.get_link(2), Some(Link::new(2, 7, 8)));
}

#[test]
fn update_and_errors() {
    let (mut store, a, b, c) = abc();
    assert_eq!(store.update(c, b, a).unwrap(), c);
    assert_eq!(store.get_link(c), Some(Link::new(3, 2, 1)));
    assert!(matches!(store.update(9, 1, 1), Err(Error::NotExists(9))));
    assert!(matches!(store.delete(9), Err(Error::NotExists(9))));
    assert!(matches!(store.try_get_link(9), Err(Error::NotExists(9))));
    assert_eq!(store.try_get_link(a).ok(), Some(Link::point(1)));
}

#[test]
fn count_queries() {
    let (store, a, b, _c) = abc();
    let any = store.constants().any;
    assert_eq!(store.count_by(&[]), 3);
    assert_eq!(store.count_by(&[any]), 3);
    assert_eq!(store.count_by(&[a]), 1);
    assert_eq!(store.count_by(&[any, a, any]), 2);
    assert_eq!(store.count_by(&[any, any, b]), 2);
    assert_eq!(store.count_by(&[any, a]), 2);
    assert_eq!(store.count_by(&[any, a, b]), 1);
    assert!(store.found(&[any, a, b]));
    assert!(!store.found(&[any, b, a]));
}

#[test]
fn search_find_single() {
    let (mut store, a, b, c) = abc();
    let any = store.constants().any;
    assert_eq!(store.search(a, b), Some(c));
    assert_eq!(store.search(b, a), None);
    assert_eq!(store.search_or(b, a, 42), 42);
    assert_eq!(store.find(&[any, a, any]), Some(Link::point(1)));
    assert_eq!(store.single(&[any, a, b]), Some(Link::new(3, 1, 2)));
    assert_eq!(store.single(&[any, a, any]), None);
    assert_eq!(store.single(&[any, b, a]), None);
    assert_eq!(store.get_or_create(a, b).unwrap(), c);
    assert_eq!(store.get_or_create(b, a).unwrap(), 4);
}

#[test]
fn each_stops_on_break() {
    let (store, _a, _b, _c) = abc();
    let mut visit = Limited::new(2);
    assert_eq!(store.each(&mut visit), Flow::Break);
    assert_eq!(visit.seen(), vec![Link::point(1), Link::point(2)]);
    let mut all = Limited::new(10);
    assert_eq!(store.each_by(&[], &mut all), Flow::Continue);
    assert_eq!(all.seen().len(), 3);
}

#[test]
fn existence() {
    let (store, a, _b, _c) = abc();
    assert!(store.exist(a));
    assert!(!store.exist(9));
    assert!(!store.exist(0));
    assert!(!store.exist(store.constants().any));
}

#[test]
fn usages_counting() {
    let (mut store, a, b, c) = abc();
    assert_eq!(store.count_usages(a).unwrap(), 1);
    assert_eq!(store.count_usages(b).unwrap(), 1);
    assert_eq!(store.count_usages(c).unwrap(), 0);
    assert!(store.has_usages(a));
    assert!(!store.has_usages(c));
    assert!(!store.has_usages(9));
    let d = store.create_link(a, a).unwrap();
    assert_eq!(store.count_usages(a).unwrap(), 3);
    assert_eq!(store.usages(a).unwrap(), vec![c, d, d]);
    assert!(matches!(store.count_usages(9), Err(Error::NotExists(9))));
}

#[test]
fn delete_all_dense_and_sparse() {
    let (mut store, _a, _b, _c) = abc();
    assert!(store.delete_all().is_ok());
    assert_eq!(store.count(), 0);
    let mut sparse = Store::new();
    sparse.create().unwrap();
    sparse.create().unwrap();
    sparse.create().unwrap();
    sparse.delete(1).unwrap();
    assert!(matches!(sparse.delete_all(), Err(Error::NotExists(1))));
    assert_eq!(sparse.count(), 1);
    assert_eq!(sparse.get_link(2), None);
    assert_eq!(sparse.get_link(3), Some(Link::new(3, 0, 0)));
}

#[test]
fn delete_query_removes_matches_from_the_top() {
    let (mut store, a, _b, c) = abc();
    let any = store.constants().any;
    let mut log = Scripted::recording();
    store.delete_query_with(&[any, a, any], &mut log).unwrap();
    assert_eq!(log.seen(), vec![(Link::new(c, 1, 2), Link::nothing()), (Link::point(1), Link::nothing())]);
    assert_eq!(store.iter(), vec![Link::point(2)]);
}

#[test]
fn delete_usages_removes_users() {
    let (mut store, a, b, c) = abc();
    store.delete_usages(a).unwrap();
    assert_eq!(store.iter(), vec![Link::point(a), Link::point(b)]);
    let d = store.create_link(a, a).unwrap();
    assert_eq!(d, c);
    assert!(matches!(store.delete_usages(a), Err(Error::NotExists(3))));
    assert_eq!(store.count(), 2);
}

#[test]
fn rebase_moves_references() {
    let (mut store, a, b, c) = abc();
    let d = store.create_link(c, a).unwrap();
    assert_eq!(store.rebase(a, b).unwrap(), b);
    assert_eq!(store.get_link(c), Some(Link::new(c, b, b)));
    assert_eq!(store.get_link(d), Some(Link::new(d, c, b)));
    assert_eq!(store.get_link(a), Some(Link::point(a)));
    assert!(matches!(store.rebase(9, a), Err(Error::NotExists(9))));
}

#[test]
fn rebase_of_a_double_reference_moves_both() {
    let mut store = Store::new();
    let a = store.create_point().unwrap();
    let b = store.create_point().unwrap();
    let l = store.create_link(a, a).unwrap();
    store.rebase(a, b).unwrap();
    assert_eq!(store.get_link(l), Some(Link::new(l, b, b)));
}

#[test]
fn rebase_and_delete_removes_old() {
    let (mut store, a, b, c) = abc();
    assert_eq!(store.rebase_and_delete(a, a).unwrap(), a);
    assert_eq!(store.rebase_and_delete(a, b).unwrap(), 0);
    assert_eq!(store.get_link(a), None);
    assert_eq!(store.get_link(c), Some(Link::new(c, b, b)));
}

#[test]
fn readme_example() {
    let mut store = Store::new();
    let point = store.create_link(1, 1).unwrap();
    assert_eq!(point, 1);
    let any = store.constants().any;
    assert_eq!(store.each_iter(&[any, any, any]), vec![Link::point(1)]);
    let mut log = Scripted::recording();
    assert_eq!(store.delete_with(point, &mut log).unwrap(), Flow::Continue);
    assert_eq!(log.seen(), vec![(Link::point(1), Link::nothing())]);
    assert_eq!(store.count(), 0);
}

#[test]
fn delete_undoes_create() {
    let (mut store, _a, _b, _c) = abc();
    let before = store.iter();
    let d = store.create().unwrap();
    assert_eq!(store.get_link(d), Some(Link::new(d, 0, 0)));
    store.delete(d).unwrap();
    assert_eq!(store.iter(), before);
}

#[test]
fn update_back_restores() {
    let (mut store, a, b, c) = abc();
    let before = store.iter();
    store.update(c, b, b).unwrap();
    assert_eq!(store.get_link(c), Some(Link::new(c, b, b)));
    assert_eq!(store.get_link(a), Some(Link::point(a)));
    store.update(c, a, b).unwrap();
    assert_eq!(store.iter(), before);
}

#[test]
fn refused_calls_change_nothing() {
    let (mut store, _a, _b, _c) = abc();
    let before = store.iter();
    let mut log = Scripted::recording();
    assert!(store.update_with(9, 1, 1, &mut log).is_err());
    assert!(store.delete_with(9, &mut log).is_err());
    assert!(log.seen().is_empty());
    assert_eq!(store.iter(), before);
}

#[test]
fn rebase_leaves_no_target_on_old() {
    let (mut store, a, b, c) = abc();
    let d = store.create_link(b, a).unwrap();
    store.rebase(a, b).unwrap();
    for link in store.iter() {
        if link.index != a {
            assert_ne!(link.target, a);
            assert_ne!(link.source, a);
        }
    }
    assert_eq!(store.get_link(c), Some(Link::new(c, b, b)));
    assert_eq!(store.get_link(d), Some(Link::new(d, b, b)));
}

#[test]
fn small_iteration_matches_vector_iteration() {
    let (mut store, a, b, c) = abc();
    let any = store.constants().any;
    assert_eq!(store.iter_small().to_vec(), store.iter());
    assert_eq!(store.each_iter_small(&[any, a, any]).to_vec(), vec![Link::point(a), Link::new(c, a, b)]);
    store.create_link(b, a).unwrap();
    assert_eq!(store.iter_small().to_vec().len(), 4);
}

#[test]
fn closures_as_handlers() {
    let (mut store, a, b, c) = abc();
    let seen = std::cell::RefCell::new(Vec::new());
    let mut read = ReadFn::new(|link: Link| {
        seen.borrow_mut().push(link);
        if link.index == b { Flow::Break } else { Flow::Continue }
    });
    assert_eq!(store.each(&mut read), Flow::Break);
    assert_eq!(*seen.borrow(), vec![Link::point(a), Link::point(b)]);
    let changes = std::cell::RefCell::new(Vec::new());
    let mut write = WriteFn::new(|before: Link, after: Link| {
        changes.borrow_mut().push((before, after));
        Flow::Break
    });
    assert_eq!(store.update_with(c, b, a, &mut write).unwrap(), Flow::Break);
    assert_eq!(*changes.borrow(), vec![(Link::new(c, a, b), Link::new(c, b, a))]);
}

#[test]
fn rebase_reports_each_update() {
    let (mut store, a, b, c) = abc();
    let d = store.create_link(c, a).unwrap();
    let l = store.create_link(a, a).unwrap();
    let mut log = Scripted::recording();
    store.rebase_with(a, b, &mut log).unwrap();
    assert_eq!(
        log.seen(),
        vec![
            (Link::new(c, a, b), Link::new(c, b, b)),
            (Link::new(l, a, a), Link::new(l, b, a)),
            (Link::new(l, b, a), Link::new(l, b, b)),
            (Link::new(d, c, a), Link::new(d, c, b)),
            (Link::new(l, b, b), Link::new(l, b, a)),
            (Link::new(l, b, a), Link::new(l, b, b)),
        ]
    );
    assert_eq!(store.get_link(l), Some(Link::new(l, b, b)));
}

#[test]
fn create_fails_once_the_internal_range_is_taken() {
    let constants = LinksConstants::full_new(2, Range::new(1, 8), None);
    let mut store = Store::with_constants(constants);
    assert_eq!(store.create().unwrap(), 1);
    assert_eq!(store.create().unwrap(), 2);
    assert!(matches!(store.create(), Err(Error::LimitReached(2))));
    assert_eq!(store.count(), 2);
    assert_eq!(store.delete(1).unwrap(), 0);
    assert_eq!(store.create().unwrap(), 1);
}
