use doublets::data::{Doublet, Error, Link};
use doublets::constants::LinksConstants;
use doublets::decorators::helpers::{ensure_created, merge_usages, resolve_constant_as_self_reference};
use doublets::decorators::logging::{format_line, format_link, LineLogger, Mutation};
use doublets::decorators::policy::{CascadeResolve, DecoratorsExt, Resolve, Validate};
use doublets::decorators::usages::CascadeUsagesResolver;
use doublets::handler::{Limited, Scripted};
use doublets::platform::link::Flow;
use doublets::traits::{Doublets, DoubletsExt};
use doublets::unit::Store;

fn chain() -> (Store, u64, u64, u64, u64, u64) {
    let mut store = Store::new();
    let a = store.create_point().unwrap();
    let b = store.create_point().unwrap();
    let c = store.create_link(a, b).unwrap();
    let d = store.create_link(c, a).unwrap();
    let e = store.create_link(b, b).unwrap();
    (store, a, b, c, d, e)
}

#[test]
fn cascade_deletes_every_link_that_reaches_the_target() {
    let (store, a, b, c, d, e) = chain();
    let mut cascade = CascadeUsagesResolver::new(store);
    let mut log = Scripted::recording();
    let flow = cascade.delete_links(&[a], &mut log).unwrap();
    assert_eq!(flow, Flow::Continue);
    assert_eq!(
        log.seen(),
        vec![
            (Link::new(d, c, a), Link::nothing()),
            (Link::new(c, a, b), Link::nothing()),
            (Link::point(a), Link::nothing()),
        ]
    );
    let store = cascade.into_inner();
    assert_eq!(store.iter(), vec![Link::point(b), Link::new(e, b, b)]);
}

#[test]
fn cascade_follows_a_cycle_once() {
    let mut store = Store::new();
    let x = store.create().unwrap();
    let y = store.create().unwrap();
    store.update(x, y, y).unwrap();
    store.update(y, x, x).unwrap();
    let z = store.create_point().unwrap();
    let mut cascade = store.with_usages(CascadeResolve);
    let mut log = Scripted::recording();
    cascade.delete_links(&[x], &mut log).unwrap();
    assert_eq!(log.seen().len(), 2);
    assert_eq!(cascade.into_inner().iter(), vec![Link::point(z)]);
}

#[test]
fn cascade_of_a_missing_link_deletes_its_users_then_fails() {
    let mut store = Store::new();
    let a = store.create().unwrap();
    store.update(a, 9, 9).unwrap();
    let mut cascade = store.with_cascade_usages_resolution();
    let mut log = Scripted::recording();
    assert!(matches!(cascade.delete_links(&[9], &mut log), Err(Error::NotExists(9))));
    assert_eq!(log.seen(), vec![(Link::new(a, 9, 9), Link::nothing())]);
    assert_eq!(cascade.count_links(&[]), 0);
}

#[test]
fn cascade_stops_reporting_after_break() {
    let (store, a, _b, _c, _d, _e) = chain();
    let mut cascade = CascadeUsagesResolver::new(store);
    let mut stop = Scripted::new(vec![Flow::Break]);
    let flow = cascade.delete_links(&[a], &mut stop).unwrap();
    assert_eq!(flow, Flow::Break);
    assert_eq!(stop.seen().len(), 1);
    assert_eq!(cascade.count_links(&[]), 2);
}

#[test]
fn usages_validator_refuses_used_links() {
    let (store, a, b, c, d, _e) = chain();
    let mut validator = store.with_usages_validation();
    let mut log = Scripted::recording();
    match validator.delete_links(&[a], &mut log) {
        Err(Error::HasUsages(users)) => assert_eq!(users, vec![Link::new(c, a, b), Link::new(d, c, a)]),
        _ => panic!("expected HasUsages"),
    }
    assert!(log.seen().is_empty());
    assert_eq!(validator.delete_links(&[d], &mut log).unwrap(), Flow::Continue);
    assert_eq!(validator.get_link(d), None);
}

#[test]
fn uniqueness_validator_refuses_duplicate_pairs() {
    let (store, a, b, _c, d, _e) = chain();
    let mut validator = store.with_uniqueness(Validate);
    let mut log = Scripted::recording();
    assert!(matches!(
        validator.update_links(&[d], &[d, a, b], &mut log),
        Err(Error::AlreadyExists(Doublet { source: 1, target: 2 }))
    ));
    assert_eq!(validator.update_links(&[d], &[d, b, a], &mut log).unwrap(), Flow::Continue);
    assert_eq!(validator.get_link(d), Some(Link::new(d, b, a)));
}

#[test]
fn uniqueness_resolver_reuses_the_existing_link() {
    let (store, a, b, c, d, _e) = chain();
    let mut resolver = store.with_uniqueness(Resolve);
    let mut log = Scripted::recording();
    resolver.update_links(&[d], &[d, a, b], &mut log).unwrap();
    assert_eq!(resolver.get_link(d), None);
    assert_eq!(resolver.get_link(c), Some(Link::new(c, a, b)));
    assert_eq!(
        log.seen(),
        vec![(Link::new(d, c, a), Link::nothing()), (Link::new(c, a, b), Link::new(c, a, b))]
    );
}

#[test]
fn link_text_matches_the_documented_format() {
    assert_eq!(format_link(&Link::new(0, 0, 0)), "(0->0)");
    assert_eq!(format_link(&Link::new(3, 1, 2)), "(3: 1->2)");
    assert_eq!(format_link(&Link::new(12, 340, 5678)), "(12: 340->5678)");
    assert_eq!(format_link(&Link::new(0, 18446744073709551615, 10)), "(18446744073709551615->10)");
    assert_eq!(
        format_line(Mutation::Create, &Link::nothing(), &Link::new(3, 0, 0)),
        "Create. Before: (0->0). After: (3: 0->0)"
    );
    assert_eq!(
        format_line(Mutation::Update, &Link::new(3, 0, 0), &Link::new(3, 1, 2)),
        "Update. Before: (3: 0->0). After: (3: 1->2)"
    );
    assert_eq!(
        format_line(Mutation::Delete, &Link::new(3, 1, 2), &Link::nothing()),
        "Delete. Before: (3: 1->2). After: (0->0)"
    );
}

#[test]
fn line_logger_logs_and_forwards() {
    let mut store = Store::new();
    store.create().unwrap();
    store.create().unwrap();
    let mut logger = LineLogger::new(Mutation::Create, Scripted::new(vec![Flow::Break]));
    store.create_with(&mut logger).unwrap();
    store.create_with(&mut logger).unwrap();
    let (lines, inner) = logger.into_parts();
    assert_eq!(
        lines,
        vec![
            "Create. Before: (0->0). After: (3: 0->0)".to_string(),
            "Create. Before: (0->0). After: (4: 0->0)".to_string(),
        ]
    );
    assert_eq!(inner.seen(), vec![(Link::nothing(), Link::new(3, 0, 0))]);
}

#[test]
fn merge_usages_repoints_every_user() {
    let (mut store, a, b, c, d, e) = chain();
    let l = store.create_link(a, a).unwrap();
    let mut log = Scripted::recording();
    assert_eq!(merge_usages(&mut store, a, b, &mut log).unwrap(), Flow::Continue);
    assert_eq!(
        log.seen(),
        vec![
            (Link::new(c, a, b), Link::new(c, b, b)),
            (Link::new(l, a, a), Link::new(l, b, b)),
            (Link::new(d, c, a), Link::new(d, c, b)),
        ]
    );
    assert_eq!(store.get_link(e), Some(Link::new(e, b, b)));
    assert_eq!(store.get_link(a), Some(Link::point(a)));
}

fn abc() -> (Store, u64, u64, u64) {
    let mut store = Store::new();
    let a = store.create_point().unwrap();
    let b = store.create_point().unwrap();
    let c = store.create_link(a, b).unwrap();
    (store, a, b, c)
}

#[test]
fn itself_constant_names_the_written_link() {
    let (store, a, b, c) = abc();
    let mut itself = store.with_itself_constant_resolution();
    let (any, me) = (itself.constants().any, itself.constants().itself);
    let mut log = Scripted::recording();
    itself.update_links(&[c], &[c, me, b], &mut log).unwrap();
    assert_eq!(itself.get_link(c), Some(Link::new(c, c, b)));
    let mut read = Limited::new(10);
    assert_eq!(itself.each_links(&[any, me, any], &mut read), Flow::Continue);
    assert!(read.seen().is_empty());
    assert_eq!(itself.count_links(&[any, a, any]), 1);
}

#[test]
fn null_constant_names_the_written_link() {
    let (store, a, _b, c) = abc();
    let mut null = store.with_null_constant_resolution();
    let mut log = Scripted::recording();
    null.create_links(&[], &mut log).unwrap();
    assert_eq!(null.get_link(4), Some(Link::point(4)));
    null.update_links(&[c], &[c, 0, a], &mut log).unwrap();
    assert_eq!(null.get_link(c), Some(Link::new(c, c, a)));
}

#[test]
fn non_null_deletion_resets_before_deleting() {
    let (store, _a, _b, c) = abc();
    let mut deletion = store.with_non_null_contents_deletion_resolution();
    let mut log = Scripted::recording();
    deletion.delete_links(&[c], &mut log).unwrap();
    assert_eq!(
        log.seen(),
        vec![(Link::new(c, 1, 2), Link::new(c, 0, 0)), (Link::new(c, 0, 0), Link::nothing())]
    );
    assert_eq!(deletion.get_link(c), None);
}

#[test]
fn inner_references_must_exist() {
    let (store, a, _b, c) = abc();
    let mut existence = store.with_inner_reference_existence_validation();
    let any = existence.constants().any;
    let mut read = Limited::new(10);
    assert!(matches!(existence.try_each_links(&[any, 9, any], &mut read), Err(Error::NotExists(9))));
    assert_eq!(existence.each_links(&[any, 9, any], &mut read), Flow::Continue);
    assert!(read.seen().is_empty());
    assert_eq!(existence.try_each_links(&[any, a, any], &mut read).unwrap(), Flow::Continue);
    assert_eq!(read.seen().len(), 2);
    let mut log = Scripted::recording();
    assert!(matches!(existence.update_links(&[c], &[c, 9, a], &mut log), Err(Error::NotExists(9))));
    assert!(matches!(existence.delete_links(&[9], &mut log), Err(Error::NotExists(9))));
    assert!(log.seen().is_empty());
}

#[test]
fn missing_dependencies_are_created() {
    let mut store = Store::new();
    let a = store.create().unwrap();
    let mut creator = store.with_non_existent_dependencies_creation();
    let mut log = Scripted::recording();
    creator.update_links(&[a], &[a, 3, 4], &mut log).unwrap();
    assert_eq!(log.seen(), vec![(Link::new(a, 0, 0), Link::new(a, 3, 4))]);
    let store = creator.into_inner();
    assert_eq!(store.iter(), vec![Link::new(a, 3, 4), Link::new(3, 0, 0), Link::new(4, 0, 0)]);
}

#[test]
fn failures_become_break() {
    let (store, a, _b, _c) = abc();
    let mut quiet = store.with_no_exceptions();
    let mut log = Scripted::recording();
    assert_eq!(quiet.update_links(&[9], &[9, a, a], &mut log).unwrap(), Flow::Break);
    assert_eq!(quiet.delete_links(&[9], &mut log).unwrap(), Flow::Break);
    assert!(log.seen().is_empty());
    assert_eq!(quiet.count_links(&[]), 3);
}

#[test]
fn ensure_created_keeps_only_the_asked_addresses() {
    let mut store = Store::new();
    let a = store.create().unwrap();
    ensure_created(&mut store, &[0, 5, a, 3]).unwrap();
    assert_eq!(
        store.iter(),
        vec![Link::new(a, 0, 0), Link::new(3, 0, 0), Link::new(5, 0, 0)]
    );
    ensure_created(&mut store, &[a, 3]).unwrap();
    assert_eq!(store.count(), 3);
}

#[test]
fn self_reference_resolution_keeps_a_given_index() {
    let mut c = LinksConstants::new();
    assert_eq!(resolve_constant_as_self_reference(9, &[4], &[0, 9, 7], &c), [4, 4, 7]);
    c.null = 7;
    assert_eq!(resolve_constant_as_self_reference(9, &[4], &[7, 1, 2], &c), [7, 1, 2]);
    assert_eq!(resolve_constant_as_self_reference(9, &[4], &[0, 1, 9], &c), [4, 1, 4]);
}

#[test]
fn cascade_uniqueness_repoints_users_before_resolving() {
    let (store, a, b, c, d, _e) = chain();
    let f = {
        let mut store = store;
        let f = store.create_link(a, a).unwrap();
        let mut resolver = store.with_uniqueness(CascadeResolve);
        let mut log = Scripted::recording();
        resolver.update_links(&[f], &[f, a, b], &mut log).unwrap();
        assert_eq!(log.seen(), vec![(Link::new(f, a, a), Link::nothing()), (Link::new(c, a, b), Link::new(c, a, b))]);
        resolver.update_links(&[d], &[d, a, b], &mut log).unwrap();
        let store = resolver.into_inner();
        assert_eq!(store.get_link(d), None);
        assert_eq!(store.get_link(c), Some(Link::new(c, a, b)));
        f
    };
    assert_eq!(f, 6);
}

#[test]
fn cascade_uniqueness_merges_users_of_the_redundant_link() {
    let mut store = Store::new();
    let a = store.create_point().unwrap();
    let b = store.create_point().unwrap();
    let x = store.create_link(a, b).unwrap();
    let y = store.create_link(b, b).unwrap();
    let u = store.create_link(y, a).unwrap();
    let mut resolver = store.with_uniqueness(CascadeResolve);
    let mut log = Scripted::recording();
    assert_eq!(resolver.update_links(&[y], &[y, a, b], &mut log).unwrap(), Flow::Continue);
    assert_eq!(
        log.seen(),
        vec![
            (Link::new(u, y, a), Link::new(u, x, a)),
            (Link::new(y, b, b), Link::nothing()),
            (Link::new(x, a, b), Link::new(x, a, b)),
        ]
    );
    let store = resolver.into_inner();
    assert_eq!(store.iter(), vec![Link::point(a), Link::point(b), Link::new(x, a, b), Link::new(u, x, a)]);
}
