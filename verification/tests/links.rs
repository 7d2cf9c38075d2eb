use doublets::handler::{Fuse, Scripted};
use std::ops::ControlFlow;
use doublets::data::{Doublet, Link};
use doublets::platform::link::Flow;
use doublets::stable_fallback::Flow as ValueFlow;

#[test]
fn link_constructors() {
    let link = Link::new(1, 2, 3);
    assert_eq!((link.index, link.source, link.target), (1, 2, 3));
    assert_eq!(Link::point(7), Link::new(7, 7, 7));
    assert_eq!(Link::nothing(), Link::new(0, 0, 0));
}

#[test]
fn link_predicates() {
    assert!(Link::nothing().is_null());
    assert!(!Link::point(1).is_null());
    assert!(Link::point(4).is_full());
    assert!(!Link::new(4, 4, 5).is_full());
    assert!(Link::new(4, 4, 5).is_partial());
    assert!(Link::new(4, 5, 4).is_partial());
    assert!(!Link::new(4, 5, 6).is_partial());
}

#[test]
fn doublet_new() {
    let d = Doublet::new(3, 4);
    assert_eq!((d.source, d.target), (3, 4));
}

#[test]
fn flow_queries() {
    assert!(Flow::Break.is_break());
    assert!(!Flow::Continue.is_break());
    assert!(Flow::Continue.is_continue());
    assert_eq!(ValueFlow::Break(5).into_break(), Some(5));
    assert_eq!(ValueFlow::<u8>::Continue.into_break(), None);
}

#[test]
fn doublet_text() {
    assert_eq!(Doublet::new(3, 14).to_string(), "3->14");
    assert_eq!(Doublet::new(0, 1000).to_string(), "0->1000");
}

#[test]
fn flow_and_control_flow() {
    assert_eq!(Flow::Break.branch(), ControlFlow::Break(Flow::Break));
    assert_eq!(Flow::Continue.branch(), ControlFlow::Continue(()));
    assert_eq!(Flow::from(ControlFlow::<u8, ()>::Break(3)), Flow::Break);
    assert_eq!(Flow::from(ControlFlow::<u8, u16>::Continue(7)), Flow::Continue);
    assert_eq!(Flow::from_output(()), Flow::Continue);
    assert_eq!(Flow::from_residual(Flow::Break), Flow::Break);
}

#[test]
fn link_slices_and_text() {
    assert_eq!(Link::from_slice(&[4, 5, 6]), Link::new(4, 5, 6));
    assert_eq!(Link::from_slice(&[4, 5, 6, 7]), Link::new(4, 5, 6));
    assert_eq!(Link::new(4, 5, 6).as_slice(), [4, 5, 6]);
    assert_eq!(Link::new(1, 20, 300).debug_text(), "1: 20 300");
}

#[test]
fn default_link_is_null() {
    assert_eq!(Link::default(), Link::nothing());
    assert!(Link::default().is_null());
}

#[test]
fn fuse_stays_blown_after_the_first_break() {
    let plan = vec![Flow::Continue, Flow::Break, Flow::Continue];
    let mut fuse = Fuse::new(Scripted::new(plan));
    let a = Link::new(1, 1, 1);
    let b = Link::new(2, 2, 2);
    assert_eq!(fuse.call(a, b), Flow::Continue);
    assert_eq!(fuse.call(b, a), Flow::Break);
    assert_eq!(fuse.call(a, a), Flow::Break);
    assert_eq!(fuse.call(b, b), Flow::Break);
    assert_eq!(fuse.into_inner().seen(), vec![(a, b), (b, a)]);
}
