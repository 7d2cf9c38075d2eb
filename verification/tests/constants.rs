use doublets::ffi::errors::copied_length;
use doublets::constants::{LinksConstants, Range};
use doublets::ffi::constants::Constants;
use doublets::ffi::errors::{acquire_error, acquire_result, DoubletsResult};
use doublets::ffi::utils::{Fallible, Maybe};
use doublets::data::{Error, Link};
use doublets::platform::link::Flow;

#[test]
fn default_constants() {
    let c = LinksConstants::new();
    assert_eq!((c.index_part, c.source_part, c.target_part, c.null), (0, 1, 2, 0));
    assert_eq!(c.continue_, u64::MAX);
    assert_eq!(c.any, u64::MAX - 3);
    assert_eq!(c.error, u64::MAX - 5);
    assert_eq!(c.internal_range, Range::new(1, u64::MAX - 6));
    assert!(c.external_range.is_none());
    assert!(c.is_internal(1));
    assert!(!c.is_internal(0));
    assert!(c.is_reference(5));
}

#[test]
fn service_constants_are_reserved() {
    let c = LinksConstants::full_new(2, Range::new(1, 100), Some(Range::new(101, 200)));
    for v in [c.continue_, c.break_, c.skip, c.any, c.itself, c.error] {
        assert!(!c.is_internal(v));
        assert!(!c.is_external(v));
    }
    assert_eq!(c.internal_range, Range::new(1, 94));
    assert!(c.is_external(150));
    assert!(c.is_reference(150));
    assert!(!c.is_reference(97));
}

#[test]
fn constants_round_trip_through_c_layout() {
    let c = LinksConstants::full_new(2, Range::new(1, 100), Some(Range::new(101, 200)));
    let f = Constants::from_links(c);
    assert_eq!(f.any, 97);
    assert!(matches!(f.external_range, Fallible::Success(Range { start: 101, end: 200 })));
    assert_eq!(f.into_links(), c);
    let none: Maybe<u64> = Maybe::from_option(None);
    assert_eq!(none.into_option(), None);
}

#[test]
fn results_for_c() {
    assert!(matches!(acquire_result(Ok(Flow::Break)), DoubletsResult::Break));
    assert!(matches!(acquire_result(Ok(Flow::Continue)), DoubletsResult::Continue));
    assert!(matches!(acquire_result(Err(Error::NotExists(4))), DoubletsResult::NotExists(4)));
    match acquire_error(Error::HasUsages(vec![Link::new(2, 1, 1)])) {
        DoubletsResult::HasUsages(slice) => assert_eq!(slice.into_owned(), vec![Link::new(2, 1, 1)]),
        _ => panic!("expected HasUsages"),
    }
}

#[test]
fn ranges_and_inclusive_ranges() {
    assert_eq!(Range::from_inclusive(3..=9), Range::new(3, 9));
    assert_eq!(Range::new(2, 5).to_inclusive(), 2..=5);
    assert!(Range::new(2, 5).contains(5));
    assert!(!Range::new(2, 5).contains(6));
    assert!(Range::new(5, 2).is_empty());
}

#[test]
fn constants_round_trip_through_from() {
    let c = LinksConstants::full_new(2, Range::new(1, 100), Some(Range::new(101, 200)));
    let back: LinksConstants = Constants::from(c).into();
    assert_eq!(back, c);
    let d = LinksConstants::new();
    let f = Constants::from(d);
    assert!(matches!(f.external_range, Fallible::Failure(_)));
    assert_eq!(LinksConstants::from(f), d);
}

#[test]
fn error_message_is_cut_to_the_buffer() {
    assert_eq!(copied_length(5, 10), 5);
    assert_eq!(copied_length(9, 10), 9);
    assert_eq!(copied_length(10, 10), 9);
    assert_eq!(copied_length(20, 1), 0);
}
