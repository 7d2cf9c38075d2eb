//! The constants of a store, laid out for the C interface.
use crate::constants::{LinksConstants, Range};
use crate::ffi::utils::{Fallible, Maybe, NoneValue};
use vstd::std_specs::convert::FromSpecImpl;
use vstd::prelude::*;

verus! {

/// The constants of a store as the C interface passes them: the optional external
/// range becomes a `Maybe`.
pub struct Constants {
    pub index_part: u64,
    pub source_part: u64,
    pub target_part: u64,
    pub null: u64,
    pub continue_: u64,
    pub break_: u64,
    pub skip: u64,
    pub any: u64,
    pub itself: u64,
    pub error: u64,
    pub internal_range: Range,
    pub external_range: Maybe<Range>,
}

/// `c` and `f` hold the same constants.
pub open spec fn same_constants(c: LinksConstants, f: Constants) -> bool {
    &&& f.index_part == c.index_part
    &&& f.source_part == c.source_part
    &&& f.target_part == c.target_part
    &&& f.null == c.null
    &&& f.continue_ == c.continue_
    &&& f.break_ == c.break_
    &&& f.skip == c.skip
    &&& f.any == c.any
    &&& f.itself == c.itself
    &&& f.error == c.error
    &&& f.internal_range == c.internal_range
    &&& match c.external_range {
        Some(r) => f.external_range == Fallible::<Range, NoneValue>::Success(r),
        Option::None => f.external_range is Failure,
    }
}

/// The constants of `c` laid out for C: an absent external range becomes `Failure`.
pub open spec fn laid_out(c: LinksConstants) -> Constants {
    Constants {
        index_part: c.index_part,
        source_part: c.source_part,
        target_part: c.target_part,
        null: c.null,
        continue_: c.continue_,
        break_: c.break_,
        skip: c.skip,
        any: c.any,
        itself: c.itself,
        error: c.error,
        internal_range: c.internal_range,
        external_range: match c.external_range {
            Some(r) => Fallible::Success(r),
            Option::None => Fallible::Failure(NoneValue),
        },
    }
}

/// The constants that `f` lays out for C, as the store uses them.
pub open spec fn taken_back(f: Constants) -> LinksConstants {
    LinksConstants {
        index_part: f.index_part,
        source_part: f.source_part,
        target_part: f.target_part,
        null: f.null,
        continue_: f.continue_,
        break_: f.break_,
        skip: f.skip,
        any: f.any,
        itself: f.itself,
        error: f.error,
        internal_range: f.internal_range,
        external_range: match f.external_range {
            Fallible::Success(r) => Some(r),
            Fallible::Failure(_) => Option::None,
        },
    }
}

impl From<LinksConstants> for Constants {
    fn from(c: LinksConstants) -> (r: Constants) {
        Constants::from_links(c)
    }
}

impl FromSpecImpl<LinksConstants> for Constants {
    open spec fn obeys_from_spec() -> bool {
        true
    }

    open spec fn from_spec(c: LinksConstants) -> Constants {
        laid_out(c)
    }
}

impl From<Constants> for LinksConstants {
    fn from(f: Constants) -> (r: LinksConstants) {
        f.into_links()
    }
}

impl FromSpecImpl<Constants> for LinksConstants {
    open spec fn obeys_from_spec() -> bool {
        true
    }

    open spec fn from_spec(f: Constants) -> LinksConstants {
        taken_back(f)
    }
}

impl Constants {
    /// The constants of `c`, laid out for C.
    pub fn from_links(c: LinksConstants) -> (r: Constants)
        ensures
            same_constants(c, r),
            r == laid_out(c),
    {
        Constants {
            index_part: c.index_part,
            source_part: c.source_part,
            target_part: c.target_part,
            null: c.null,
            continue_: c.continue_,
            break_: c.break_,
            skip: c.skip,
            any: c.any,
            itself: c.itself,
            error: c.error,
            internal_range: c.internal_range,
            external_range: match c.external_range {
                Some(r) => Fallible::Success(r),
                Option::None => Fallible::Failure(NoneValue::new()),
            },
        }
    }

    /// The same constants as the store uses them.
    pub fn into_links(self) -> (r: LinksConstants)
        ensures
            same_constants(r, self),
            r == taken_back(self),
    {
        LinksConstants {
            index_part: self.index_part,
            source_part: self.source_part,
            target_part: self.target_part,
            null: self.null,
            continue_: self.continue_,
            break_: self.break_,
            skip: self.skip,
            any: self.any,
            itself: self.itself,
            error: self.error,
            internal_range: self.internal_range,
            external_range: self.external_range.into_option(),
        }
    }
}

} // verus!
