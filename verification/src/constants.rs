//! The service constants of a store and the ranges its addresses live in.
use core::ops::RangeInclusive;
use vstd::prelude::*;

verus! {

/// `RangeInclusive::start`: the lower bound the range was made with.
#[verifier::external_body]
fn inclusive_start(range: &RangeInclusive<u64>) -> (r: u64)
    ensures
        r == range@.start,
{
    *range.start()
}

/// `RangeInclusive::end`: the upper bound the range was made with.
#[verifier::external_body]
fn inclusive_end(range: &RangeInclusive<u64>) -> (r: u64)
    ensures
        r == range@.end,
{
    *range.end()
}

/// An inclusive range of addresses, `start..=end`.
#[derive(Clone, Copy, Debug, PartialEq, Eq, Structural)]
pub struct Range {
    pub start: u64,
    pub end: u64,
}

impl Range {
    /// `true` when `start <= value <= end`.
    pub open spec fn spec_contains(self, value: u64) -> bool {
        self.start <= value <= self.end
    }

    /// The range `start..=end`.
    pub fn new(start: u64, end: u64) -> (r: Range)
        ensures
            r == (Range { start, end }),
    {
        Range { start, end }
    }

    /// The bounds of `range`.
    pub fn from_inclusive(range: RangeInclusive<u64>) -> (r: Range)
        ensures
            r == (Range { start: range@.start, end: range@.end }),
    {
        Range { start: inclusive_start(&range), end: inclusive_end(&range) }
    }

    /// The range `start..=end` as a `RangeInclusive`.
    pub fn to_inclusive(self) -> (r: RangeInclusive<u64>)
        ensures
            r@.start == self.start,
            r@.end == self.end,
            !r@.exhausted,
    {
        RangeInclusive::new(self.start, self.end)
    }

    /// `true` when `value` lies in the range.
    pub fn contains(&self, value: u64) -> (r: bool)
        ensures
            r == self.spec_contains(value),
    {
        self.start <= value && value <= self.end
    }

    /// `true` when the range holds no address.
    pub fn is_empty(&self) -> (r: bool)
        ensures
            r == (self.end < self.start),
    {
        self.end < self.start
    }
}

/// The constants of a store: the positions of a link's parts in a query, the null
/// address, the service values, and the ranges of internal and external addresses.
#[derive(Clone, Copy, Debug, PartialEq, Eq, Structural)]
pub struct LinksConstants {
    pub index_part: u64,
    pub source_part: u64,
    pub target_part: u64,
    pub null: u64,
    pub continue_: u64,
    pub break_: u64,
    pub skip: u64,
    pub any: u64,
    pub itself: u64,
    pub error: u64,
    pub internal_range: Range,
    pub external_range: Option<Range>,
}

/// The constants that `full_new` builds: the six values at the top of `internal` are
/// taken for the service constants, the rest of `internal` holds internal addresses.
pub open spec fn full_constants(target_part: u64, internal: Range, external: Option<Range>) -> LinksConstants {
    LinksConstants {
        index_part: 0,
        source_part: 1,
        target_part,
        null: 0,
        continue_: internal.end,
        break_: (internal.end - 1) as u64,
        skip: (internal.end - 2) as u64,
        any: (internal.end - 3) as u64,
        itself: (internal.end - 4) as u64,
        error: (internal.end - 5) as u64,
        internal_range: Range { start: internal.start, end: (internal.end - 6) as u64 },
        external_range: external,
    }
}

/// `true` when `external` is absent, empty, or lies wholly outside `internal`.
pub open spec fn ranges_apart(internal: Range, external: Option<Range>) -> bool {
    match external {
        Option::None => true,
        Option::Some(e) => e.end < e.start || e.end < internal.start || e.start > internal.end,
    }
}

impl LinksConstants {
    /// The default constants: every address from 1 up is internal, the six largest
    /// values are the service constants, and there is no external range.
    pub open spec fn default_constants() -> LinksConstants {
        full_constants(2, Range { start: 1, end: u64::MAX }, Option::None)
    }

    /// Constants over the given ranges, with the service values at the top of `internal`.
    pub fn full_new(target_part: u64, internal: Range, external: Option<Range>) -> (r: LinksConstants)
        requires
            internal.end >= 6,
            ranges_apart(internal, external),
        ensures
            r == full_constants(target_part, internal, external),
    {
        let end = internal.end;
        LinksConstants {
            index_part: 0,
            source_part: 1,
            target_part,
            null: 0,
            continue_: end,
            break_: end - 1,
            skip: end - 2,
            any: end - 3,
            itself: end - 4,
            error: end - 5,
            internal_range: Range { start: internal.start, end: end - 6 },
            external_range: external,
        }
    }

    /// The default constants.
    pub fn new() -> (r: LinksConstants)
        ensures
            r == LinksConstants::default_constants(),
    {
        LinksConstants::full_new(2, Range { start: 1, end: u64::MAX }, Option::None)
    }

    /// `true` when `address` lies in the internal range.
    pub open spec fn spec_is_internal(self, address: u64) -> bool {
        self.internal_range.spec_contains(address)
    }

    /// `true` when there is an external range and `address` lies in it.
    pub open spec fn spec_is_external(self, address: u64) -> bool {
        match self.external_range {
            Option::Some(r) => r.spec_contains(address),
            Option::None => false,
        }
    }

    /// `true` when `address` lies in the internal range.
    pub fn is_internal(&self, address: u64) -> (r: bool)
        ensures
            r == self.spec_is_internal(address),
    {
        self.internal_range.contains(address)
    }

    /// `true` when `address` lies in the external range.
    pub fn is_external(&self, address: u64) -> (r: bool)
        ensures
            r == self.spec_is_external(address),
    {
        match &self.external_range {
            Option::Some(range) => range.contains(address),
            Option::None => false,
        }
    }

    /// `true` when `address` is internal or external.
    pub fn is_reference(&self, address: u64) -> (r: bool)
        ensures
            r == (self.spec_is_internal(address) || self.spec_is_external(address)),
    {
        self.is_internal(address) || self.is_external(address)
    }
}

} // verus!
