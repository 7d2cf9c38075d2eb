//! Unit, fallible and owned-slice values for the C interface.
use vstd::prelude::*;

verus! {

/// A unit value with no contents.
pub struct NoneValue;

impl NoneValue {
    /// The unit value.
    pub fn new() -> (r: NoneValue)
        ensures
            r == NoneValue,
    {
        NoneValue
    }
}

/// A result with its two cases laid out for C.
pub enum Fallible<T, E> {
    Success(T),
    Failure(E),
}

/// A value or nothing.
pub type Maybe<T> = Fallible<T, NoneValue>;

impl<T, E> Fallible<T, E> {
    /// The value of a `Success`.
    pub fn unwrap(self) -> (r: T)
        requires
            self is Success,
        ensures
            r == self->Success_0,
    {
        match self {
            Fallible::Success(value) => value,
            Fallible::Failure(_) => vstd::pervasive::unreached(),
        }
    }

    /// The same value as a `Result`.
    pub fn into_result(self) -> (r: Result<T, E>)
        ensures
            r == (match self {
                Fallible::Success(v) => Ok::<T, E>(v),
                Fallible::Failure(e) => Err::<T, E>(e),
            }),
    {
        match self {
            Fallible::Success(v) => Ok(v),
            Fallible::Failure(e) => Err(e),
        }
    }

    /// The same value from a `Result`.
    pub fn from_result(result: Result<T, E>) -> (r: Fallible<T, E>)
        ensures
            r == (match result {
                Ok(v) => Fallible::<T, E>::Success(v),
                Err(e) => Fallible::<T, E>::Failure(e),
            }),
    {
        match result {
            Ok(v) => Fallible::Success(v),
            Err(e) => Fallible::Failure(e),
        }
    }
}

impl<T> Fallible<T, NoneValue> {
    /// Nothing.
    pub fn none() -> (r: Maybe<T>)
        ensures
            r is Failure,
    {
        Fallible::Failure(NoneValue::new())
    }

    /// The same value as an `Option`.
    pub fn into_option(self) -> (r: Option<T>)
        ensures
            r == (match self {
                Fallible::Success(v) => Some(v),
                Fallible::Failure(_) => Option::<T>::None,
            }),
    {
        match self {
            Fallible::Success(v) => Some(v),
            Fallible::Failure(_) => Option::None,
        }
    }

    /// The same value from an `Option`.
    pub fn from_option(option: Option<T>) -> (r: Maybe<T>)
        ensures
            match option {
                Some(v) => r == Fallible::<T, NoneValue>::Success(v),
                Option::None => r is Failure,
            },
    {
        match option {
            Some(v) => Fallible::Success(v),
            Option::None => Fallible::<T, NoneValue>::none(),
        }
    }
}

/// An owned slice of values, handed over the C interface.
pub struct OwnedSlice<T> {
    items: Vec<T>,
}

impl<T> OwnedSlice<T> {
    /// The values held.
    pub closed spec fn items(&self) -> Seq<T> {
        self.items@
    }

    /// Takes ownership of `place`.
    pub fn leak(place: Vec<T>) -> (r: OwnedSlice<T>)
        ensures
            r.items() == place@,
    {
        OwnedSlice { items: place }
    }

    /// The values held, as a slice.
    pub fn as_slice(&self) -> (r: &[T])
        ensures
            r@ == self.items(),
    {
        self.items.as_slice()
    }

    /// Gives back the values held.
    pub fn into_owned(self) -> (r: Vec<T>)
        ensures
            r@ == self.items(),
    {
        self.items
    }
}

} // verus!
