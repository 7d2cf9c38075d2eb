//! Policies that pick the decorator a store is wrapped in, and the builder that wraps
//! a store in one decorator.
use crate::decorators::constants::{ItselfConstantToSelfReferenceResolver, NullConstantToSelfReferenceResolver};
use crate::decorators::deletion::NonNullContentsLinkDeletionResolver;
use crate::decorators::existence::{InnerReferenceExistenceValidator, NonExistentDependenciesCreator};
use crate::decorators::no_exceptions::NoExceptionsDecorator;
use crate::decorators::uniqueness::{CascadeUniquenessAndUsagesResolver, UniquenessResolver, UniquenessValidator};
use crate::decorators::usages::{CascadeUsagesResolver, UsagesValidator};
use crate::traits::Doublets;
use vstd::prelude::*;

verus! {

/// Reject the conflicting operation with an error: as a uniqueness policy it picks
/// `UniquenessValidator`, as a usages policy `UsagesValidator`.
#[derive(Debug, Default, Clone, Copy, PartialEq, Eq, Structural, Hash)]
pub struct Validate;

/// Resolve the conflict by reusing the link that already exists: as a uniqueness
/// policy it picks `UniquenessResolver`.
#[derive(Debug, Default, Clone, Copy, PartialEq, Eq, Structural, Hash)]
pub struct Resolve;

/// Resolve the conflict and cascade through everything that depends on it: as a
/// uniqueness policy it picks `CascadeUniquenessAndUsagesResolver`, as a usages policy
/// `CascadeUsagesResolver`.
#[derive(Debug, Default, Clone, Copy, PartialEq, Eq, Structural, Hash)]
pub struct CascadeResolve;

/// How a store reacts when an operation would produce a duplicate `(source, target)`
/// pair.
pub trait UniquenessPolicy<L: Doublets>: Sized {
    /// The decorator this policy wraps a store in.
    type Decorator;

    /// The store inside a decorator of this policy.
    spec fn wrapped(decorator: Self::Decorator) -> L;

    /// Wraps `links` in the decorator this policy picks.
    fn decorate(links: L) -> (r: Self::Decorator)
        ensures
            Self::wrapped(r) == links,
    ;
}

/// How a store reacts when an operation touches a link that other links still use.
pub trait UsagesPolicy<L: Doublets>: Sized {
    /// The decorator this policy wraps a store in.
    type Decorator;

    /// The store inside a decorator of this policy.
    spec fn wrapped(decorator: Self::Decorator) -> L;

    /// Wraps `links` in the decorator this policy picks.
    fn decorate(links: L) -> (r: Self::Decorator)
        ensures
            Self::wrapped(r) == links,
    ;
}

impl<L: Doublets> UniquenessPolicy<L> for Validate {
    type Decorator = UniquenessValidator<L>;

    open spec fn wrapped(decorator: UniquenessValidator<L>) -> L {
        decorator.store()
    }

    fn decorate(links: L) -> (r: UniquenessValidator<L>) {
        UniquenessValidator::new(links)
    }
}

impl<L: Doublets> UniquenessPolicy<L> for Resolve {
    type Decorator = UniquenessResolver<L>;

    open spec fn wrapped(decorator: UniquenessResolver<L>) -> L {
        decorator.store()
    }

    fn decorate(links: L) -> (r: UniquenessResolver<L>) {
        UniquenessResolver::new(links)
    }
}

impl<L: Doublets> UniquenessPolicy<L> for CascadeResolve {
    type Decorator = CascadeUniquenessAndUsagesResolver<L>;

    open spec fn wrapped(decorator: CascadeUniquenessAndUsagesResolver<L>) -> L {
        decorator.store()
    }

    fn decorate(links: L) -> (r: CascadeUniquenessAndUsagesResolver<L>) {
        CascadeUniquenessAndUsagesResolver::new(links)
    }
}

impl<L: Doublets> UsagesPolicy<L> for Validate {
    type Decorator = UsagesValidator<L>;

    open spec fn wrapped(decorator: UsagesValidator<L>) -> L {
        decorator.store()
    }

    fn decorate(links: L) -> (r: UsagesValidator<L>) {
        UsagesValidator::new(links)
    }
}

impl<L: Doublets> UsagesPolicy<L> for CascadeResolve {
    type Decorator = CascadeUsagesResolver<L>;

    open spec fn wrapped(decorator: CascadeUsagesResolver<L>) -> L {
        decorator.store()
    }

    fn decorate(links: L) -> (r: CascadeUsagesResolver<L>) {
        CascadeUsagesResolver::new(links)
    }
}

/// Wraps a store in a decorator; each method takes the store by value and returns the
/// decorator around it.
pub trait DecoratorsExt: Doublets {
    /// Wraps the store in the decorator that `policy` picks for uniqueness.
    fn with_uniqueness<P: UniquenessPolicy<Self>>(self, policy: P) -> (r: P::Decorator)
        ensures
            P::wrapped(r) == self,
    {
        P::decorate(self)
    }

    /// Wraps the store in the decorator that `policy` picks for usages.
    fn with_usages<P: UsagesPolicy<Self>>(self, policy: P) -> (r: P::Decorator)
        ensures
            P::wrapped(r) == self,
    {
        P::decorate(self)
    }

    /// Wraps the store in a `UsagesValidator`.
    fn with_usages_validation(self) -> (r: UsagesValidator<Self>)
        ensures
            r.store() == self,
    {
        UsagesValidator::new(self)
    }

    /// Wraps the store in a `CascadeUsagesResolver`.
    fn with_cascade_usages_resolution(self) -> (r: CascadeUsagesResolver<Self>)
        ensures
            r.store() == self,
    {
        CascadeUsagesResolver::new(self)
    }

    /// Wraps the store in an `InnerReferenceExistenceValidator`.
    fn with_inner_reference_existence_validation(self) -> (r: InnerReferenceExistenceValidator<Self>)
        ensures
            r.store() == self,
    {
        InnerReferenceExistenceValidator::new(self)
    }

    /// Wraps the store in a `NonExistentDependenciesCreator`.
    fn with_non_existent_dependencies_creation(self) -> (r: NonExistentDependenciesCreator<Self>)
        ensures
            r.store() == self,
    {
        NonExistentDependenciesCreator::new(self)
    }

    /// Wraps the store in an `ItselfConstantToSelfReferenceResolver`.
    fn with_itself_constant_resolution(self) -> (r: ItselfConstantToSelfReferenceResolver<Self>)
        ensures
            r.store() == self,
    {
        ItselfConstantToSelfReferenceResolver::new(self)
    }

    /// Wraps the store in a `NullConstantToSelfReferenceResolver`.
    fn with_null_constant_resolution(self) -> (r: NullConstantToSelfReferenceResolver<Self>)
        ensures
            r.store() == self,
    {
        NullConstantToSelfReferenceResolver::new(self)
    }

    /// Wraps the store in a `NonNullContentsLinkDeletionResolver`.
    fn with_non_null_contents_deletion_resolution(self) -> (r: NonNullContentsLinkDeletionResolver<Self>)
        ensures
            r.store() == self,
    {
        NonNullContentsLinkDeletionResolver::new(self)
    }

    /// Wraps the store in a `NoExceptionsDecorator`.
    fn with_no_exceptions(self) -> (r: NoExceptionsDecorator<Self>)
        ensures
            r.store() == self,
    {
        NoExceptionsDecorator::new(self)
    }
}

impl<L: Doublets> DecoratorsExt for L {}

} // verus!
