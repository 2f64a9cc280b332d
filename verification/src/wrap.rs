//! Containers of rows that are stored column by column: a borrowed or owned
//! vec-like or map-like container.
use vstd::prelude::*;
use std::borrow::Cow;
use std::marker::PhantomData;

verus! {

/// A vec-like container of rows of type `T`, borrowed or owned.
#[derive(Debug)]
#[verifier::reject_recursive_types(IT)]
pub struct ColumnarVec<'c, T, IT: Clone>(pub Cow<'c, IT>, pub PhantomData<T>);

impl<'c, T, IT: Clone> ColumnarVec<'c, T, IT> {
    /// A wrapper that borrows `vec`.
    pub fn new(vec: &'c IT) -> (r: Self)
        ensures
            r.0 == Cow::<'c, IT>::Borrowed(vec),
    {
        ColumnarVec(Cow::Borrowed(vec), PhantomData)
    }

    /// The container: the owned one, or a clone of the borrowed one.
    pub fn into_vec(self) -> (r: IT)
        ensures
            match self.0 {
                Cow::Borrowed(b) => cloned(*b, r),
                Cow::Owned(o) => r == o,
            },
    {
        match self.0 {
            Cow::Borrowed(b) => b.clone(),
            Cow::Owned(o) => o,
        }
    }
}

impl<'c, T, IT: Clone> From<IT> for ColumnarVec<'c, T, IT> {
    /// A wrapper that owns `vec`.
    fn from(vec: IT) -> (r: Self) {
        ColumnarVec(Cow::Owned(vec), PhantomData)
    }
}

impl<'c, T, IT: Clone> vstd::std_specs::convert::FromSpecImpl<IT> for ColumnarVec<'c, T, IT> {
    open spec fn obeys_from_spec() -> bool {
        true
    }

    open spec fn from_spec(vec: IT) -> ColumnarVec<'c, T, IT> {
        ColumnarVec(Cow::Owned(vec), PhantomData)
    }
}

impl<'c, T, IT: Clone> From<&'c IT> for ColumnarVec<'c, T, IT> {
    /// A wrapper that borrows `vec`.
    fn from(vec: &'c IT) -> (r: Self) {
        ColumnarVec(Cow::Borrowed(vec), PhantomData)
    }
}

impl<'c, T, IT: Clone> vstd::std_specs::convert::FromSpecImpl<&'c IT> for ColumnarVec<'c, T, IT> {
    open spec fn obeys_from_spec() -> bool {
        true
    }

    open spec fn from_spec(vec: &'c IT) -> ColumnarVec<'c, T, IT> {
        ColumnarVec(Cow::Borrowed(vec), PhantomData)
    }
}

/// A map-like container from keys of type `K` to rows of type `T`,
/// borrowed or owned.
#[derive(Debug)]
#[verifier::reject_recursive_types(IT)]
pub struct ColumnarMap<'c, K, T, IT: Clone>(pub Cow<'c, IT>, pub PhantomData<(K, T)>);

impl<'c, K, T, IT: Clone> ColumnarMap<'c, K, T, IT> {
    /// A wrapper that borrows `map`.
    pub fn new(map: &'c IT) -> (r: Self)
        ensures
            r.0 == Cow::<'c, IT>::Borrowed(map),
    {
        ColumnarMap(Cow::Borrowed(map), PhantomData)
    }

    /// The container: the owned one, or a clone of the borrowed one.
    pub fn into_map(self) -> (r: IT)
        ensures
            match self.0 {
                Cow::Borrowed(b) => cloned(*b, r),
                Cow::Owned(o) => r == o,
            },
    {
        match self.0 {
            Cow::Borrowed(b) => b.clone(),
            Cow::Owned(o) => o,
        }
    }
}

} // verus!
