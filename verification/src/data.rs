//! Shared handle to a protocol value (blocks are passed around as `Data`).

use vstd::prelude::*;

use crate::types::StatementBlock;

verus! {

/// A protocol value handed between the store, the committer and the network.
#[derive(Debug)]
pub struct Data<T> {
    inner: T,
}

impl<T: View> View for Data<T> {
    type V = T::V;

    closed spec fn view(&self) -> T::V {
        self.inner@
    }
}

impl<T: View> Data<T> {
    pub fn new(value: T) -> (r: Self)
        ensures
            r@ == value@,
    {
        Data { inner: value }
    }

    pub fn inner(&self) -> (r: &T)
        ensures
            r@ == self@,
    {
        &self.inner
    }
}

impl Data<StatementBlock> {
    /// Convenience constructor for block data.
    pub fn block(block: StatementBlock) -> (r: Self)
        ensures
            r@ == block@,
    {
        Self::new(block)
    }
}

impl Clone for Data<StatementBlock> {
    fn clone(&self) -> (r: Self)
        ensures
            r@ == self@,
    {
        Data { inner: self.inner.clone() }
    }
}

} // verus!
