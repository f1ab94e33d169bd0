//! Named demand vectors: one amount per inventory-group position.

use vstd::prelude::*;

verus! {

/// The mathematical content of a [`Request`].
pub struct RequestModel {
    pub name: Seq<char>,
    pub amounts: Seq<u32>,
}

/// A named demand for units: the `N`th amount is drawn from the `N`th
/// inventory group.
#[derive(Clone, Debug, PartialEq)]
pub struct Request {
    name: String,
    amounts: Vec<u32>,
}

impl View for Request {
    type V = RequestModel;

    closed spec fn view(&self) -> RequestModel {
        RequestModel { name: self.name@, amounts: self.amounts@ }
    }
}

impl Request {
    pub fn new(name: String, amounts: Vec<u32>) -> (r: Self)
        ensures
            r@ == (RequestModel { name: name@, amounts: amounts@ }),
    {
        Self { name, amounts }
    }

    pub fn name(&self) -> (r: &str)
        ensures
            r@ == self@.name,
    {
        self.name.as_str()
    }

    pub fn amounts(&self) -> (r: &[u32])
        ensures
            r@ == self@.amounts,
    {
        self.amounts.as_slice()
    }
}

} // verus!
