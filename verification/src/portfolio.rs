//! Portfolios: named groupings that scope events and positions.

use vstd::prelude::*;

verus! {

/// A named portfolio; operations carry the portfolios they belong to,
/// and position queries can be scoped to one.
#[derive(Debug, PartialEq)]
pub struct Portfolio {
    pub id: Option<String>,
    pub name: String,
}

impl Clone for Portfolio {
    fn clone(&self) -> (res: Self)
        ensures
            res.id.deep_view() == self.id.deep_view(),
            res.name@ == self.name@,
    {
        let id: Option<String> = match &self.id {
            Some(i) => Some(i.clone()),
            None => None,
        };
        Portfolio { id, name: self.name.clone() }
    }
}

} // verus!
