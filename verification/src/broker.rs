//! Brokers: the institutions operations are attributed to.

use vstd::prelude::*;

verus! {

/// A broker record; ledger operations may name one.
#[derive(Debug, PartialEq)]
pub struct Broker {
    pub id: Option<String>,
    pub name: String,
    pub cnpj: Option<String>,
}

impl Clone for Broker {
    fn clone(&self) -> (res: Self)
        ensures
            res.id.deep_view() == self.id.deep_view(),
            res.name@ == self.name@,
            res.cnpj.deep_view() == self.cnpj.deep_view(),
    {
        let id: Option<String> = match &self.id {
            Some(i) => Some(i.clone()),
            None => None,
        };
        let cnpj: Option<String> = match &self.cnpj {
            Some(c) => Some(c.clone()),
            None => None,
        };
        Broker { id, name: self.name.clone(), cnpj }
    }
}

} // verus!
