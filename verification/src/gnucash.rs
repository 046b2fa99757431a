use crate::assets::str_eq;
use vstd::prelude::*;

verus! {

/// A commodity that could not be processed, by its identifier.
#[derive(Debug)]
pub struct CommodityError {
    pub commodity_id: String,
}

/// A tradable commodity from the accounting book: a fund, a currency, or
/// another instrument, identified by its ticker-like id within a namespace.
#[derive(Debug, Clone)]
pub struct Commodity {
    pub guid: Option<String>,
    pub id: String,
    pub space: Option<String>,
    pub name: String,
}

impl Commodity {
    /// Build a commodity whose name may be missing; an unnamed commodity
    /// falls back to its id.
    pub fn new(
        guid: Option<String>,
        id: String,
        space: Option<String>,
        name: Option<String>,
    ) -> (c: Commodity)
        ensures
            c.guid == guid,
            c.space == space,
            c.id@ == id@,
            (match name {
                Some(n) => c.name@ == n@,
                None => c.name@ == id@,
            }),
    {
        let name_val = match name {
            Some(commodity_name) => commodity_name,
            None => id.clone(),
        };
        Commodity { guid, space, name: name_val, id }
    }

    /// Whether this commodity is a fund holding: its namespace is "FUND".
    pub fn is_investment(&self) -> (r: bool)
        ensures
            r == (match self.space {
                Some(s) => s@ == "FUND"@,
                None => false,
            }),
    {
        match &self.space {
            Some(space) => str_eq(space.as_str(), "FUND"),
            None => false,
        }
    }
}

} // verus!
