//! The application's data model: the calendars it has fetched, keyed by
//! their source name.

use std::collections::HashMap;

use vstd::prelude::*;

use crate::event::Calendar;

verus! {

/// The data the display is built from.
pub struct Model_ {
    /// Each fetched calendar, by source name.
    pub cals: HashMap<String, Calendar>,
}

/// A handle on the model data.
pub struct Model(pub Model_);

impl Model {
    /// A model holding no calendars.
    pub fn new() -> (r: Model)
        ensures
            r.0.cals@.len() == 0,
    {
        Model(Model_ { cals: HashMap::new() })
    }

    /// Mutable access to the model data.
    pub fn make_mut(&mut self) -> (r: &mut Model_)
        ensures
            *r == old(self).0,
            final(self).0 == *final(r),
    {
        &mut self.0
    }
}

} // verus!
