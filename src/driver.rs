//! Descriptors of the drivers that register themselves in the init-call table.
use vstd::prelude::*;

verus! {

/// What a driver reports about itself: its name and the devices it drives.
pub struct Driver<'a> {
    pub name: &'a str,
    pub compatible: &'a str,
}

impl Driver<'_> {
    /// The descriptor of the driver `name`, compatible with `compatible`.
    pub fn info<'a>(name: &'a str, compatible: &'a str) -> (r: Driver<'a>)
        ensures
            r.name@ == name@,
            r.compatible@ == compatible@,
    {
        Driver { name, compatible }
    }
}

/// One entry of the init-call table: the thunk that yields a driver's
/// descriptor (in the linked table, a plain `fn() -> Driver<'static>`).
pub struct CallEntry<F> {
    pub init_fn: F,
}

} // verus!
