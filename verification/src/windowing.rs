use vstd::prelude::*;

use std::time::Duration;

verus! {

/// Something that advances with the time elapsed between two frames.
pub trait Updatable {
    type Error;

    fn update(&mut self, delta: Duration) -> Result<(), Self::Error>;
}

} // verus!
