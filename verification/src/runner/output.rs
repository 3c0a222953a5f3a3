//! Provides a trait that can be implemented to take output from a runner.

pub mod map;

use vstd::prelude::*;

verus! {

/// Something which can take the output of a runner.
pub trait RunnerOutput<T>: Sized {
    /// The values written so far, oldest first.
    spec fn written(&self) -> Seq<T>;

    /// Whether this output takes every value, now and after every write.
    spec fn open(&self) -> bool;

    /// Writes a value to output.
    fn write(&mut self, value: T)
        requires
            old(self).open(),
        ensures
            final(self).open(),
            final(self).written() == old(self).written().push(value),
    ;
}

impl<T> RunnerOutput<T> for Vec<T> {
    open spec fn written(&self) -> Seq<T> {
        self@
    }

    open spec fn open(&self) -> bool {
        true
    }

    /// Writes a value to this `Vec`, by pushing it onto the end.
    fn write(&mut self, value: T) {
        self.push(value)
    }
}

} // verus!
