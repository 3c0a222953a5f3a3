//! Provides a struct implementing `RunnerOutput` that maps the values passed to `.write()`.

use super::RunnerOutput;
use vstd::prelude::*;

verus! {

/// A struct implementing `RunnerOutput` that maps the values passed to
/// `.write()` and hands the results to another output.
#[verifier::reject_recursive_types(I)]
#[verifier::reject_recursive_types(B)]
#[verifier::reject_recursive_types(O)]
#[verifier::reject_recursive_types(T)]
pub struct Mapped<I, B: RunnerOutput<I>, O, T: Fn(O) -> I> {
    mapper: T,
    log: Ghost<Seq<O>>,
    base: B,
}

impl<I, B: RunnerOutput<I>, O, T: Fn(O) -> I> Mapped<I, B, O, T> {
    /// The function that maps the values.
    pub closed spec fn mapper(&self) -> T {
        self.mapper
    }

    /// What the output behind this one has been handed so far.
    pub closed spec fn base_written(&self) -> Seq<I> {
        self.base.written()
    }

    /// The values that were passed to `.write()`, oldest first.
    pub closed spec fn passed(&self) -> Seq<O> {
        self.log@
    }

    /// Whether the output behind takes every value and the function maps
    /// every value.
    pub closed spec fn usable(&self) -> bool {
        &&& self.base.open()
        &&& forall|value: O| self.mapper.requires((value,))
    }

    /// Maps the values passed to `.write()` through `mapper` before they
    /// reach `base`.
    pub fn new(base: B, mapper: T) -> (mapped: Self)
        requires
            base.open(),
            forall|value: O| mapper.requires((value,)),
        ensures
            mapped.usable(),
            mapped.passed() == Seq::<O>::empty(),
            mapped.base_written() == base.written(),
            mapped.mapper() == mapper,
    {
        Mapped { mapper, log: Ghost(Seq::empty()), base }
    }

    /// Gives back the output behind this one.
    pub fn into_base(self) -> (base: B)
        ensures
            base.written() == self.base_written(),
    {
        self.base
    }
}

impl<I, B: RunnerOutput<I>, O, T: Fn(O) -> I> RunnerOutput<O> for Mapped<I, B, O, T> {
    open spec fn written(&self) -> Seq<O> {
        self.passed()
    }

    open spec fn open(&self) -> bool {
        self.usable()
    }

    fn write(&mut self, value: O)
        ensures
            final(self).mapper() == old(self).mapper(),
            final(self).base_written().len() == old(self).base_written().len() + 1,
            final(self).base_written().drop_last() == old(self).base_written(),
            old(self).mapper().ensures((value,), final(self).base_written().last()),
    {
        let ghost before = self.base.written();
        let mapped = (self.mapper)(value);
        self.base.write(mapped);
        proof {
            self.log = Ghost(self.log@.push(value));
            assert(self.base.written().drop_last() == before);
        }
    }
}

} // verus!
