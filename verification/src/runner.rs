//! The interpreter: a tape machine that executes compiled programs.

pub mod output;

use crate::builder::types::CellValue;
use crate::machine::{blank, run_loop, Machine, Status};
use crate::program::{ops_of, run_list, Instruction, Op};
use crate::runner::output::RunnerOutput;
use vstd::prelude::*;
use vstd::slice::slice_to_vec;

verus! {

/// The residues of a sequence of cell values.
pub open spec fn residues<T: CellValue>(values: Seq<T>) -> Seq<int> {
    Seq::new(values.len(), |i: int| values[i].residue())
}

/// A structure which runs programs on a tape of `N` cells of type `T`.
///
/// Cell arithmetic wraps around. The pointer starts at cell 0 and never
/// leaves the tape: an instruction that would move it off either end stops
/// the runner instead. One activation of a loop makes at most `limit()`
/// passes; a loop that wants more stops the runner too.
pub struct Runner<const N: usize, O: RunnerOutput<T>, T: CellValue> {
    memory: [T; N],
    pointer: usize,
    input: Vec<T>,
    consumed: usize,
    output: O,
    status: Status,
    limit: u64,
}

impl<const N: usize, O: RunnerOutput<T>, T: CellValue> Runner<N, O, T> {
    /// The pointer addresses a cell, no more input was consumed than there
    /// is, and the output takes every value. Every runner made by `new` is
    /// well formed and stays so.
    pub closed spec fn wf(&self) -> bool {
        &&& self.pointer < N
        &&& self.consumed <= self.input@.len()
        &&& self.output.open()
    }

    /// The machine state this runner holds.
    pub closed spec fn view(&self) -> Machine {
        Machine {
            tape: residues(self.memory@),
            pointer: self.pointer as int,
            input: residues(self.input@.skip(self.consumed as int)),
            output: residues(self.output.written()),
            status: self.status,
        }
    }

    /// The number of passes one activation of a loop may make.
    pub closed spec fn limit(&self) -> nat {
        self.limit as nat
    }

    /// Constructs a new runner given some input and an output: every cell
    /// zero, the pointer at cell 0, and the largest possible limit.
    pub fn new(input: &[T], output: O) -> (r: Self)
        requires
            N > 0,
            output.open(),
        ensures
            r@ == (Machine {
                output: residues(output.written()),
                ..blank(N as nat, residues(input@))
            }),
            r.limit() == u64::MAX,
            r.wf(),
    {
        let input = slice_to_vec(input);
        let r = Self {
            memory: vstd::array::array_fill_for_copy_types(T::ZERO),
            pointer: 0,
            input,
            consumed: 0,
            output,
            status: Status::Running,
            limit: u64::MAX,
        };
        proof {
            T::modular();
            broadcast use vstd::array::axiom_spec_array_fill_for_copy_type;
            assert(r.input@.skip(0) == r.input@);
            assert(r@.tape =~= Seq::new(N as nat, |i: int| 0int));
        }
        r
    }

    /// Sets the number of passes one activation of a loop may make.
    pub fn set_limit(&mut self, limit: u64)
        requires
            old(self).wf(),
        ensures
            final(self).wf(),
            final(self)@ == old(self)@,
            final(self).limit() == limit,
    {
        self.limit = limit;
    }

    /// Whether this runner still runs, and if not, why it stopped.
    pub fn status(&self) -> (s: Status)
        ensures
            s == self@.status,
    {
        self.status
    }

    /// The index of the current cell.
    pub fn pointer(&self) -> (p: usize)
        ensures
            p == self@.pointer,
    {
        self.pointer
    }

    /// The output, with what was written so far.
    pub fn output(&self) -> (out: &O)
        ensures
            residues(out.written()) == self@.output,
    {
        &self.output
    }

    /// Ends the run and hands over the output.
    pub fn into_output(self) -> (out: O)
        ensures
            residues(out.written()) == self@.output,
    {
        self.output
    }

    /// The cells of the tape.
    pub fn memory(&self) -> (cells: &[T; N])
        requires
            self.wf(),
        ensures
            residues(cells@) == self@.tape,
            self@.wf(),
    {
        &self.memory
    }

    /// Increments the currently pointed at cell.
    pub fn inc(&mut self)
        requires
            old(self).wf(),
        ensures
            final(self).wf(),
            final(self)@ == old(self)@.step(Op::Inc, T::modulus()),
            final(self).limit() == old(self).limit(),
    {
        if self.status == Status::Running {
            let value = self.memory[self.pointer].inc();
            self.memory[self.pointer] = value;
            proof {
                assert(self@.tape =~= old(self)@.tape.update(
                    old(self)@.pointer,
                    value.residue(),
                ));
            }
        }
    }

    /// Decrements the currently pointed at cell.
    pub fn dec(&mut self)
        requires
            old(self).wf(),
        ensures
            final(self).wf(),
            final(self)@ == old(self)@.step(Op::Dec, T::modulus()),
            final(self).limit() == old(self).limit(),
    {
        if self.status == Status::Running {
            let value = self.memory[self.pointer].dec();
            self.memory[self.pointer] = value;
            proof {
                assert(self@.tape =~= old(self)@.tape.update(
                    old(self)@.pointer,
                    value.residue(),
                ));
            }
        }
    }

    /// Moves the pointer to the left, or stops the runner at the left end.
    pub fn shl(&mut self)
        requires
            old(self).wf(),
        ensures
            final(self).wf(),
            final(self)@ == old(self)@.step(Op::Shl, T::modulus()),
            final(self).limit() == old(self).limit(),
    {
        if self.status == Status::Running {
            if self.pointer > 0 {
                self.pointer -= 1;
            } else {
                self.status = Status::OutOfBounds;
            }
        }
    }

    /// Moves the pointer to the right, or stops the runner at the right end.
    pub fn shr(&mut self)
        requires
            old(self).wf(),
        ensures
            final(self).wf(),
            final(self)@ == old(self)@.step(Op::Shr, T::modulus()),
            final(self).limit() == old(self).limit(),
    {
        if self.status == Status::Running {
            if self.pointer + 1 < N {
                self.pointer += 1;
            } else {
                self.status = Status::OutOfBounds;
            }
        }
    }

    /// Reads the next input value into the current cell, or leaves the cell
    /// as it is if there is no input left.
    pub fn read(&mut self)
        requires
            old(self).wf(),
        ensures
            final(self).wf(),
            final(self)@ == old(self)@.step(Op::Read, T::modulus()),
            final(self).limit() == old(self).limit(),
    {
        if self.status == Status::Running {
            if self.consumed < self.input.len() {
                let value = self.input[self.consumed];
                self.memory[self.pointer] = value;
                self.consumed += 1;
                proof {
                    let before = old(self).input@.skip(old(self).consumed as int);
                    assert(self.input@.skip(self.consumed as int) == before.drop_first());
                    assert(before.first() == value);
                    assert(self@.input =~= old(self)@.input.drop_first());
                    assert(self@.tape =~= old(self)@.tape.update(
                        old(self)@.pointer,
                        value.residue(),
                    ));
                }
            }
        }
    }

    /// Writes the current cell to the output.
    pub fn write(&mut self)
        requires
            old(self).wf(),
        ensures
            final(self).wf(),
            final(self)@ == old(self)@.step(Op::Write, T::modulus()),
            final(self).limit() == old(self).limit(),
    {
        if self.status == Status::Running {
            let value = self.memory[self.pointer];
            self.output.write(value);
            proof {
                assert(self@.output =~= old(self)@.output.push(value.residue()));
            }
        }
    }

    /// Repeats `body` while the currently pointed at cell is nonzero. The
    /// cell is tested before every pass, the first one included.
    pub fn repeat(&mut self, body: &Vec<Instruction>)
        requires
            old(self).wf(),
        ensures
            final(self).wf(),
            final(self)@ == run_loop(
                ops_of(body@),
                old(self)@,
                T::modulus(),
                old(self).limit(),
                old(self).limit(),
            ),
            final(self).limit() == old(self).limit(),
        decreases body, 1nat,
    {
        let mut left = self.limit;
        loop
            invariant
                self.wf(),
                self.limit() == old(self).limit(),
                left <= self.limit,
                run_loop(ops_of(body@), self@, T::modulus(), self.limit(), left as nat)
                    == run_loop(
                    ops_of(body@),
                    old(self)@,
                    T::modulus(),
                    old(self).limit(),
                    old(self).limit(),
                ),
            ensures
                self.wf(),
                self.limit() == old(self).limit(),
                self@ == run_loop(
                    ops_of(body@),
                    old(self)@,
                    T::modulus(),
                    old(self).limit(),
                    old(self).limit(),
                ),
            decreases left,
        {
            if self.status != Status::Running || self.memory[self.pointer].is_zero() {
                break ;
            }
            if left == 0 {
                self.status = Status::LimitReached;
                break ;
            }
            left -= 1;
            run_list(body, self);
        }
    }
}

} // verus!
