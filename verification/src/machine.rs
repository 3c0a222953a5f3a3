//! What a program means: the tape machine as a mathematical object.

use crate::builder::types::{pred, succ};
use crate::program::Op;
use vstd::prelude::*;

verus! {

/// Whether a machine can still execute instructions, and if not, why.
#[derive(Clone, Copy, PartialEq, Eq, Debug, Structural)]
pub enum Status {
    /// Nothing has gone wrong so far.
    Running,
    /// An instruction tried to move the pointer off either end of the tape.
    OutOfBounds,
    /// One activation of a loop wanted more passes than the limit allows.
    LimitReached,
}

/// The state of a tape machine. Cells hold residues, output and remaining
/// input are sequences of residues.
pub struct Machine {
    /// The cells of the tape.
    pub tape: Seq<int>,
    /// The index of the current cell.
    pub pointer: int,
    /// The input that has not been read yet.
    pub input: Seq<int>,
    /// The output written so far.
    pub output: Seq<int>,
    /// Whether the machine still runs.
    pub status: Status,
}

impl Machine {
    /// The pointer addresses a cell of the tape.
    pub open spec fn wf(self) -> bool {
        0 <= self.pointer < self.tape.len()
    }

    /// Whether instructions still have an effect.
    pub open spec fn running(self) -> bool {
        self.status == Status::Running
    }

    /// The value of the current cell.
    pub open spec fn current(self) -> int {
        self.tape[self.pointer]
    }

    /// Every cell holds a residue of `modulus`.
    pub open spec fn fits(self, modulus: int) -> bool {
        forall|i: int| 0 <= i < self.tape.len() ==> 0 <= #[trigger] self.tape[i] < modulus
    }

    /// The machine runs, its pointer is on the tape, and every cell holds a
    /// residue of `modulus`.
    pub open spec fn ok(self, modulus: int) -> bool {
        &&& self.running()
        &&& self.wf()
        &&& self.fits(modulus)
    }

    /// This machine with the pointer moved to `pointer`.
    pub open spec fn at(self, pointer: int) -> Machine {
        Machine { pointer, ..self }
    }

    /// This machine with another tape.
    pub open spec fn with_tape(self, tape: Seq<int>) -> Machine {
        Machine { tape, ..self }
    }

    /// This machine with the current cell replaced.
    pub open spec fn store(self, value: int) -> Machine {
        Machine { tape: self.tape.update(self.pointer, value), ..self }
    }

    /// This machine, stopped for the given reason.
    pub open spec fn stop(self, status: Status) -> Machine {
        Machine { status, ..self }
    }

    /// The effect of one instruction that is not a loop. A stopped machine
    /// stays as it is. Moving off the tape stops the machine. Reading from
    /// exhausted input leaves the cell unchanged.
    pub open spec fn step(self, op: Op, modulus: int) -> Machine {
        if !self.running() {
            self
        } else {
            match op {
                Op::Inc => self.store(succ(self.current(), modulus)),
                Op::Dec => self.store(pred(self.current(), modulus)),
                Op::Shl => if self.pointer > 0 {
                    Machine { pointer: self.pointer - 1, ..self }
                } else {
                    self.stop(Status::OutOfBounds)
                },
                Op::Shr => if self.pointer + 1 < self.tape.len() {
                    Machine { pointer: self.pointer + 1, ..self }
                } else {
                    self.stop(Status::OutOfBounds)
                },
                Op::Read => if self.input.len() > 0 {
                    Machine { input: self.input.drop_first(), ..self.store(self.input.first()) }
                } else {
                    self
                },
                Op::Write => Machine { output: self.output.push(self.current()), ..self },
                Op::Repeat(_) => self,
            }
        }
    }
}

/// The machine before anything ran: `cells` cells, all zero, the pointer on
/// the first, all of `input` unread, nothing written.
pub open spec fn blank(cells: nat, input: Seq<int>) -> Machine {
    Machine {
        tape: Seq::new(cells, |i: int| 0int),
        pointer: 0,
        input,
        output: Seq::empty(),
        status: Status::Running,
    }
}

/// The machine after `op`. A loop runs its body for as long as the current
/// cell is nonzero, testing before every pass; one activation of a loop makes
/// at most `limit` passes, and stops the machine if it wants another.
pub open spec fn run_op(op: Op, st: Machine, modulus: int, limit: nat) -> Machine
    decreases op, 0nat, 0nat,
{
    match op {
        Op::Repeat(body) => run_loop(body, st, modulus, limit, limit),
        _ => st.step(op, modulus),
    }
}

/// The machine after the nodes of `ops`, in order.
pub open spec fn run(ops: Seq<Op>, st: Machine, modulus: int, limit: nat) -> Machine
    decreases ops, 0nat, 0nat,
{
    if ops.len() == 0 {
        st
    } else {
        run_op(ops.last(), run(ops.drop_last(), st, modulus, limit), modulus, limit)
    }
}

/// The machine after a loop over `body` that may still make `left` passes.
pub open spec fn run_loop(
    body: Seq<Op>,
    st: Machine,
    modulus: int,
    limit: nat,
    left: nat,
) -> Machine
    decreases body, 1nat, left,
{
    if !st.running() || st.current() == 0 {
        st
    } else if left == 0 {
        st.stop(Status::LimitReached)
    } else {
        run_loop(body, run(body, st, modulus, limit), modulus, limit, (left - 1) as nat)
    }
}

/// Running two pieces of code in a row is running the second on what the
/// first leaves.
pub proof fn lemma_run_concat(
    first: Seq<Op>,
    second: Seq<Op>,
    st: Machine,
    modulus: int,
    limit: nat,
)
    ensures
        run(first + second, st, modulus, limit) == run(
            second,
            run(first, st, modulus, limit),
            modulus,
            limit,
        ),
    decreases second.len(),
{
    if second.len() == 0 {
        assert(first + second == first);
    } else {
        lemma_run_concat(first, second.drop_last(), st, modulus, limit);
        assert((first + second).drop_last() == first + second.drop_last());
        assert((first + second).last() == second.last());
    }
}

/// Running code and then one more node.
pub proof fn lemma_run_push(ops: Seq<Op>, op: Op, st: Machine, modulus: int, limit: nat)
    ensures
        run(ops.push(op), st, modulus, limit) == run_op(
            op,
            run(ops, st, modulus, limit),
            modulus,
            limit,
        ),
{
    assert(ops.push(op).drop_last() == ops);
    assert(ops.push(op).last() == op);
}

/// A stopped machine ignores whatever code it is given.
pub proof fn lemma_stopped(ops: Seq<Op>, st: Machine, modulus: int, limit: nat)
    requires
        !st.running(),
    ensures
        run(ops, st, modulus, limit) == st,
    decreases ops.len(),
{
    if ops.len() > 0 {
        lemma_stopped(ops.drop_last(), st, modulus, limit);
        let last = ops.last();
        assert(run(ops, st, modulus, limit) == run_op(last, st, modulus, limit));
        match last {
            Op::Repeat(body) => {
                assert(run_loop(body, st, modulus, limit, limit) == st);
                assert(run_op(last, st, modulus, limit) == st);
            },
            _ => {
                assert(st.step(last, modulus) == st);
                assert(run_op(last, st, modulus, limit) == st);
            },
        }
    }
}

} // verus!
