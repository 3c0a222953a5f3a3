//! Operations on cells that are built from the primitive ones.

use crate::builder::allocator::{
    after_allocs, first_free, fresh, lemma_first_free, lemma_fresh, room, Builder, Cell,
};
use crate::builder::code::{
    clear, clone_from_code, copy_code, drain, drain_steps, into_copies_code, join, moves, pour,
    pour_out, relocate, set_code, stop, swap_code, visit, zeros_code,
};
use crate::builder::trace::{lemma_regroup, lemma_start, Trace};
use crate::builder::types::CellValue;
use crate::program::{render, Op};
use vstd::prelude::*;

verus! {

/// The addresses of a list of cells.
pub open spec fn addrs<const N: usize, T: CellValue>(cells: Seq<&Cell<N, T>>) -> Seq<int> {
    Seq::new(cells.len(), |i: int| cells[i].addr())
}

/// The addresses of a list of cells.
pub open spec fn places<const N: usize, T: CellValue>(cells: Seq<Cell<N, T>>) -> Seq<int> {
    Seq::new(cells.len(), |i: int| cells[i].addr())
}

/// References to the cells of `cells`, in order.
pub(crate) fn borrow_all<const N: usize, T: CellValue>(cells: &Vec<Cell<N, T>>) -> (refs: Vec<
    &Cell<N, T>,
>)
    ensures
        refs@.len() == cells@.len(),
        forall|i: int| 0 <= i < cells@.len() ==> *(#[trigger] refs@[i]) == cells@[i],
{
    let mut refs: Vec<&Cell<N, T>> = Vec::new();
    let mut i: usize = 0;
    while i < cells.len()
        invariant
            i <= cells@.len(),
            refs@.len() == i,
            forall|k: int| 0 <= k < i ==> *(#[trigger] refs@[k]) == cells@[k],
        decreases cells@.len() - i,
    {
        refs.push(&cells[i]);
        i += 1;
    }
    refs
}

/// Allocates `count` cells and clears each, keeping the record.
pub(crate) fn fresh_cells_in<const N: usize, T: CellValue>(
    b: &mut Builder<N, T>,
    count: usize,
    Ghost(tr): Ghost<Trace>,
) -> (res: (Vec<Cell<N, T>>, Ghost<Trace>))
    requires
        old(b).wf(),
        old(b).text() == tr.text(),
        room(old(b).allocations(), count as nat),
    ensures
        final(b).wf(),
        final(b).text() == res.1@.text(),
        final(b).cursor() == stop(old(b).cursor(), fresh(old(b).allocations(), count as nat)),
        final(b).allocations() == after_allocs(old(b).allocations(), count as nat),
        places(res.0@) == fresh(old(b).allocations(), count as nat),
        forall|i: int| 0 <= i < count ==> final(b).owns(#[trigger] &res.0@[i]),
        forall|a: int|
            0 <= a < N && old(b).allocations()[a] ==> #[trigger] final(b).allocations()[a],
        res.1@ == tr.emit(
            zeros_code(old(b).cursor(), fresh(old(b).allocations(), count as nat)),
        ),
{
    let ghost start = b.allocations();
    let ghost from = b.cursor();
    let ghost all = fresh(start, count as nat);
    let mut cells: Vec<Cell<N, T>> = Vec::new();
    let ghost mut cur = tr;
    proof {
        assert(all.take(0) == Seq::<int>::empty());
        assert(join(tr.code, Seq::<Op>::empty()) =~= tr.code);
        b.tape_len();
    }
    let mut i: usize = 0;
    while i < count
        invariant
            i <= count,
            all == fresh(start, count as nat),
            room(start, count as nat),
            b.wf(),
            b.text() == cur.text(),
            b.cursor() == stop(from, all.take(i as int)),
            b.allocations() == after_allocs(start, i as nat),
            b.allocations().len() == start.len(),
            start.len() == N,
            cells@.len() == i,
            forall|k: int| 0 <= k < i ==> (#[trigger] cells@[k]).addr() == all[k],
            forall|k: int| 0 <= k < i ==> b.owns(#[trigger] &cells@[k]),
            forall|a: int| 0 <= a < N && start[a] ==> #[trigger] b.allocations()[a],
            cur == tr.emit(zeros_code(from, all.take(i as int))),
        decreases count - i,
    {
        let ghost so_far = zeros_code(from, all.take(i as int));
        let ghost piece = set_code(b.cursor(), all[i as int], 0);
        proof {
            assert(first_free(after_allocs(start, i as nat), 0) < start.len());
            assert(all.take(i + 1).drop_last() == all.take(i as int));
            assert(all.take(i + 1).last() == all[i as int]);
            lemma_regroup(tr, so_far, piece);
            assert(piece.len() > 0);
            if i > 0 {
                assert(all.take(i as int).last() == all[i - 1]);
                assert(so_far.len() > 0);
            }
        }
        let (cell, Ghost(next)) = b.cell_in(0, Ghost(cur));
        cells.push(cell);
        proof {
            cur = next;
        }
        i += 1;
    }
    proof {
        assert(all.take(count as int) == all);
        assert(places(cells@) =~= all);
    }
    (cells, Ghost(cur))
}

/// The operation a draining loop performs on its targets: an increment when
/// counting up, a decrement otherwise.
pub open spec fn step_op(up: bool) -> Op {
    if up {
        Op::Inc
    } else {
        Op::Dec
    }
}

impl<const N: usize, T: CellValue> Cell<N, T> {
    /// Increments or decrements this cell, keeping the record.
    pub(crate) fn step_in(
        &self,
        b: &mut Builder<N, T>,
        up: bool,
        Ghost(tr): Ghost<Trace>,
    ) -> (res: Ghost<Trace>)
        requires
            old(b).ready(self, tr),
        ensures
            final(b).traced(old(b), res@, self.addr()),
            res@ == tr.emit(visit(old(b).cursor(), self.addr(), step_op(up))),
    {
        if up {
            self.inc_in(b, Ghost(tr))
        } else {
            self.dec_in(b, Ghost(tr))
        }
    }

    /// Writes the loop that drains this cell into `others`, keeping the
    /// record.
    pub(crate) fn drain_in(
        &self,
        b: &mut Builder<N, T>,
        others: &[&Cell<N, T>],
        up: bool,
        Ghost(tr): Ghost<Trace>,
    ) -> (res: Ghost<Trace>)
        requires
            old(b).ready(self, tr),
            forall|i: int| 0 <= i < others@.len() ==> old(b).owns(#[trigger] others@[i]),
        ensures
            final(b).traced(old(b), res@, self.addr()),
            res@ == tr.emit(
                drain(old(b).cursor(), self.addr(), addrs(others@), step_op(up)),
            ),
    {
        let ghost targets = addrs(others@);
        let ghost source = self.addr();
        let ghost entered = tr.enter(moves(b.cursor(), source));
        let Ghost(opened) = self.open_in(b, Ghost(tr));
        let Ghost(first) = self.dec_in(b, Ghost(opened));
        let ghost mut cur = first;
        proof {
            assert(targets.take(0) == Seq::<int>::empty());
        }
        let mut i: usize = 0;
        while i < others.len()
            invariant
                i <= others@.len(),
                targets == addrs(others@),
                source == self.addr(),
                b.ready(self, cur),
                b.allocations() == old(b).allocations(),
                b.cursor() == stop(source, targets.take(i as int)),
                forall|k: int| 0 <= k < others@.len() ==> old(b).owns(#[trigger] others@[k]),
                cur == (Trace {
                    code: drain_steps(source, targets.take(i as int), step_op(up)),
                    ..entered
                }),
            decreases others@.len() - i,
        {
            proof {
                assert(old(b).owns(others@[i as int]));
                assert(targets.take(i + 1).drop_last() == targets.take(i as int));
                assert(targets.take(i + 1).last() == others@[i as int].addr());
            }
            let Ghost(next) = others[i].step_in(b, up, Ghost(cur));
            proof {
                cur = next;
            }
            i += 1;
        }
        proof {
            assert(targets.take(others@.len() as int) == targets);
            assert(entered.stack.drop_last() == tr.stack);
        }
        self.close_in(b, Ghost(cur))
    }

    /// Adds the contents of this cell into several others, zeroing this
    /// cell in the process.
    pub fn add_into_all_and_zero(&self, b: &mut Builder<N, T>, others: &[&Cell<N, T>])
        requires
            old(b).wf(),
            old(b).owns(self),
            forall|i: int| 0 <= i < others@.len() ==> old(b).owns(#[trigger] others@[i]),
        ensures
            final(b).wf(),
            final(b).extends(
                old(b),
                drain(old(b).cursor(), self.addr(), addrs(others@), Op::Inc),
                self.addr(),
            ),
    {
        let ghost tr = Trace::start(b.text());
        proof {
            lemma_start(b.text(), drain(b.cursor(), self.addr(), addrs(others@), Op::Inc));
        }
        let _ = self.drain_in(b, others, true, Ghost(tr));
    }

    /// Moves the contents of this cell into a new cell, keeping the record.
    pub(crate) fn move_and_zero_in(&self, b: &mut Builder<N, T>, Ghost(tr): Ghost<Trace>) -> (res: (
        Cell<N, T>,
        Ghost<Trace>,
    ))
        requires
            old(b).ready(self, tr),
            old(b).lowest_free() < N,
        ensures
            final(b).wf(),
            final(b).owns(&res.0),
            res.0.addr() == old(b).lowest_free(),
            final(b).text() == res.1@.text(),
            final(b).cursor() == self.addr(),
            final(b).allocations() == old(b).allocations().update(res.0.addr(), true),
            res.1@ == tr.emit(relocate(old(b).cursor(), self.addr(), res.0.addr())),
    {
        let ghost from = b.cursor();
        let (output, Ghost(mid)) = b.cell_in(0, Ghost(tr));
        let ghost fresh = output.addr();
        let targets = [&output];
        let Ghost(end) = self.drain_in(b, targets.as_slice(), true, Ghost(mid));
        proof {
            assert(addrs::<N, T>(targets@) == seq![fresh]);
            assert(set_code(from, fresh, 0).len() > 0);
            assert(drain(fresh, self.addr(), seq![fresh], Op::Inc).len() > 0);
            lemma_regroup(
                tr,
                set_code(from, fresh, 0),
                drain(fresh, self.addr(), seq![fresh], Op::Inc),
            );
        }
        (output, Ghost(end))
    }

    /// Moves the contents of this cell into a new cell, zeroing this cell in
    /// the process. Returns the new cell.
    pub fn move_and_zero(&self, b: &mut Builder<N, T>) -> (output: Cell<N, T>)
        requires
            old(b).wf(),
            old(b).owns(self),
            old(b).lowest_free() < N,
        ensures
            final(b).wf(),
            final(b).owns(&output),
            output.addr() == old(b).lowest_free(),
            final(b).text() == old(b).text() + render(
                relocate(old(b).cursor(), self.addr(), output.addr()),
            ),
            final(b).cursor() == self.addr(),
            final(b).allocations() == old(b).allocations().update(output.addr(), true),
    {
        let ghost tr = Trace::start(b.text());
        proof {
            lemma_start(b.text(), relocate(b.cursor(), self.addr(), b.lowest_free()));
        }
        let (output, _) = self.move_and_zero_in(b, Ghost(tr));
        output
    }

    /// Moves the contents of this cell into another cell, keeping the
    /// record.
    pub(crate) fn move_into_and_zero_in(
        &self,
        b: &mut Builder<N, T>,
        output: &Cell<N, T>,
        Ghost(tr): Ghost<Trace>,
    ) -> (res: Ghost<Trace>)
        requires
            old(b).ready(self, tr),
            old(b).owns(output),
        ensures
            final(b).traced(old(b), res@, self.addr()),
            res@ == tr.emit(pour(old(b).cursor(), self.addr(), output.addr())),
    {
        let ghost from = b.cursor();
        let Ghost(mid) = output.zero_in(b, Ghost(tr));
        let targets = [output];
        let Ghost(end) = self.drain_in(b, targets.as_slice(), true, Ghost(mid));
        proof {
            assert(addrs::<N, T>(targets@) == seq![output.addr()]);
            assert(visit(from, output.addr(), clear()).len() > 0);
            assert(drain(output.addr(), self.addr(), seq![output.addr()], Op::Inc).len() > 0);
            lemma_regroup(
                tr,
                visit(from, output.addr(), clear()),
                drain(output.addr(), self.addr(), seq![output.addr()], Op::Inc),
            );
        }
        Ghost(end)
    }

    /// Moves the contents of this cell into another cell, zeroing this cell
    /// afterwards.
    pub fn move_into_and_zero(&self, b: &mut Builder<N, T>, output: &Cell<N, T>)
        requires
            old(b).wf(),
            old(b).owns(self),
            old(b).owns(output),
        ensures
            final(b).wf(),
            final(b).extends(
                old(b),
                pour(old(b).cursor(), self.addr(), output.addr()),
                self.addr(),
            ),
    {
        let ghost tr = Trace::start(b.text());
        proof {
            lemma_start(b.text(), pour(b.cursor(), self.addr(), output.addr()));
        }
        let _ = self.move_into_and_zero_in(b, output, Ghost(tr));
    }

    /// Moves the contents of this cell into another cell and ends this
    /// cell's life, keeping the record.
    pub(crate) fn move_into_in(
        self,
        b: &mut Builder<N, T>,
        output: &Cell<N, T>,
        Ghost(tr): Ghost<Trace>,
    ) -> (res: Ghost<Trace>)
        requires
            old(b).ready(&self, tr),
            old(b).owns(output),
        ensures
            final(b).wf(),
            final(b).text() == res@.text(),
            final(b).cursor() == self.addr(),
            final(b).allocations() == old(b).allocations().update(self.addr(), false),
            res@ == tr.emit(pour_out(old(b).cursor(), self.addr(), output.addr())),
    {
        let ghost from = b.cursor();
        let Ghost(mid) = self.move_into_and_zero_in(b, output, Ghost(tr));
        proof {
            assert(pour(from, self.addr(), output.addr()).len() > 0);
            assert(visit(self.addr(), self.addr(), clear()).len() > 0);
            lemma_regroup(
                tr,
                pour(from, self.addr(), output.addr()),
                visit(self.addr(), self.addr(), clear()),
            );
        }
        self.drop_in(b, Ghost(mid))
    }

    /// Moves the contents of this cell into another cell, dropping this cell
    /// afterwards.
    pub fn move_into(self, b: &mut Builder<N, T>, output: &Cell<N, T>)
        requires
            old(b).wf(),
            old(b).owns(&self),
            old(b).owns(output),
        ensures
            final(b).wf(),
            final(b).text() == old(b).text() + render(
                pour_out(old(b).cursor(), self.addr(), output.addr()),
            ),
            final(b).cursor() == self.addr(),
            final(b).allocations() == old(b).allocations().update(self.addr(), false),
    {
        let ghost tr = Trace::start(b.text());
        proof {
            lemma_start(b.text(), pour_out(b.cursor(), self.addr(), output.addr()));
        }
        let _ = self.move_into_in(b, output, Ghost(tr));
    }

    /// Swaps the values of two cells.
    pub fn swap(&self, b: &mut Builder<N, T>, other: &Cell<N, T>)
        requires
            old(b).wf(),
            old(b).owns(self),
            old(b).owns(other),
            old(b).lowest_free() < N,
        ensures
            final(b).wf(),
            final(b).extends(
                old(b),
                swap_code(old(b).cursor(), self.addr(), other.addr(), old(b).lowest_free()),
                old(b).lowest_free(),
            ),
    {
        let ghost tr = Trace::start(b.text());
        let ghost from = b.cursor();
        let ghost fresh_addr = b.lowest_free();
        proof {
            b.tape_len();
            lemma_first_free(b.allocations(), 0);
            lemma_start(b.text(), swap_code(from, self.addr(), other.addr(), fresh_addr));
        }
        let (temp, Ghost(t1)) = self.move_and_zero_in(b, Ghost(tr));
        let Ghost(t2) = other.move_into_and_zero_in(b, self, Ghost(t1));
        let Ghost(t3) = temp.move_into_in(b, other, Ghost(t2));
        proof {
            assert(relocate(from, self.addr(), fresh_addr).len() > 0);
            assert(pour(self.addr(), other.addr(), self.addr()).len() > 0);
            assert(pour_out(other.addr(), fresh_addr, other.addr()).len() > 0);
            assert(b.allocations() =~= old(b).allocations());
        }
    }

    /// Turns this cell into several new cells that each hold its value, and
    /// destroys this cell. If you need to keep this cell intact after
    /// copying, use `.copy()` instead.
    pub fn into_copies(self, b: &mut Builder<N, T>, count: usize) -> (cells: Vec<Cell<N, T>>)
        requires
            old(b).wf(),
            old(b).owns(&self),
            room(old(b).allocations(), count as nat),
        ensures
            final(b).wf(),
            final(b).text() == old(b).text() + render(
                into_copies_code(
                    old(b).cursor(),
                    self.addr(),
                    fresh(old(b).allocations(), count as nat),
                ),
            ),
            final(b).cursor() == self.addr(),
            final(b).allocations() == after_allocs(old(b).allocations(), count as nat).update(
                self.addr(),
                false,
            ),
            places(cells@) == fresh(old(b).allocations(), count as nat),
            forall|i: int| 0 <= i < count ==> final(b).owns(#[trigger] &cells@[i]),
    {
        let ghost tr = Trace::start(b.text());
        let ghost from = b.cursor();
        let ghost all = fresh(b.allocations(), count as nat);
        proof {
            b.tape_len();
            lemma_start(b.text(), into_copies_code(from, self.addr(), all));
        }
        let (cells, Ghost(t1)) = fresh_cells_in(b, count, Ghost(tr));
        let refs = borrow_all(&cells);
        proof {
            assert(addrs(refs@) =~= all);
            assert forall|i: int| 0 <= i < refs@.len() implies b.owns(#[trigger] refs@[i]) by {
                assert(b.owns(&cells@[i]));
            }
        }
        let Ghost(t2) = self.drain_in(b, refs.as_slice(), true, Ghost(t1));
        let Ghost(t3) = self.drop_in(b, Ghost(t2));
        proof {
            assert(drain(stop(from, all), self.addr(), all, Op::Inc).len() > 0);
            assert(visit(self.addr(), self.addr(), clear()).len() > 0);
            lemma_fresh(old(b).allocations(), count as nat);
            assert forall|i: int| 0 <= i < count implies b.owns(#[trigger] &cells@[i]) by {
                assert(places(cells@)[i] == cells@[i].addr());
                assert(all[i] == cells@[i].addr());
            }
        }
        cells
    }

    /// Makes several new cells that each hold the value of this cell, and
    /// keeps this cell intact. Prefer `.into_copies()` when possible, as it
    /// generates much shorter code by not needing a temporary cell.
    pub fn copy(&self, b: &mut Builder<N, T>, count: usize) -> (cells: Vec<Cell<N, T>>)
        requires
            old(b).wf(),
            old(b).owns(self),
            count < usize::MAX,
            room(old(b).allocations(), (count + 1) as nat),
        ensures
            final(b).wf(),
            final(b).text() == old(b).text() + render(
                copy_code(
                    old(b).cursor(),
                    self.addr(),
                    fresh(old(b).allocations(), count as nat),
                    first_free(after_allocs(old(b).allocations(), count as nat), 0),
                ),
            ),
            final(b).cursor() == first_free(after_allocs(old(b).allocations(), count as nat), 0),
            final(b).allocations() == after_allocs(old(b).allocations(), count as nat),
            places(cells@) == fresh(old(b).allocations(), count as nat),
            forall|i: int| 0 <= i < count ==> final(b).owns(#[trigger] &cells@[i]),
    {
        let ghost tr = Trace::start(b.text());
        let ghost from = b.cursor();
        let ghost start = b.allocations();
        let ghost all = fresh(start, count as nat);
        let ghost spare = first_free(after_allocs(start, count as nat), 0);
        proof {
            b.tape_len();
            lemma_start(b.text(), copy_code(from, self.addr(), all, spare));
            assert(room(start, count as nat));
            assert(first_free(after_allocs(start, count as nat), 0) < start.len());
        }
        let (cells, Ghost(t1)) = fresh_cells_in(b, count, Ghost(tr));
        let ghost marked = b.allocations();
        proof {
            b.tape_len();
            lemma_first_free(marked, 0);
        }
        let (temp, Ghost(t2)) = b.cell_in(0, Ghost(t1));
        let mut refs = borrow_all(&cells);
        refs.push(&temp);
        proof {
            assert(addrs(refs@) =~= all.push(spare));
            assert forall|i: int| 0 <= i < refs@.len() implies b.owns(#[trigger] refs@[i]) by {
                if i < count {
                    assert(marked[cells@[i].addr()]) by {
                        assert(places(cells@)[i] == cells@[i].addr());
                    }
                }
            }
        }
        let Ghost(t3) = self.drain_in(b, refs.as_slice(), true, Ghost(t2));
        let back = [self];
        let Ghost(t4) = temp.drain_in(b, back.as_slice(), true, Ghost(t3));
        let Ghost(t5) = temp.drop_in(b, Ghost(t4));
        proof {
            assert(addrs::<N, T>(back@) == seq![self.addr()]);
            let longer = all.push(spare);
            assert(longer.drop_last() == all);
            assert(longer.last() == spare);
            assert(zeros_code(from, longer) == join(
                zeros_code(from, all),
                set_code(stop(from, all), spare, 0),
            )) by {
                assert(set_code(stop(from, all), spare, 0).len() > 0);
                if count > 0 {
                    assert(longer[longer.len() - 2] == all.last());
                    assert(zeros_code(from, all).len() > 0);
                }
            }
            assert(zeros_code(from, longer).len() > 0);
            assert(drain(spare, self.addr(), longer, Op::Inc).len() > 0);
            assert(drain(self.addr(), spare, seq![self.addr()], Op::Inc).len() > 0);
            assert(visit(spare, spare, clear()).len() > 0);
            assert(b.allocations() =~= marked);
            assert forall|i: int| 0 <= i < count implies b.owns(#[trigger] &cells@[i]) by {
                assert(places(cells@)[i] == cells@[i].addr());
            }
        }
        cells
    }

    /// Makes a new cell that is a copy of this one.
    pub fn clone(&self, b: &mut Builder<N, T>) -> (copy: Cell<N, T>)
        requires
            old(b).wf(),
            old(b).owns(self),
            room(old(b).allocations(), 2),
        ensures
            final(b).wf(),
            final(b).owns(&copy),
            copy.addr() == old(b).lowest_free(),
            final(b).text() == old(b).text() + render(
                copy_code(
                    old(b).cursor(),
                    self.addr(),
                    seq![copy.addr()],
                    first_free(old(b).allocations().update(copy.addr(), true), 0),
                ),
            ),
            final(b).cursor() == first_free(old(b).allocations().update(copy.addr(), true), 0),
            final(b).allocations() == old(b).allocations().update(copy.addr(), true),
    {
        let ghost start = b.allocations();
        proof {
            assert(after_allocs(start, 0) == start);
            assert(after_allocs(start, 1) == start.update(first_free(start, 0), true)) by {
                assert(after_allocs(start, 1) == after_allocs(start, 0).update(
                    first_free(after_allocs(start, 0), 0),
                    true,
                ));
            }
            assert(fresh(start, 1) =~= seq![first_free(start, 0)]);
        }
        let mut cells = self.copy(b, 1);
        proof {
            assert(places(cells@)[0] == cells@[0].addr());
            assert(b.owns(&cells@[0]));
        }
        let copy = cells.pop().unwrap();
        copy
    }

    /// Makes this cell a copy of `other`.
    pub fn clone_from(&self, b: &mut Builder<N, T>, other: &Cell<N, T>)
        requires
            old(b).wf(),
            old(b).owns(self),
            old(b).owns(other),
            old(b).lowest_free() < N,
        ensures
            final(b).wf(),
            final(b).extends(
                old(b),
                clone_from_code(
                    old(b).cursor(),
                    self.addr(),
                    other.addr(),
                    old(b).lowest_free(),
                ),
                old(b).lowest_free(),
            ),
    {
        let ghost tr = Trace::start(b.text());
        let ghost from = b.cursor();
        let ghost spare = b.lowest_free();
        proof {
            b.tape_len();
            lemma_first_free(b.allocations(), 0);
            lemma_start(b.text(), clone_from_code(from, self.addr(), other.addr(), spare));
        }
        let (temp, Ghost(t)) = b.cell_in(0, Ghost(tr));
        let Ghost(t) = self.zero_in(b, Ghost(t));

        let Ghost(t) = other.open_in(b, Ghost(t));
        let Ghost(t) = temp.inc_in(b, Ghost(t));
        let Ghost(t) = other.dec_in(b, Ghost(t));
        let Ghost(t) = other.close_in(b, Ghost(t));

        let Ghost(t) = temp.open_in(b, Ghost(t));
        let Ghost(t) = self.inc_in(b, Ghost(t));
        let Ghost(t) = other.inc_in(b, Ghost(t));
        let Ghost(t) = temp.dec_in(b, Ghost(t));
        let Ghost(t) = temp.close_in(b, Ghost(t));

        let Ghost(t) = temp.drop_in(b, Ghost(t));
        proof {
            assert(b.allocations() =~= old(b).allocations());
        }
    }
}

} // verus!
