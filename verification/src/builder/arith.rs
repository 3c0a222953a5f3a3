//! Arithmetic between cells, and between a cell and a constant.

use crate::builder::allocator::{
    after_allocs, first_free, fresh, lemma_first_free, lemma_room_shift, room, Builder, Cell,
};
use crate::builder::cell::{addrs, step_op};
use crate::builder::code::{
    absorb, clear, combine, div_code, div_round, div_value_code, drain, loop_at, moves, mul_code,
    mul_value_code, pour, relocate, set_code, shift, visit,
};
use crate::builder::trace::{lemma_regroup, lemma_regroup4, lemma_start, Trace};
use crate::builder::types::CellValue;
use crate::program::{render, Op};
use vstd::prelude::*;

verus! {

impl<const N: usize, T: CellValue> Cell<N, T> {
    /// Adds `rhs` to this cell, or subtracts it, and leaves `rhs` as it
    /// was, keeping the record.
    pub(crate) fn combine_in(
        &self,
        b: &mut Builder<N, T>,
        rhs: &Cell<N, T>,
        up: bool,
        Ghost(tr): Ghost<Trace>,
    ) -> (res: Ghost<Trace>)
        requires
            old(b).ready(self, tr),
            old(b).owns(rhs),
            old(b).lowest_free() < N,
        ensures
            final(b).traced(old(b), res@, old(b).lowest_free()),
            res@ == tr.emit(
                combine(
                    old(b).cursor(),
                    self.addr(),
                    rhs.addr(),
                    old(b).lowest_free(),
                    step_op(up),
                ),
            ),
    {
        let ghost from = b.cursor();
        let ghost spare = b.lowest_free();
        proof {
            b.tape_len();
            lemma_first_free(b.allocations(), 0);
        }
        let (temp, Ghost(t)) = b.cell_in(0, Ghost(tr));

        let Ghost(t) = rhs.open_in(b, Ghost(t));
        let Ghost(t) = temp.inc_in(b, Ghost(t));
        let Ghost(t) = rhs.dec_in(b, Ghost(t));
        let Ghost(t) = rhs.close_in(b, Ghost(t));

        let Ghost(t) = temp.open_in(b, Ghost(t));
        let Ghost(t) = rhs.inc_in(b, Ghost(t));
        let Ghost(t) = self.step_in(b, up, Ghost(t));
        let Ghost(t) = temp.dec_in(b, Ghost(t));
        let Ghost(t) = temp.close_in(b, Ghost(t));

        let Ghost(t) = temp.drop_in(b, Ghost(t));
        proof {
            assert(b.allocations() =~= old(b).allocations());
            let first = set_code(from, spare, 0);
            let second = loop_at(
                spare,
                rhs.addr(),
                visit(rhs.addr(), spare, Op::Inc) + visit(spare, rhs.addr(), Op::Dec),
                rhs.addr(),
            );
            let third = loop_at(
                rhs.addr(),
                spare,
                visit(spare, rhs.addr(), Op::Inc) + visit(rhs.addr(), self.addr(), step_op(up))
                    + visit(self.addr(), spare, Op::Dec),
                spare,
            );
            let fourth = visit(spare, spare, clear());
            lemma_regroup4(tr, first, second, third, fourth);
            assert(first.len() > 0 && second.len() > 0 && third.len() > 0 && fourth.len() > 0);
        }
        Ghost(t)
    }

    /// Adds another cell to this cell and leaves the other cell as it was.
    pub fn add_assign_ref(&self, b: &mut Builder<N, T>, rhs: &Cell<N, T>)
        requires
            old(b).wf(),
            old(b).owns(self),
            old(b).owns(rhs),
            old(b).lowest_free() < N,
        ensures
            final(b).wf(),
            final(b).extends(
                old(b),
                combine(
                    old(b).cursor(),
                    self.addr(),
                    rhs.addr(),
                    old(b).lowest_free(),
                    Op::Inc,
                ),
                old(b).lowest_free(),
            ),
    {
        let ghost tr = Trace::start(b.text());
        proof {
            lemma_start(
                b.text(),
                combine(b.cursor(), self.addr(), rhs.addr(), b.lowest_free(), Op::Inc),
            );
        }
        let _ = self.combine_in(b, rhs, true, Ghost(tr));
    }

    /// Subtracts another cell from this cell and leaves the other cell as
    /// it was.
    pub fn sub_assign_ref(&self, b: &mut Builder<N, T>, rhs: &Cell<N, T>)
        requires
            old(b).wf(),
            old(b).owns(self),
            old(b).owns(rhs),
            old(b).lowest_free() < N,
        ensures
            final(b).wf(),
            final(b).extends(
                old(b),
                combine(
                    old(b).cursor(),
                    self.addr(),
                    rhs.addr(),
                    old(b).lowest_free(),
                    Op::Dec,
                ),
                old(b).lowest_free(),
            ),
    {
        let ghost tr = Trace::start(b.text());
        proof {
            lemma_start(
                b.text(),
                combine(b.cursor(), self.addr(), rhs.addr(), b.lowest_free(), Op::Dec),
            );
        }
        let _ = self.combine_in(b, rhs, false, Ghost(tr));
    }

    /// Drains `rhs` into this cell, counting up or down, and ends the life
    /// of `rhs`.
    fn absorb(&self, b: &mut Builder<N, T>, rhs: Cell<N, T>, up: bool)
        requires
            old(b).wf(),
            old(b).owns(self),
            old(b).owns(&rhs),
        ensures
            final(b).wf(),
            final(b).text() == old(b).text() + render(
                absorb(old(b).cursor(), self.addr(), rhs.addr(), step_op(up)),
            ),
            final(b).cursor() == rhs.addr(),
            final(b).allocations() == old(b).allocations().update(rhs.addr(), false),
    {
        let ghost tr = Trace::start(b.text());
        let ghost from = b.cursor();
        proof {
            lemma_start(b.text(), absorb(from, self.addr(), rhs.addr(), step_op(up)));
        }
        let target = [self];
        let Ghost(t) = rhs.drain_in(b, target.as_slice(), up, Ghost(tr));
        let Ghost(t) = rhs.drop_in(b, Ghost(t));
        proof {
            assert(addrs::<N, T>(target@) == seq![self.addr()]);
            assert(drain(from, rhs.addr(), seq![self.addr()], step_op(up)).len() > 0);
            assert(visit(rhs.addr(), rhs.addr(), clear()).len() > 0);
        }
    }

    /// Adds another cell to this cell, using the other cell up.
    pub fn add_assign_cell(&self, b: &mut Builder<N, T>, rhs: Cell<N, T>)
        requires
            old(b).wf(),
            old(b).owns(self),
            old(b).owns(&rhs),
        ensures
            final(b).wf(),
            final(b).text() == old(b).text() + render(
                absorb(old(b).cursor(), self.addr(), rhs.addr(), Op::Inc),
            ),
            final(b).cursor() == rhs.addr(),
            final(b).allocations() == old(b).allocations().update(rhs.addr(), false),
    {
        self.absorb(b, rhs, true)
    }

    /// Subtracts another cell from this cell, using the other cell up.
    pub fn sub_assign_cell(&self, b: &mut Builder<N, T>, rhs: Cell<N, T>)
        requires
            old(b).wf(),
            old(b).owns(self),
            old(b).owns(&rhs),
        ensures
            final(b).wf(),
            final(b).text() == old(b).text() + render(
                absorb(old(b).cursor(), self.addr(), rhs.addr(), Op::Dec),
            ),
            final(b).cursor() == rhs.addr(),
            final(b).allocations() == old(b).allocations().update(rhs.addr(), false),
    {
        self.absorb(b, rhs, false)
    }

    /// Multiplies this cell by `rhs` and leaves `rhs` as it was, keeping
    /// the record.
    pub(crate) fn mul_in(
        &self,
        b: &mut Builder<N, T>,
        rhs: &Cell<N, T>,
        Ghost(tr): Ghost<Trace>,
    ) -> (res: Ghost<Trace>)
        requires
            old(b).ready(self, tr),
            old(b).owns(rhs),
            room(old(b).allocations(), 2),
        ensures
            final(b).traced(old(b), res@, fresh(old(b).allocations(), 2)[0]),
            res@ == tr.emit(
                mul_code(
                    old(b).cursor(),
                    self.addr(),
                    rhs.addr(),
                    fresh(old(b).allocations(), 2)[0],
                    fresh(old(b).allocations(), 2)[1],
                ),
            ),
    {
        let ghost from = b.cursor();
        let ghost start = b.allocations();
        let ghost count = first_free(start, 0);
        let ghost spare = first_free(start.update(count, true), 0);
        proof {
            b.tape_len();
            lemma_first_free(start, 0);
            assert(after_allocs(start, 0) == start);
            assert(after_allocs(start, 1) == start.update(count, true)) by {
                assert(after_allocs(start, 1) == after_allocs(start, 0).update(
                    first_free(after_allocs(start, 0), 0),
                    true,
                ));
            }
            assert(first_free(after_allocs(start, 0), 0) < start.len());
            assert(first_free(after_allocs(start, 1), 0) < start.len());
        }
        let (x, Ghost(t)) = self.move_and_zero_in(b, Ghost(tr));
        let ghost entered = t;
        let Ghost(t) = x.open_in(b, Ghost(t));
        let Ghost(t) = self.combine_in(b, rhs, true, Ghost(t));
        let Ghost(t) = x.dec_in(b, Ghost(t));
        let Ghost(t) = x.close_in(b, Ghost(t));
        let Ghost(t) = x.drop_in(b, Ghost(t));
        proof {
            assert(b.allocations() =~= old(b).allocations());
            let first = relocate(from, self.addr(), count);
            let second = loop_at(
                self.addr(),
                count,
                combine(count, self.addr(), rhs.addr(), spare, Op::Inc) + visit(
                    spare,
                    count,
                    Op::Dec,
                ),
                count,
            );
            let third = visit(count, count, clear());
            lemma_regroup4(tr, first, second, third, third);
            assert(first.len() > 0 && second.len() > 0 && third.len() > 0);
            assert(combine(count, self.addr(), rhs.addr(), spare, Op::Inc).len() > 0);
        }
        Ghost(t)
    }

    /// Multiplies this cell by another cell and leaves the other cell as it
    /// was.
    pub fn mul_assign_ref(&self, b: &mut Builder<N, T>, rhs: &Cell<N, T>)
        requires
            old(b).wf(),
            old(b).owns(self),
            old(b).owns(rhs),
            room(old(b).allocations(), 2),
        ensures
            final(b).wf(),
            final(b).extends(
                old(b),
                mul_code(
                    old(b).cursor(),
                    self.addr(),
                    rhs.addr(),
                    fresh(old(b).allocations(), 2)[0],
                    fresh(old(b).allocations(), 2)[1],
                ),
                fresh(old(b).allocations(), 2)[0],
            ),
    {
        let ghost tr = Trace::start(b.text());
        proof {
            lemma_start(
                b.text(),
                mul_code(
                    b.cursor(),
                    self.addr(),
                    rhs.addr(),
                    fresh(b.allocations(), 2)[0],
                    fresh(b.allocations(), 2)[1],
                ),
            );
        }
        let _ = self.mul_in(b, rhs, Ghost(tr));
    }

    /// Multiplies this cell by another cell, using the other cell up.
    pub fn mul_assign_cell(&self, b: &mut Builder<N, T>, rhs: Cell<N, T>)
        requires
            old(b).wf(),
            old(b).owns(self),
            old(b).owns(&rhs),
            room(old(b).allocations(), 2),
        ensures
            final(b).wf(),
            final(b).text() == old(b).text() + render(
                mul_code(
                    old(b).cursor(),
                    self.addr(),
                    rhs.addr(),
                    fresh(old(b).allocations(), 2)[0],
                    fresh(old(b).allocations(), 2)[1],
                ) + visit(fresh(old(b).allocations(), 2)[0], rhs.addr(), clear()),
            ),
            final(b).cursor() == rhs.addr(),
            final(b).allocations() == old(b).allocations().update(rhs.addr(), false),
    {
        let ghost tr = Trace::start(b.text());
        let ghost code = mul_code(
            b.cursor(),
            self.addr(),
            rhs.addr(),
            fresh(b.allocations(), 2)[0],
            fresh(b.allocations(), 2)[1],
        );
        let ghost last = visit(fresh(b.allocations(), 2)[0], rhs.addr(), clear());
        proof {
            lemma_start(b.text(), code + last);
            lemma_start(b.text(), code);
            lemma_regroup(Trace::start(b.text()), code, last);
            assert(code.len() > 0 && last.len() > 0);
        }
        let Ghost(t) = self.mul_in(b, &rhs, Ghost(tr));
        let _ = rhs.drop_in(b, Ghost(t));
    }

    /// Multiplies this cell by a constant.
    pub fn mul_assign(&self, b: &mut Builder<N, T>, rhs: T)
        requires
            old(b).wf(),
            old(b).owns(self),
            isize::MIN <= rhs.delta() <= isize::MAX,
            room(old(b).allocations(), 3),
        ensures
            final(b).wf(),
            final(b).extends(
                old(b),
                mul_value_code(
                    old(b).cursor(),
                    self.addr(),
                    rhs.delta(),
                    fresh(old(b).allocations(), 3)[0],
                    fresh(old(b).allocations(), 3)[1],
                    fresh(old(b).allocations(), 3)[2],
                ),
                fresh(old(b).allocations(), 3)[0],
            ),
    {
        let ghost tr = Trace::start(b.text());
        let ghost from = b.cursor();
        let ghost start = b.allocations();
        let ghost held = fresh(start, 3)[0];
        let ghost count = fresh(start, 3)[1];
        let ghost spare = fresh(start, 3)[2];
        let ghost first = set_code(from, held, rhs.delta());
        let ghost second = mul_code(held, self.addr(), held, count, spare);
        let ghost third = visit(count, held, clear());
        proof {
            b.tape_len();
            lemma_room_shift(start, 2);
            let marked = start.update(held, true);
            assert(fresh(marked, 2)[1] == fresh(start, 3)[2]);
            assert(fresh(marked, 2)[0] == count);
            assert(fresh(marked, 2)[1] == spare);
            lemma_start(
                b.text(),
                mul_value_code(from, self.addr(), rhs.delta(), held, count, spare),
            );
            lemma_regroup4(tr, first, second, third, third);
            assert(first.len() > 0 && second.len() > 0 && third.len() > 0);
        }
        let (temp, Ghost(t)) = b.cell_in(rhs.into_isize(), Ghost(tr));
        let Ghost(t) = self.mul_in(b, &temp, Ghost(t));
        let Ghost(t) = temp.drop_in(b, Ghost(t));
        proof {
            assert(b.allocations() =~= old(b).allocations());
        }
    }

    /// Divides this cell by `rhs` and leaves `rhs` as it was, keeping the
    /// record.
    pub(crate) fn div_in(
        &self,
        b: &mut Builder<N, T>,
        rhs: &Cell<N, T>,
        Ghost(tr): Ghost<Trace>,
    ) -> (res: Ghost<Trace>)
        requires
            old(b).ready(self, tr),
            old(b).owns(rhs),
            room(old(b).allocations(), 4),
        ensures
            final(b).traced(old(b), res@, fresh(old(b).allocations(), 4)[0]),
            res@ == tr.emit(
                div_code(
                    old(b).cursor(),
                    self.addr(),
                    rhs.addr(),
                    fresh(old(b).allocations(), 4)[0],
                    fresh(old(b).allocations(), 4)[1],
                    fresh(old(b).allocations(), 4)[2],
                    fresh(old(b).allocations(), 4)[3],
                ),
            ),
    {
        let ghost from = b.cursor();
        let ghost start = b.allocations();
        let ghost this = self.addr();
        let ghost a0 = fresh(start, 4)[0];
        let ghost a1 = fresh(start, 4)[1];
        let ghost a2 = fresh(start, 4)[2];
        let ghost a3 = fresh(start, 4)[3];
        proof {
            b.tape_len();
            assert(after_allocs(start, 0) == start);
            assert(first_free(after_allocs(start, 0), 0) < start.len());
            assert(first_free(after_allocs(start, 1), 0) < start.len());
            assert(first_free(after_allocs(start, 2), 0) < start.len());
            assert(first_free(after_allocs(start, 3), 0) < start.len());
            reveal_with_fuel(after_allocs, 5);
            lemma_first_free(after_allocs(start, 0), 0);
            lemma_first_free(after_allocs(start, 1), 0);
            lemma_first_free(after_allocs(start, 2), 0);
            lemma_first_free(after_allocs(start, 3), 0);
        }
        let (temp0, Ghost(t)) = b.cell_in(0, Ghost(tr));
        let (temp1, Ghost(t)) = b.cell_in(0, Ghost(t));
        let (temp2, Ghost(t)) = b.cell_in(0, Ghost(t));
        let (temp3, Ghost(t)) = b.cell_in(0, Ghost(t));
        let Ghost(t) = self.move_into_and_zero_in(b, &temp0, Ghost(t));
        let ghost prepared = t;

        let Ghost(t) = temp0.open_in(b, Ghost(t));
        let both = [&temp1, &temp2];
        let Ghost(t) = rhs.drain_in(b, both.as_slice(), true, Ghost(t));
        let back = [rhs];
        let Ghost(t) = temp2.drain_in(b, back.as_slice(), true, Ghost(t));
        proof {
            assert(addrs::<N, T>(both@) == seq![a1, a2]);
            assert(addrs::<N, T>(back@) == seq![rhs.addr()]);
        }

        let Ghost(t) = temp1.open_in(b, Ghost(t));
        let Ghost(t) = temp2.inc_in(b, Ghost(t));
        let Ghost(t) = temp0.dec_in(b, Ghost(t));

        let Ghost(t) = temp0.open_in(b, Ghost(t));
        let Ghost(t) = temp2.zero_in(b, Ghost(t));
        let Ghost(t) = temp3.inc_in(b, Ghost(t));
        let Ghost(t) = temp0.dec_in(b, Ghost(t));
        let Ghost(t) = temp0.close_in(b, Ghost(t));

        let keep = [&temp0];
        let Ghost(t) = temp3.drain_in(b, keep.as_slice(), true, Ghost(t));
        proof {
            assert(addrs::<N, T>(keep@) == seq![a0]);
        }

        let Ghost(t) = temp2.open_in(b, Ghost(t));
        let Ghost(t) = temp1.dec_in(b, Ghost(t));
        let Ghost(t) = temp1.open_in(b, Ghost(t));
        let Ghost(t) = self.dec_in(b, Ghost(t));
        let Ghost(t) = temp1.zero_in(b, Ghost(t));
        let Ghost(t) = temp1.close_in(b, Ghost(t));
        let Ghost(t) = temp1.inc_in(b, Ghost(t));
        let Ghost(t) = temp2.dec_in(b, Ghost(t));
        let Ghost(t) = temp2.close_in(b, Ghost(t));

        let Ghost(t) = temp1.dec_in(b, Ghost(t));
        let Ghost(t) = temp1.close_in(b, Ghost(t));

        let Ghost(t) = self.inc_in(b, Ghost(t));
        let Ghost(t) = temp0.close_in(b, Ghost(t));
        let ghost looped = t;
        proof {
            assert(looped == prepared.emit(
                loop_at(this, a0, div_round(this, rhs.addr(), a0, a1, a2, a3), this),
            ));
        }

        let Ghost(t) = temp3.drop_in(b, Ghost(t));
        let Ghost(t) = temp2.drop_in(b, Ghost(t));
        let Ghost(t) = temp1.drop_in(b, Ghost(t));
        let Ghost(t) = temp0.drop_in(b, Ghost(t));
        proof {
            assert(b.allocations() =~= old(b).allocations());
            let z0 = set_code(from, a0, 0);
            let z1 = set_code(a0, a1, 0);
            let z2 = set_code(a1, a2, 0);
            let z3 = set_code(a2, a3, 0);
            let p = pour(a3, this, a0);
            let l = loop_at(this, a0, div_round(this, rhs.addr(), a0, a1, a2, a3), this);
            let c3 = visit(a0, a3, clear());
            let c2 = visit(a3, a2, clear());
            let c1 = visit(a2, a1, clear());
            let c0 = visit(a1, a0, clear());
            assert(z0.len() > 0 && z1.len() > 0 && z2.len() > 0 && z3.len() > 0);
            assert(p.len() > 0 && l.len() > 0);
            assert(c0.len() > 0 && c1.len() > 0 && c2.len() > 0 && c3.len() > 0);
            lemma_regroup4(tr, z0, z1, z2, z3);
            let head = z0 + z1 + z2 + z3;
            lemma_regroup4(tr, head, p, l, c3);
            let mid = head + p + l + c3;
            lemma_regroup4(tr, mid, c2, c1, c0);
        }
        Ghost(t)
    }

    /// Divides this cell by another cell and leaves the other cell as it
    /// was. Nothing guards against a divisor of zero: the code written for
    /// it never ends when it runs on a nonzero dividend.
    pub fn div_assign_ref(&self, b: &mut Builder<N, T>, rhs: &Cell<N, T>)
        requires
            old(b).wf(),
            old(b).owns(self),
            old(b).owns(rhs),
            room(old(b).allocations(), 4),
        ensures
            final(b).wf(),
            final(b).extends(
                old(b),
                div_code(
                    old(b).cursor(),
                    self.addr(),
                    rhs.addr(),
                    fresh(old(b).allocations(), 4)[0],
                    fresh(old(b).allocations(), 4)[1],
                    fresh(old(b).allocations(), 4)[2],
                    fresh(old(b).allocations(), 4)[3],
                ),
                fresh(old(b).allocations(), 4)[0],
            ),
    {
        let ghost tr = Trace::start(b.text());
        proof {
            lemma_start(
                b.text(),
                div_code(
                    b.cursor(),
                    self.addr(),
                    rhs.addr(),
                    fresh(b.allocations(), 4)[0],
                    fresh(b.allocations(), 4)[1],
                    fresh(b.allocations(), 4)[2],
                    fresh(b.allocations(), 4)[3],
                ),
            );
        }
        let _ = self.div_in(b, rhs, Ghost(tr));
    }

    /// Divides this cell by another cell, using the other cell up.
    pub fn div_assign_cell(&self, b: &mut Builder<N, T>, rhs: Cell<N, T>)
        requires
            old(b).wf(),
            old(b).owns(self),
            old(b).owns(&rhs),
            room(old(b).allocations(), 4),
        ensures
            final(b).wf(),
            final(b).text() == old(b).text() + render(
                div_code(
                    old(b).cursor(),
                    self.addr(),
                    rhs.addr(),
                    fresh(old(b).allocations(), 4)[0],
                    fresh(old(b).allocations(), 4)[1],
                    fresh(old(b).allocations(), 4)[2],
                    fresh(old(b).allocations(), 4)[3],
                ) + visit(fresh(old(b).allocations(), 4)[0], rhs.addr(), clear()),
            ),
            final(b).cursor() == rhs.addr(),
            final(b).allocations() == old(b).allocations().update(rhs.addr(), false),
    {
        let ghost tr = Trace::start(b.text());
        let ghost code = div_code(
            b.cursor(),
            self.addr(),
            rhs.addr(),
            fresh(b.allocations(), 4)[0],
            fresh(b.allocations(), 4)[1],
            fresh(b.allocations(), 4)[2],
            fresh(b.allocations(), 4)[3],
        );
        let ghost last = visit(fresh(b.allocations(), 4)[0], rhs.addr(), clear());
        proof {
            lemma_start(b.text(), code + last);
            lemma_start(b.text(), code);
            lemma_regroup(Trace::start(b.text()), code, last);
            assert(code.len() > 0 && last.len() > 0);
        }
        let Ghost(t) = self.div_in(b, &rhs, Ghost(tr));
        let _ = rhs.drop_in(b, Ghost(t));
    }

    /// Divides this cell by a constant.
    pub fn div_assign(&self, b: &mut Builder<N, T>, rhs: T)
        requires
            old(b).wf(),
            old(b).owns(self),
            isize::MIN <= rhs.delta() <= isize::MAX,
            room(old(b).allocations(), 5),
        ensures
            final(b).wf(),
            final(b).extends(
                old(b),
                div_value_code(
                    old(b).cursor(),
                    self.addr(),
                    rhs.delta(),
                    fresh(old(b).allocations(), 5)[0],
                    fresh(old(b).allocations(), 5)[1],
                    fresh(old(b).allocations(), 5)[2],
                    fresh(old(b).allocations(), 5)[3],
                    fresh(old(b).allocations(), 5)[4],
                ),
                fresh(old(b).allocations(), 5)[0],
            ),
    {
        let ghost tr = Trace::start(b.text());
        let ghost from = b.cursor();
        let ghost start = b.allocations();
        let ghost held = fresh(start, 5)[0];
        let ghost a0 = fresh(start, 5)[1];
        let ghost a1 = fresh(start, 5)[2];
        let ghost a2 = fresh(start, 5)[3];
        let ghost a3 = fresh(start, 5)[4];
        let ghost first = set_code(from, held, rhs.delta());
        let ghost second = div_code(held, self.addr(), held, a0, a1, a2, a3);
        let ghost third = visit(a0, held, clear());
        proof {
            b.tape_len();
            lemma_room_shift(start, 4);
            let marked = start.update(held, true);
            assert(fresh(marked, 4)[0] == a0);
            assert(fresh(marked, 4)[1] == a1);
            assert(fresh(marked, 4)[2] == a2);
            assert(fresh(marked, 4)[3] == a3);
            lemma_start(
                b.text(),
                div_value_code(from, self.addr(), rhs.delta(), held, a0, a1, a2, a3),
            );
            lemma_regroup4(tr, first, second, third, third);
            assert(first.len() > 0 && second.len() > 0 && third.len() > 0);
        }
        let (temp, Ghost(t)) = b.cell_in(rhs.into_isize(), Ghost(tr));
        let Ghost(t) = self.div_in(b, &temp, Ghost(t));
        let Ghost(t) = temp.drop_in(b, Ghost(t));
        proof {
            assert(b.allocations() =~= old(b).allocations());
        }
    }
    /// The sum of this cell and another, in this cell; the other cell is used up.
    pub fn add(self, b: &mut Builder<N, T>, rhs: Cell<N, T>) -> (out: Cell<N, T>)
        requires
            old(b).wf(),
            old(b).owns(&self),
            old(b).owns(&rhs),
        ensures
            final(b).wf(),
            out.addr() == self.addr(),
            final(b).text() == old(b).text() + render(
                absorb(old(b).cursor(), self.addr(), rhs.addr(), Op::Inc),
            ),
            final(b).cursor() == rhs.addr(),
            final(b).allocations() == old(b).allocations().update(rhs.addr(), false),
    {
        self.add_assign_cell(b, rhs);
        self
    }

    /// The sum of this cell and another, in this cell; the other cell stays as it was.
    pub fn add_ref(self, b: &mut Builder<N, T>, rhs: &Cell<N, T>) -> (out: Cell<N, T>)
        requires
            old(b).wf(),
            old(b).owns(&self),
            old(b).owns(rhs),
            old(b).lowest_free() < N,
        ensures
            final(b).wf(),
            final(b).owns(&out),
            out.addr() == self.addr(),
            final(b).extends(
                old(b),
                combine(old(b).cursor(), self.addr(), rhs.addr(), old(b).lowest_free(), Op::Inc),
                old(b).lowest_free(),
            ),
    {
        self.add_assign_ref(b, rhs);
        self
    }

    /// The sum of this cell and a constant, in this cell.
    pub fn add_value(self, b: &mut Builder<N, T>, rhs: T) -> (out: Cell<N, T>)
        requires
            old(b).wf(),
            old(b).owns(&self),
            isize::MIN <= rhs.delta() <= isize::MAX,
        ensures
            final(b).wf(),
            final(b).owns(&out),
            out.addr() == self.addr(),
            final(b).extends(
                old(b),
                moves(old(b).cursor(), self.addr()) + shift(rhs.delta()),
                self.addr(),
            ),
    {
        self.add_assign(b, rhs);
        self
    }

    /// The difference of this cell and another, in this cell; the other cell is used up.
    pub fn sub(self, b: &mut Builder<N, T>, rhs: Cell<N, T>) -> (out: Cell<N, T>)
        requires
            old(b).wf(),
            old(b).owns(&self),
            old(b).owns(&rhs),
        ensures
            final(b).wf(),
            out.addr() == self.addr(),
            final(b).text() == old(b).text() + render(
                absorb(old(b).cursor(), self.addr(), rhs.addr(), Op::Dec),
            ),
            final(b).cursor() == rhs.addr(),
            final(b).allocations() == old(b).allocations().update(rhs.addr(), false),
    {
        self.sub_assign_cell(b, rhs);
        self
    }

    /// The difference of this cell and another, in this cell; the other cell stays as it was.
    pub fn sub_ref(self, b: &mut Builder<N, T>, rhs: &Cell<N, T>) -> (out: Cell<N, T>)
        requires
            old(b).wf(),
            old(b).owns(&self),
            old(b).owns(rhs),
            old(b).lowest_free() < N,
        ensures
            final(b).wf(),
            final(b).owns(&out),
            out.addr() == self.addr(),
            final(b).extends(
                old(b),
                combine(old(b).cursor(), self.addr(), rhs.addr(), old(b).lowest_free(), Op::Dec),
                old(b).lowest_free(),
            ),
    {
        self.sub_assign_ref(b, rhs);
        self
    }

    /// The difference of this cell and a constant, in this cell.
    pub fn sub_value(self, b: &mut Builder<N, T>, rhs: T) -> (out: Cell<N, T>)
        requires
            old(b).wf(),
            old(b).owns(&self),
            isize::MIN <= rhs.delta() <= isize::MAX,
        ensures
            final(b).wf(),
            final(b).owns(&out),
            out.addr() == self.addr(),
            final(b).extends(
                old(b),
                moves(old(b).cursor(), self.addr()) + shift(-rhs.delta()),
                self.addr(),
            ),
    {
        self.sub_assign(b, rhs);
        self
    }

    /// The product of this cell and another, in this cell; the other cell is used up.
    pub fn mul(self, b: &mut Builder<N, T>, rhs: Cell<N, T>) -> (out: Cell<N, T>)
        requires
            old(b).wf(),
            old(b).owns(&self),
            old(b).owns(&rhs),
            room(old(b).allocations(), 2),
        ensures
            final(b).wf(),
            out.addr() == self.addr(),
            final(b).text() == old(b).text() + render(
                mul_code(
                    old(b).cursor(),
                    self.addr(),
                    rhs.addr(),
                    fresh(old(b).allocations(), 2)[0],
                    fresh(old(b).allocations(), 2)[1],
                ) + visit(fresh(old(b).allocations(), 2)[0], rhs.addr(), clear()),
            ),
            final(b).cursor() == rhs.addr(),
            final(b).allocations() == old(b).allocations().update(rhs.addr(), false),
    {
        self.mul_assign_cell(b, rhs);
        self
    }

    /// The product of this cell and another, in this cell; the other cell stays as it was.
    pub fn mul_ref(self, b: &mut Builder<N, T>, rhs: &Cell<N, T>) -> (out: Cell<N, T>)
        requires
            old(b).wf(),
            old(b).owns(&self),
            old(b).owns(rhs),
            room(old(b).allocations(), 2),
        ensures
            final(b).wf(),
            final(b).owns(&out),
            out.addr() == self.addr(),
            final(b).extends(
                old(b),
                mul_code(
                    old(b).cursor(),
                    self.addr(),
                    rhs.addr(),
                    fresh(old(b).allocations(), 2)[0],
                    fresh(old(b).allocations(), 2)[1],
                ),
                fresh(old(b).allocations(), 2)[0],
            ),
    {
        self.mul_assign_ref(b, rhs);
        self
    }

    /// The product of this cell and a constant, in this cell.
    pub fn mul_value(self, b: &mut Builder<N, T>, rhs: T) -> (out: Cell<N, T>)
        requires
            old(b).wf(),
            old(b).owns(&self),
            isize::MIN <= rhs.delta() <= isize::MAX,
            room(old(b).allocations(), 3),
        ensures
            final(b).wf(),
            final(b).owns(&out),
            out.addr() == self.addr(),
            final(b).extends(
                old(b),
                mul_value_code(
                    old(b).cursor(),
                    self.addr(),
                    rhs.delta(),
                    fresh(old(b).allocations(), 3)[0],
                    fresh(old(b).allocations(), 3)[1],
                    fresh(old(b).allocations(), 3)[2],
                ),
                fresh(old(b).allocations(), 3)[0],
            ),
    {
        self.mul_assign(b, rhs);
        self
    }

    /// The quotient of this cell and another, in this cell; the other cell is used up.
    pub fn div(self, b: &mut Builder<N, T>, rhs: Cell<N, T>) -> (out: Cell<N, T>)
        requires
            old(b).wf(),
            old(b).owns(&self),
            old(b).owns(&rhs),
            room(old(b).allocations(), 4),
        ensures
            final(b).wf(),
            out.addr() == self.addr(),
            final(b).text() == old(b).text() + render(
                div_code(
                    old(b).cursor(),
                    self.addr(),
                    rhs.addr(),
                    fresh(old(b).allocations(), 4)[0],
                    fresh(old(b).allocations(), 4)[1],
                    fresh(old(b).allocations(), 4)[2],
                    fresh(old(b).allocations(), 4)[3],
                ) + visit(fresh(old(b).allocations(), 4)[0], rhs.addr(), clear()),
            ),
            final(b).cursor() == rhs.addr(),
            final(b).allocations() == old(b).allocations().update(rhs.addr(), false),
    {
        self.div_assign_cell(b, rhs);
        self
    }

    /// The quotient of this cell and another, in this cell; the other cell stays as it was.
    pub fn div_ref(self, b: &mut Builder<N, T>, rhs: &Cell<N, T>) -> (out: Cell<N, T>)
        requires
            old(b).wf(),
            old(b).owns(&self),
            old(b).owns(rhs),
            room(old(b).allocations(), 4),
        ensures
            final(b).wf(),
            final(b).owns(&out),
            out.addr() == self.addr(),
            final(b).extends(
                old(b),
                div_code(
                    old(b).cursor(),
                    self.addr(),
                    rhs.addr(),
                    fresh(old(b).allocations(), 4)[0],
                    fresh(old(b).allocations(), 4)[1],
                    fresh(old(b).allocations(), 4)[2],
                    fresh(old(b).allocations(), 4)[3],
                ),
                fresh(old(b).allocations(), 4)[0],
            ),
    {
        self.div_assign_ref(b, rhs);
        self
    }

    /// The quotient of this cell and a constant, in this cell.
    pub fn div_value(self, b: &mut Builder<N, T>, rhs: T) -> (out: Cell<N, T>)
        requires
            old(b).wf(),
            old(b).owns(&self),
            isize::MIN <= rhs.delta() <= isize::MAX,
            room(old(b).allocations(), 5),
        ensures
            final(b).wf(),
            final(b).owns(&out),
            out.addr() == self.addr(),
            final(b).extends(
                old(b),
                div_value_code(
                    old(b).cursor(),
                    self.addr(),
                    rhs.delta(),
                    fresh(old(b).allocations(), 5)[0],
                    fresh(old(b).allocations(), 5)[1],
                    fresh(old(b).allocations(), 5)[2],
                    fresh(old(b).allocations(), 5)[3],
                    fresh(old(b).allocations(), 5)[4],
                ),
                fresh(old(b).allocations(), 5)[0],
            ),
    {
        self.div_assign(b, rhs);
        self
    }
}

} // verus!
