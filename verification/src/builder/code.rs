//! The shapes of the code that the builder emits.

use crate::program::{render, render_op, Op};
use vstd::prelude::*;

verus! {

/// `count` copies of `op`; none if `count` is not positive.
pub open spec fn copies(op: Op, count: int) -> Seq<Op> {
    Seq::new(
        if count < 0 {
            0nat
        } else {
            count as nat
        },
        |i: int| op,
    )
}

/// The pointer moves that lead from cell `from` to cell `to`.
pub open spec fn moves(from: int, to: int) -> Seq<Op> {
    if to < from {
        copies(Op::Shl, from - to)
    } else {
        copies(Op::Shr, to - from)
    }
}

/// The code that goes from cell `from` to cell `to` and performs `op` there.
pub open spec fn visit(from: int, to: int, op: Op) -> Seq<Op> {
    moves(from, to).push(op)
}

/// The code that changes the current cell by `delta`: that many increments,
/// or decrements for a negative `delta`.
pub open spec fn shift(delta: int) -> Seq<Op> {
    if delta < 0 {
        copies(Op::Dec, -delta)
    } else {
        copies(Op::Inc, delta)
    }
}

/// The loop that counts the current cell down to zero.
pub open spec fn clear() -> Op {
    Op::Repeat(seq![Op::Dec])
}

/// The code that goes from cell `from` to cell `at`, clears it, and then
/// changes it by `delta`.
pub open spec fn set_code(from: int, at: int, delta: int) -> Seq<Op> {
    visit(from, at, clear()) + shift(delta)
}

/// The code that sets the cells from `start` on to the given values, one
/// after the other, beginning with the pointer at `from`.
pub open spec fn fill_code(from: int, start: int, deltas: Seq<int>) -> Seq<Op>
    decreases deltas.len(),
{
    if deltas.len() == 0 {
        Seq::empty()
    } else if deltas.len() == 1 {
        set_code(from, start, deltas.last())
    } else {
        fill_code(from, start, deltas.drop_last()) + set_code(
            start + deltas.len() - 2,
            start + deltas.len() - 1,
            deltas.last(),
        )
    }
}

/// The code that, with the pointer on a cell that holds `held`, brings the
/// cell to each byte of `bytes` in turn and writes it.
pub open spec fn spell_code(held: int, bytes: Seq<u8>) -> Seq<Op>
    decreases bytes.len(),
{
    if bytes.len() == 0 {
        Seq::empty()
    } else if bytes.len() == 1 {
        shift(bytes.last() - held).push(Op::Write)
    } else {
        spell_code(held, bytes.drop_last()) + shift(
            bytes.last() - bytes[bytes.len() - 2],
        ).push(Op::Write)
    }
}

/// `first` followed by `second`.
pub open spec fn join(first: Seq<Op>, second: Seq<Op>) -> Seq<Op> {
    if first.len() == 0 {
        second
    } else if second.len() == 0 {
        first
    } else {
        first + second
    }
}

/// The loop on cell `at`, entered with the pointer at `from`, whose `body`
/// leaves the pointer at `end`: the moves to `at`, then the loop, which
/// holds the body and the moves back to `at`.
pub open spec fn loop_at(from: int, at: int, body: Seq<Op>, end: int) -> Seq<Op> {
    visit(from, at, Op::Repeat(join(body, moves(end, at))))
}

/// Where the pointer is after the cells of `targets` were visited in order,
/// starting from `from`.
pub open spec fn stop(from: int, targets: Seq<int>) -> int {
    if targets.len() == 0 {
        from
    } else {
        targets.last()
    }
}

/// The body of a draining loop on cell `source`: one decrement of the
/// source, then `op` on each cell of `targets` in order.
pub open spec fn drain_steps(source: int, targets: Seq<int>, op: Op) -> Seq<Op>
    decreases targets.len(),
{
    if targets.len() == 0 {
        visit(source, source, Op::Dec)
    } else {
        drain_steps(source, targets.drop_last(), op) + visit(
            stop(source, targets.drop_last()),
            targets.last(),
            op,
        )
    }
}

/// The loop that, while cell `source` is nonzero, decrements it and performs
/// `op` once on each cell of `targets`.
pub open spec fn drain(from: int, source: int, targets: Seq<int>, op: Op) -> Seq<Op> {
    loop_at(from, source, drain_steps(source, targets, op), stop(source, targets))
}

/// The code that clears each cell of `cells` in order, starting with the
/// pointer at `from`.
pub open spec fn zeros_code(from: int, cells: Seq<int>) -> Seq<Op>
    decreases cells.len(),
{
    if cells.len() == 0 {
        Seq::empty()
    } else if cells.len() == 1 {
        set_code(from, cells.last(), 0)
    } else {
        zeros_code(from, cells.drop_last()) + set_code(
            cells[cells.len() - 2],
            cells.last(),
            0,
        )
    }
}

/// The code that moves cell `source` into the fresh cell `fresh`: clear the
/// fresh cell, then drain the source into it.
pub open spec fn relocate(from: int, source: int, fresh: int) -> Seq<Op> {
    set_code(from, fresh, 0) + drain(fresh, source, seq![fresh], Op::Inc)
}

/// The code that moves cell `source` into cell `output`: clear the output,
/// then drain the source into it.
pub open spec fn pour(from: int, source: int, output: int) -> Seq<Op> {
    visit(from, output, clear()) + drain(output, source, seq![output], Op::Inc)
}

/// The code that moves cell `source` into cell `output` and then ends the
/// life of the source.
pub open spec fn pour_out(from: int, source: int, output: int) -> Seq<Op> {
    pour(from, source, output) + visit(source, source, clear())
}

/// The code that swaps cells `this` and `other` by way of the fresh cell
/// `temp`.
pub open spec fn swap_code(from: int, this: int, other: int, temp: int) -> Seq<Op> {
    relocate(from, this, temp) + pour(this, other, this) + pour_out(other, temp, other)
}

/// The code that drains cell `source` into the fresh cells of `copies` and
/// then ends the life of the source.
pub open spec fn into_copies_code(from: int, source: int, fresh: Seq<int>) -> Seq<Op> {
    join(zeros_code(from, fresh), drain(stop(from, fresh), source, fresh, Op::Inc)) + visit(
        source,
        source,
        clear(),
    )
}

/// The code that copies cell `source` into the fresh cells of `fresh`, by
/// way of the fresh cell `temp`: drain the source into all of them, then
/// drain `temp` back into the source and end its life.
pub open spec fn copy_code(from: int, source: int, fresh: Seq<int>, temp: int) -> Seq<Op> {
    zeros_code(from, fresh.push(temp)) + drain(temp, source, fresh.push(temp), Op::Inc) + drain(
        source,
        temp,
        seq![source],
        Op::Inc,
    ) + visit(temp, temp, clear())
}

/// The code that performs `op` on cell `this` once for each unit of cell
/// `rhs` and leaves `rhs` as it was, by way of the fresh cell `temp`: move
/// `rhs` into `temp`, then drain `temp` into `rhs` and `this` at once.
pub open spec fn combine(from: int, this: int, rhs: int, temp: int, op: Op) -> Seq<Op> {
    set_code(from, temp, 0) + loop_at(
        temp,
        rhs,
        visit(rhs, temp, Op::Inc) + visit(temp, rhs, Op::Dec),
        rhs,
    ) + loop_at(
        rhs,
        temp,
        visit(temp, rhs, Op::Inc) + visit(rhs, this, op) + visit(this, temp, Op::Dec),
        temp,
    ) + visit(temp, temp, clear())
}

/// The code that makes cell `this` a copy of cell `other`, by way of the
/// fresh cell `temp`.
pub open spec fn clone_from_code(from: int, this: int, other: int, temp: int) -> Seq<Op> {
    set_code(from, temp, 0) + visit(temp, this, clear()) + loop_at(
        this,
        other,
        visit(other, temp, Op::Inc) + visit(temp, other, Op::Dec),
        other,
    ) + loop_at(
        other,
        temp,
        visit(temp, this, Op::Inc) + visit(this, other, Op::Inc) + visit(other, temp, Op::Dec),
        temp,
    ) + visit(temp, temp, clear())
}

/// The code that performs `op` on cell `this` once for each unit of cell
/// `rhs`, and ends the life of `rhs`.
pub open spec fn absorb(from: int, this: int, rhs: int, op: Op) -> Seq<Op> {
    drain(from, rhs, seq![this], op) + visit(rhs, rhs, clear())
}

/// The code that multiplies cell `this` by cell `rhs`, by way of the fresh
/// cells `count` and `temp`: move `this` into `count`, then add `rhs` to
/// `this` once for each unit of `count`.
pub open spec fn mul_code(from: int, this: int, rhs: int, count: int, temp: int) -> Seq<Op> {
    relocate(from, this, count) + loop_at(
        this,
        count,
        combine(count, this, rhs, temp, Op::Inc) + visit(temp, count, Op::Dec),
        count,
    ) + visit(count, count, clear())
}

/// The code that multiplies cell `this` by the constant `delta`, by way of
/// three fresh cells: `held` takes the constant, then `this` is multiplied
/// by `held`, and `held` ends its life.
pub open spec fn mul_value_code(
    from: int,
    this: int,
    delta: int,
    held: int,
    count: int,
    temp: int,
) -> Seq<Op> {
    set_code(from, held, delta) + mul_code(held, this, held, count, temp) + visit(
        count,
        held,
        clear(),
    )
}

/// The code that divides cell `this` by the constant `delta`, by way of
/// five fresh cells: `held` takes the constant, then `this` is divided by
/// `held`, and `held` ends its life.
pub open spec fn div_value_code(
    from: int,
    this: int,
    delta: int,
    held: int,
    t0: int,
    t1: int,
    t2: int,
    t3: int,
) -> Seq<Op> {
    set_code(from, held, delta) + div_code(held, this, held, t0, t1, t2, t3) + visit(
        t0,
        held,
        clear(),
    )
}

/// The code that divides cell `this` by cell `rhs`, by way of four fresh
/// cells: `t0` takes the dividend and counts it down unit by unit, `t1`
/// and `t2` hold what is left of the divisor in the current round, and `t3`
/// keeps `t0` while it is tested for zero. `this` gains one for each unit
/// and loses it again unless the unit completes a round of the divisor.
pub open spec fn div_code(
    from: int,
    this: int,
    rhs: int,
    t0: int,
    t1: int,
    t2: int,
    t3: int,
) -> Seq<Op> {
    set_code(from, t0, 0) + set_code(t0, t1, 0) + set_code(t1, t2, 0) + set_code(t2, t3, 0)
        + pour(t3, this, t0) + loop_at(this, t0, div_round(this, rhs, t0, t1, t2, t3), this)
        + visit(t0, t3, clear()) + visit(t3, t2, clear()) + visit(t2, t1, clear()) + visit(
        t1,
        t0,
        clear(),
    )
}

/// One pass of the outer loop of a division: the work for one unit of the
/// dividend.
pub open spec fn div_round(this: int, rhs: int, t0: int, t1: int, t2: int, t3: int) -> Seq<Op> {
    drain(t0, rhs, seq![t1, t2], Op::Inc) + drain(rhs, t2, seq![rhs], Op::Inc) + loop_at(
        t2,
        t1,
        div_unit(this, t0, t1, t2, t3),
        t1,
    ) + visit(t1, this, Op::Inc)
}

/// One pass of the loop on `t1` within a division.
pub open spec fn div_unit(this: int, t0: int, t1: int, t2: int, t3: int) -> Seq<Op> {
    visit(t1, t2, Op::Inc) + visit(t2, t0, Op::Dec) + loop_at(
        t0,
        t0,
        visit(t0, t2, clear()) + visit(t2, t3, Op::Inc) + visit(t3, t0, Op::Dec),
        t0,
    ) + drain(t0, t3, seq![t0], Op::Inc) + loop_at(
        t3,
        t2,
        visit(t2, t1, Op::Dec) + loop_at(
            t1,
            t1,
            visit(t1, this, Op::Dec) + visit(this, t1, clear()),
            t1,
        ) + visit(t1, t1, Op::Inc) + visit(t1, t2, Op::Dec),
        t2,
    ) + visit(t2, t1, Op::Dec)
}

/// The code that writes out `bytes` by way of the fresh cell `at`: clear the
/// cell, bring it to each byte in turn and write it, and end the cell's
/// life.
pub open spec fn string_code(from: int, at: int, bytes: Seq<u8>) -> Seq<Op> {
    join(set_code(from, at, 0), spell_code(0, bytes)) + visit(at, at, clear())
}

/// One step of a walk over the tape: the cell to go to, and whether to
/// increment it or to decrement it.
pub struct Stop {
    /// The cell to go to.
    pub at: int,
    /// Whether the cell is incremented; it is decremented otherwise.
    pub up: bool,
}

impl Stop {
    /// The node performed at this stop.
    pub open spec fn op(self) -> Op {
        if self.up {
            Op::Inc
        } else {
            Op::Dec
        }
    }

    /// What this stop adds to its cell.
    pub open spec fn change(self) -> int {
        if self.up {
            1
        } else {
            -1
        }
    }
}

/// Where the pointer is after a walk over `stops` that began at `from`.
pub open spec fn walk_end(from: int, stops: Seq<Stop>) -> int {
    if stops.len() == 0 {
        from
    } else {
        stops.last().at
    }
}

/// The code that goes to each stop of `stops` in order, beginning at `from`,
/// and steps the cell there up or down.
pub open spec fn walk(from: int, stops: Seq<Stop>) -> Seq<Op>
    decreases stops.len(),
{
    if stops.len() == 0 {
        Seq::empty()
    } else if stops.len() == 1 {
        visit(from, stops.last().at, stops.last().op())
    } else {
        walk(from, stops.drop_last()) + visit(
            stops.drop_last().last().at,
            stops.last().at,
            stops.last().op(),
        )
    }
}

/// The text of two pieces of code in a row is the text of the first followed
/// by the text of the second.
pub proof fn lemma_render_concat(first: Seq<Op>, second: Seq<Op>)
    ensures
        render(first + second) == render(first) + render(second),
    decreases second.len(),
{
    if second.len() == 0 {
        assert(first + second == first);
        assert(render(first) + render(second) == render(first));
    } else {
        lemma_render_concat(first, second.drop_last());
        assert((first + second).drop_last() == first + second.drop_last());
        assert((first + second).last() == second.last());
        assert(render(first) + render(second.drop_last()) + render_op(second.last()) == render(
            first,
        ) + (render(second.drop_last()) + render_op(second.last())));
    }
}

/// The text of one node by itself.
pub proof fn lemma_render_single(op: Op)
    ensures
        render(seq![op]) == render_op(op),
{
    assert(seq![op].drop_last() == Seq::<Op>::empty());
    assert(seq![op].last() == op);
    assert(render(Seq::<Op>::empty()) == Seq::<char>::empty());
    assert(render(seq![op]) == render(seq![op].drop_last()) + render_op(seq![op].last()));
    assert(Seq::<char>::empty() + render_op(op) == render_op(op));
}

/// The text of copies of a node is as many copies of the node's text; for a
/// node of one character, as many copies of that character.
pub proof fn lemma_render_copies(op: Op, count: int, glyph: char)
    requires
        render_op(op) == seq![glyph],
    ensures
        render(copies(op, count)) == Seq::new(
            if count < 0 {
                0nat
            } else {
                count as nat
            },
            |i: int| glyph,
        ),
    decreases count,
{
    if count > 0 {
        lemma_render_copies(op, count - 1, glyph);
        assert(copies(op, count).drop_last() == copies(op, count - 1));
        assert(copies(op, count).last() == op);
        assert(render(copies(op, count)) =~= Seq::new(count as nat, |i: int| glyph));
    }
}

} // verus!
