//! The allocating builder and the primitive operations of its cells.

use crate::builder::code::{
    clear, copies, fill_code, lemma_render_concat, lemma_render_copies, lemma_render_single, moves,
    set_code, shift, string_code, visit,
};
use crate::builder::string::CellString;
use crate::builder::trace::{lemma_emit, lemma_enter, lemma_leave, lemma_start, Frame, Trace};
use crate::builder::types::CellValue;
use crate::machine::{blank, run, Machine};
use crate::program::{
    balanced, closes_early, depth, render, render_op, strip, unmatched_closing, unmatched_opening,
    Op, Program,
};
use crate::runner::{residues, Runner};
use crate::runner::output::RunnerOutput;
use std::marker::PhantomData;
use vstd::prelude::*;
use vstd::string::{StringExecFns, StringSliceAdditionalSpecFns};

verus! {

/// The lowest free address at or after `from`, or the number of addresses if
/// there is none.
pub open spec fn first_free(allocations: Seq<bool>, from: int) -> int
    decreases allocations.len() - from,
{
    if from >= allocations.len() {
        allocations.len() as int
    } else if !allocations[from] {
        from
    } else {
        first_free(allocations, from + 1)
    }
}

/// Whether the `count` addresses from `start` on exist and are all free.
pub open spec fn free_run(allocations: Seq<bool>, start: int, count: int) -> bool {
    &&& 0 <= start
    &&& start + count <= allocations.len()
    &&& forall|i: int| start <= i < start + count ==> !#[trigger] allocations[i]
}

/// The lowest start, at or after `from`, of a run of `count` free addresses,
/// or the number of addresses if there is none.
pub open spec fn first_run(allocations: Seq<bool>, from: int, count: int) -> int
    decreases allocations.len() - from,
{
    if from + count > allocations.len() || from >= allocations.len() {
        allocations.len() as int
    } else if free_run(allocations, from, count) {
        from
    } else {
        first_run(allocations, from + 1, count)
    }
}

/// `allocations` with the `count` addresses from `start` on marked as used.
pub open spec fn mark_run(allocations: Seq<bool>, start: int, count: int) -> Seq<bool> {
    Seq::new(
        allocations.len(),
        |i: int|
            if start <= i < start + count {
                true
            } else {
                allocations[i]
            },
    )
}

/// The allocations after `count` cells were allocated one after the other,
/// each at the lowest address that was free at its turn.
pub open spec fn after_allocs(allocations: Seq<bool>, count: nat) -> Seq<bool>
    decreases count,
{
    if count == 0 {
        allocations
    } else {
        let before = after_allocs(allocations, (count - 1) as nat);
        before.update(first_free(before, 0), true)
    }
}

/// The addresses that `count` allocations, one after the other, hand out.
pub open spec fn fresh(allocations: Seq<bool>, count: nat) -> Seq<int> {
    Seq::new(count, |i: int| first_free(after_allocs(allocations, i as nat), 0))
}

/// Whether `count` allocations, one after the other, all find a free
/// address.
pub open spec fn room(allocations: Seq<bool>, count: nat) -> bool {
    forall|i: nat|
        i < count ==> first_free(#[trigger] after_allocs(allocations, i), 0) < allocations.len()
}

/// Allocating once and then `count` times is allocating `count + 1` times.
pub proof fn lemma_after_allocs_shift(allocations: Seq<bool>, count: nat)
    ensures
        after_allocs(allocations.update(first_free(allocations, 0), true), count) == after_allocs(
            allocations,
            count + 1,
        ),
    decreases count,
{
    let marked = allocations.update(first_free(allocations, 0), true);
    if count == 0 {
        assert(after_allocs(allocations, 0) == allocations);
        assert(after_allocs(allocations, 1) == after_allocs(allocations, 0).update(
            first_free(after_allocs(allocations, 0), 0),
            true,
        ));
        assert(after_allocs(marked, 0) == marked);
    } else {
        lemma_after_allocs_shift(allocations, (count - 1) as nat);
    }
}

/// After one allocation there is room for one allocation less, and the
/// addresses handed out are the remaining ones.
pub proof fn lemma_room_shift(allocations: Seq<bool>, count: nat)
    requires
        room(allocations, count + 1),
    ensures
        first_free(allocations, 0) < allocations.len(),
        !allocations[first_free(allocations, 0)],
        room(allocations.update(first_free(allocations, 0), true), count),
        forall|i: int|
            0 <= i < count ==> #[trigger] fresh(
                allocations.update(first_free(allocations, 0), true),
                count,
            )[i] == fresh(allocations, count + 1)[i + 1],
        fresh(allocations, count + 1)[0] == first_free(allocations, 0),
{
    let marked = allocations.update(first_free(allocations, 0), true);
    assert(after_allocs(allocations, 0) == allocations);
    assert(first_free(after_allocs(allocations, 0), 0) < allocations.len());
    lemma_first_free(allocations, 0);
    assert forall|i: nat| i < count implies first_free(#[trigger] after_allocs(marked, i), 0)
        < marked.len() by {
        lemma_after_allocs_shift(allocations, i);
        assert(first_free(after_allocs(allocations, i + 1), 0) < allocations.len());
    }
    assert forall|i: int| 0 <= i < count implies #[trigger] fresh(marked, count)[i] == fresh(
        allocations,
        count + 1,
    )[i + 1] by {
        lemma_after_allocs_shift(allocations, i as nat);
    }
}

/// Allocating keeps what was allocated, and keeps the number of addresses.
pub proof fn lemma_after_allocs_grows(allocations: Seq<bool>, count: nat)
    requires
        room(allocations, count),
    ensures
        after_allocs(allocations, count).len() == allocations.len(),
        forall|a: int|
            0 <= a < allocations.len() && allocations[a] ==> #[trigger] after_allocs(
                allocations,
                count,
            )[a],
    decreases count,
{
    if count > 0 {
        lemma_after_allocs_grows(allocations, (count - 1) as nat);
        lemma_first_free(after_allocs(allocations, (count - 1) as nat), 0);
        assert(first_free(after_allocs(allocations, (count - 1) as nat), 0) < allocations.len());
    }
}

/// The addresses that allocations hand out are addresses of the tape that
/// were free before, and no two of them are the same.
pub proof fn lemma_fresh(allocations: Seq<bool>, count: nat)
    requires
        room(allocations, count),
    ensures
        forall|i: int|
            0 <= i < count ==> 0 <= #[trigger] fresh(allocations, count)[i] < allocations.len(),
        forall|i: int|
            0 <= i < count ==> !allocations[#[trigger] fresh(allocations, count)[i]],
        forall|i: int, j: int|
            0 <= i < j < count ==> fresh(allocations, count)[i] != fresh(allocations, count)[j],
{
    assert forall|i: int| 0 <= i < count implies 0 <= #[trigger] fresh(allocations, count)[i]
        < allocations.len() && !allocations[fresh(allocations, count)[i]] by {
        let table = after_allocs(allocations, i as nat);
        lemma_after_allocs_grows(allocations, i as nat);
        lemma_first_free(table, 0);
        assert(first_free(table, 0) < allocations.len());
    }
    assert forall|i: int, j: int| 0 <= i < j < count implies fresh(allocations, count)[i]
        != fresh(allocations, count)[j] by {
        let earlier = after_allocs(allocations, i as nat);
        let later = after_allocs(allocations, j as nat);
        let marked = earlier.update(first_free(earlier, 0), true);
        lemma_after_allocs_grows(allocations, i as nat);
        lemma_first_free(earlier, 0);
        assert(first_free(earlier, 0) < allocations.len());
        assert(after_allocs(allocations, (i + 1) as nat) == marked);
        lemma_after_allocs_more(allocations, (i + 1) as nat, j as nat);
        lemma_after_allocs_grows(allocations, j as nat);
        lemma_first_free(later, 0);
        assert(first_free(later, 0) < allocations.len());
    }
}

/// What is allocated after some allocations is still allocated after more.
pub proof fn lemma_after_allocs_more(allocations: Seq<bool>, fewer: nat, more: nat)
    requires
        fewer <= more,
        room(allocations, more),
    ensures
        forall|a: int|
            0 <= a < allocations.len() && after_allocs(allocations, fewer)[a]
                ==> #[trigger] after_allocs(allocations, more)[a],
    decreases more - fewer,
{
    if fewer < more {
        lemma_after_allocs_more(allocations, fewer, (more - 1) as nat);
        lemma_after_allocs_grows(allocations, (more - 1) as nat);
        lemma_first_free(after_allocs(allocations, (more - 1) as nat), 0);
        assert(first_free(after_allocs(allocations, (more - 1) as nat), 0) < allocations.len());
    }
}

/// What `first_free` finds: every address from `from` up to the result is
/// allocated, and the result is free unless it is past the end.
pub proof fn lemma_first_free(allocations: Seq<bool>, from: int)
    requires
        0 <= from <= allocations.len(),
    ensures
        from <= first_free(allocations, from) <= allocations.len(),
        forall|i: int| from <= i < first_free(allocations, from) ==> #[trigger] allocations[i],
        first_free(allocations, from) < allocations.len() ==> !allocations[first_free(
            allocations,
            from,
        )],
    decreases allocations.len() - from,
{
    if from < allocations.len() && allocations[from] {
        lemma_first_free(allocations, from + 1);
    }
}

/// An address with only allocated addresses between `from` and itself, that
/// is free or past the end, is the one `first_free` finds.
pub proof fn lemma_first_free_is(allocations: Seq<bool>, from: int, found: int)
    requires
        0 <= from <= found <= allocations.len(),
        forall|i: int| from <= i < found ==> #[trigger] allocations[i],
        found < allocations.len() ==> !allocations[found],
    ensures
        first_free(allocations, from) == found,
    decreases found - from,
{
    if from < found {
        lemma_first_free_is(allocations, from + 1, found);
    }
}

/// A start with no run of `count` free addresses beginning between `from`
/// and itself, that begins such a run or is the number of addresses with no
/// room left for a run, is the one `first_run` finds.
pub proof fn lemma_first_run_is(allocations: Seq<bool>, from: int, count: int, found: int)
    requires
        0 <= from <= found <= allocations.len(),
        count > 0,
        forall|i: int| from <= i < found ==> !#[trigger] free_run(allocations, i, count),
        found < allocations.len() ==> free_run(allocations, found, count),
    ensures
        first_run(allocations, from, count) == found,
    decreases found - from,
{
    if from < found {
        lemma_first_run_is(allocations, from + 1, count, found);
    }
}

/// What `first_run` finds: no run of `count` free addresses begins between
/// `from` and the result, and one begins at the result unless the result is
/// the number of addresses.
pub proof fn lemma_first_run(allocations: Seq<bool>, from: int, count: int)
    requires
        0 <= from <= allocations.len(),
        count > 0,
    ensures
        from <= first_run(allocations, from, count) <= allocations.len(),
        forall|i: int|
            from <= i < first_run(allocations, from, count) ==> !#[trigger] free_run(
                allocations,
                i,
                count,
            ),
        first_run(allocations, from, count) < allocations.len() ==> free_run(
            allocations,
            first_run(allocations, from, count),
            count,
        ),
    decreases allocations.len() - from,
{
    if from + count > allocations.len() || from >= allocations.len() {
        assert forall|i: int| from <= i < allocations.len() implies !#[trigger] free_run(
            allocations,
            i,
            count,
        ) by {}
    } else if !free_run(allocations, from, count) {
        lemma_first_run(allocations, from + 1, count);
    }
}

/// The number of addresses an allocation map shows: those before the
/// highest allocated address, but four at least, and never more than there
/// are.
pub open spec fn shown(allocations: Seq<bool>, upto: int) -> int
    decreases upto,
{
    if upto <= 0 {
        if allocations.len() < 4 {
            allocations.len() as int
        } else {
            4
        }
    } else if allocations[upto - 1] {
        if upto - 1 < 4 {
            if allocations.len() < 4 {
                allocations.len() as int
            } else {
                4
            }
        } else {
            upto - 1
        }
    } else {
        shown(allocations, upto - 1)
    }
}

/// The digits of an allocation map for the first `count` addresses: `1` for
/// an allocated address and `0` for a free one, with a combining low line
/// after the digit of the address the cursor is at.
pub open spec fn digits(allocations: Seq<bool>, cursor: int, count: int) -> Seq<char>
    decreases count,
{
    if count <= 0 {
        Seq::empty()
    } else {
        let digit = if allocations[count - 1] {
            '1'
        } else {
            '0'
        };
        let head = digits(allocations, cursor, count - 1).push(digit);
        if count - 1 == cursor {
            head.push('\u{332}')
        } else {
            head
        }
    }
}

/// An allocating builder for programs on a tape of `N` cells of type `T`.
///
/// The builder owns the program text written so far, the address the
/// program's pointer is at after that text, and the table of allocated
/// addresses.
pub struct Builder<const N: usize, T: CellValue> {
    source: String,
    pointer: usize,
    allocations: [bool; N],
    lowest_unallocated_value: usize,
    _phantom: PhantomData<T>,
}

/// An allocated cell: the owner of one address of a builder's tape.
#[must_use]
pub struct Cell<const N: usize, T: CellValue> {
    location: usize,
    _phantom: PhantomData<T>,
}

impl<const N: usize, T: CellValue> Cell<N, T> {
    /// The address this cell owns.
    pub closed spec fn addr(&self) -> int {
        self.location as int
    }

    /// The address this cell owns.
    pub fn location(&self) -> (location: usize)
        ensures
            location == self.addr(),
    {
        self.location
    }

    /// Goes to this cell and writes the one character of `op`, keeping the
    /// record.
    pub(crate) fn mark(
        &self,
        b: &mut Builder<N, T>,
        glyph: &str,
        Ghost(op): Ghost<Op>,
        Ghost(tr): Ghost<Trace>,
    ) -> (res: Ghost<Trace>)
        requires
            old(b).ready(self, tr),
            render_op(op) == glyph@,
        ensures
            final(b).traced(old(b), res@, self.addr()),
            res@ == tr.emit(visit(old(b).cursor(), self.addr(), op)),
    {
        let ghost lead = moves(b.cursor(), self.addr());
        proof {
            lemma_emit(tr, lead.push(op));
            lemma_render_concat(lead, seq![op]);
            lemma_render_single(op);
            assert(lead.push(op) == lead + seq![op]);
            assert(tr.text() + (render(lead) + render_op(op)) == tr.text() + render(lead)
                + render_op(op));
        }
        b.travel(self.location);
        b.put(glyph);
        Ghost(tr.emit(visit(old(b).cursor(), self.addr(), op)))
    }

    /// Increments this cell, keeping the record.
    pub(crate) fn inc_in(&self, b: &mut Builder<N, T>, Ghost(tr): Ghost<Trace>) -> (res: Ghost<
        Trace,
    >)
        requires
            old(b).ready(self, tr),
        ensures
            final(b).traced(old(b), res@, self.addr()),
            res@ == tr.emit(visit(old(b).cursor(), self.addr(), Op::Inc)),
    {
        proof {
            reveal_strlit("+");
            assert("+"@ =~= seq!['+']);
        }
        self.mark(b, "+", Ghost(Op::Inc), Ghost(tr))
    }

    /// Decrements this cell, keeping the record.
    pub(crate) fn dec_in(&self, b: &mut Builder<N, T>, Ghost(tr): Ghost<Trace>) -> (res: Ghost<
        Trace,
    >)
        requires
            old(b).ready(self, tr),
        ensures
            final(b).traced(old(b), res@, self.addr()),
            res@ == tr.emit(visit(old(b).cursor(), self.addr(), Op::Dec)),
    {
        proof {
            reveal_strlit("-");
            assert("-"@ =~= seq!['-']);
        }
        self.mark(b, "-", Ghost(Op::Dec), Ghost(tr))
    }

    /// Reads into this cell, keeping the record.
    pub(crate) fn read_in(&self, b: &mut Builder<N, T>, Ghost(tr): Ghost<Trace>) -> (res: Ghost<
        Trace,
    >)
        requires
            old(b).ready(self, tr),
        ensures
            final(b).traced(old(b), res@, self.addr()),
            res@ == tr.emit(visit(old(b).cursor(), self.addr(), Op::Read)),
    {
        proof {
            reveal_strlit(",");
            assert(","@ =~= seq![',']);
        }
        self.mark(b, ",", Ghost(Op::Read), Ghost(tr))
    }

    /// Writes this cell, keeping the record.
    pub(crate) fn write_in(&self, b: &mut Builder<N, T>, Ghost(tr): Ghost<Trace>) -> (res: Ghost<
        Trace,
    >)
        requires
            old(b).ready(self, tr),
        ensures
            final(b).traced(old(b), res@, self.addr()),
            res@ == tr.emit(visit(old(b).cursor(), self.addr(), Op::Write)),
    {
        proof {
            reveal_strlit(".");
            assert("."@ =~= seq!['.']);
        }
        self.mark(b, ".", Ghost(Op::Write), Ghost(tr))
    }

    /// Sets this cell to zero, keeping the record.
    pub(crate) fn zero_in(&self, b: &mut Builder<N, T>, Ghost(tr): Ghost<Trace>) -> (res: Ghost<
        Trace,
    >)
        requires
            old(b).ready(self, tr),
        ensures
            final(b).traced(old(b), res@, self.addr()),
            res@ == tr.emit(visit(old(b).cursor(), self.addr(), clear())),
    {
        proof {
            reveal_strlit("[-]");
            lemma_render_single(Op::Dec);
            assert("[-]"@ =~= seq!['['] + seq!['-'] + seq![']']);
        }
        self.mark(b, "[-]", Ghost(clear()), Ghost(tr))
    }

    /// Goes to this cell and changes it by `delta`, or by minus `delta` if
    /// not `forward`, keeping the record.
    pub(crate) fn shift_in(
        &self,
        b: &mut Builder<N, T>,
        delta: isize,
        forward: bool,
        Ghost(tr): Ghost<Trace>,
    ) -> (res: Ghost<Trace>)
        requires
            old(b).ready(self, tr),
        ensures
            final(b).traced(old(b), res@, self.addr()),
            res@ == tr.emit(
                moves(old(b).cursor(), self.addr()) + shift(
                    if forward {
                        delta as int
                    } else {
                        -(delta as int)
                    },
                ),
            ),
    {
        let ghost lead = moves(b.cursor(), self.addr());
        let ghost change = shift(if forward { delta as int } else { -(delta as int) });
        proof {
            lemma_emit(tr, lead + change);
            lemma_render_concat(lead, change);
            assert(tr.text() + (render(lead) + render(change)) == tr.text() + render(lead)
                + render(change));
        }
        b.travel(self.location);
        b.nudge(delta, forward);
        Ghost(tr.emit(lead + change))
    }

    /// Clears this cell and changes it by `delta`, keeping the record.
    pub(crate) fn set_in(
        &self,
        b: &mut Builder<N, T>,
        delta: isize,
        Ghost(tr): Ghost<Trace>,
    ) -> (res: Ghost<Trace>)
        requires
            old(b).ready(self, tr),
        ensures
            final(b).traced(old(b), res@, self.addr()),
            res@ == tr.emit(set_code(old(b).cursor(), self.addr(), delta as int)),
    {
        let ghost code = set_code(b.cursor(), self.addr(), delta as int);
        let ghost first = visit(b.cursor(), self.addr(), clear());
        let Ghost(mid) = self.zero_in(b, Ghost(tr));
        proof {
            lemma_emit(tr, first);
            lemma_emit(tr, code);
            lemma_render_concat(first, shift(delta as int));
            assert(tr.text() + (render(first) + render(shift(delta as int))) == tr.text() + render(
                first,
            ) + render(shift(delta as int)));
        }
        b.nudge(delta, true);
        Ghost(tr.emit(code))
    }

    /// Goes to this cell and opens a loop on it, keeping the record.
    pub(crate) fn open_in(&self, b: &mut Builder<N, T>, Ghost(tr): Ghost<Trace>) -> (res: Ghost<
        Trace,
    >)
        requires
            old(b).ready(self, tr),
        ensures
            final(b).traced(old(b), res@, self.addr()),
            res@ == tr.enter(moves(old(b).cursor(), self.addr())),
            res@.stack.len() > 0,
            res@.stack.drop_last() == tr.stack,
            res@.stack.last() == (Frame {
                code: tr.code,
                lead: moves(old(b).cursor(), self.addr()),
            }),
    {
        proof {
            reveal_strlit("[");
            assert("["@ =~= seq!['[']);
            lemma_enter(tr, moves(b.cursor(), self.addr()));
            assert(tr.enter(moves(b.cursor(), self.addr())).stack.drop_last() == tr.stack);
        }
        b.travel(self.location);
        b.put("[");
        Ghost(tr.enter(moves(old(b).cursor(), self.addr())))
    }

    /// Goes to this cell and closes the innermost open loop, keeping the
    /// record.
    pub(crate) fn close_in(&self, b: &mut Builder<N, T>, Ghost(tr): Ghost<Trace>) -> (res: Ghost<
        Trace,
    >)
        requires
            old(b).ready(self, tr),
            tr.stack.len() > 0,
        ensures
            final(b).traced(old(b), res@, self.addr()),
            res@ == tr.leave(moves(old(b).cursor(), self.addr())),
    {
        proof {
            reveal_strlit("]");
            assert("]"@ =~= seq![']']);
            lemma_leave(tr, moves(b.cursor(), self.addr()));
        }
        b.travel(self.location);
        b.put("]");
        Ghost(tr.leave(moves(old(b).cursor(), self.addr())))
    }

    /// Goes to this cell in memory.
    pub fn goto(&self, b: &mut Builder<N, T>)
        requires
            old(b).wf(),
            old(b).owns(self),
        ensures
            final(b).wf(),
            final(b).extends(old(b), moves(old(b).cursor(), self.addr()), self.addr()),
    {
        b.travel(self.location);
    }

    /// Increments this cell.
    pub fn inc(&self, b: &mut Builder<N, T>)
        requires
            old(b).wf(),
            old(b).owns(self),
        ensures
            final(b).wf(),
            final(b).extends(
                old(b),
                visit(old(b).cursor(), self.addr(), Op::Inc),
                self.addr(),
            ),
    {
        let ghost tr = Trace::start(b.text());
        proof {
            lemma_start(b.text(), visit(b.cursor(), self.addr(), Op::Inc));
        }
        let _ = self.inc_in(b, Ghost(tr));
    }

    /// Decrements this cell.
    pub fn dec(&self, b: &mut Builder<N, T>)
        requires
            old(b).wf(),
            old(b).owns(self),
        ensures
            final(b).wf(),
            final(b).extends(
                old(b),
                visit(old(b).cursor(), self.addr(), Op::Dec),
                self.addr(),
            ),
    {
        let ghost tr = Trace::start(b.text());
        proof {
            lemma_start(b.text(), visit(b.cursor(), self.addr(), Op::Dec));
        }
        let _ = self.dec_in(b, Ghost(tr));
    }

    /// Reads a value from input into this cell.
    pub fn read(&self, b: &mut Builder<N, T>)
        requires
            old(b).wf(),
            old(b).owns(self),
        ensures
            final(b).wf(),
            final(b).extends(
                old(b),
                visit(old(b).cursor(), self.addr(), Op::Read),
                self.addr(),
            ),
    {
        let ghost tr = Trace::start(b.text());
        proof {
            lemma_start(b.text(), visit(b.cursor(), self.addr(), Op::Read));
        }
        let _ = self.read_in(b, Ghost(tr));
    }

    /// Writes the value of this cell into output.
    pub fn write(&self, b: &mut Builder<N, T>)
        requires
            old(b).wf(),
            old(b).owns(self),
        ensures
            final(b).wf(),
            final(b).extends(
                old(b),
                visit(old(b).cursor(), self.addr(), Op::Write),
                self.addr(),
            ),
    {
        let ghost tr = Trace::start(b.text());
        proof {
            lemma_start(b.text(), visit(b.cursor(), self.addr(), Op::Write));
        }
        let _ = self.write_in(b, Ghost(tr));
    }

    /// Sets the value of this cell to zero.
    pub fn zero(&self, b: &mut Builder<N, T>)
        requires
            old(b).wf(),
            old(b).owns(self),
        ensures
            final(b).wf(),
            final(b).extends(
                old(b),
                visit(old(b).cursor(), self.addr(), clear()),
                self.addr(),
            ),
    {
        let ghost tr = Trace::start(b.text());
        proof {
            lemma_start(b.text(), visit(b.cursor(), self.addr(), clear()));
        }
        let _ = self.zero_in(b, Ghost(tr));
    }

    /// Sets the value of this cell to a given value.
    pub fn set(&self, b: &mut Builder<N, T>, value: T)
        requires
            old(b).wf(),
            old(b).owns(self),
            isize::MIN <= value.delta() <= isize::MAX,
        ensures
            final(b).wf(),
            final(b).extends(
                old(b),
                set_code(old(b).cursor(), self.addr(), value.delta()),
                self.addr(),
            ),
    {
        let ghost tr = Trace::start(b.text());
        proof {
            lemma_start(b.text(), set_code(b.cursor(), self.addr(), value.delta()));
        }
        let _ = self.set_in(b, value.into_isize(), Ghost(tr));
    }

    /// Adds a constant to this cell: as many increments as the constant
    /// says, or decrements for a negative one.
    pub fn add_assign(&self, b: &mut Builder<N, T>, rhs: T)
        requires
            old(b).wf(),
            old(b).owns(self),
            isize::MIN <= rhs.delta() <= isize::MAX,
        ensures
            final(b).wf(),
            final(b).extends(
                old(b),
                moves(old(b).cursor(), self.addr()) + shift(rhs.delta()),
                self.addr(),
            ),
    {
        let ghost tr = Trace::start(b.text());
        proof {
            lemma_start(b.text(), moves(b.cursor(), self.addr()) + shift(rhs.delta()));
        }
        let _ = self.shift_in(b, rhs.into_isize(), true, Ghost(tr));
    }

    /// Subtracts a constant from this cell: as many decrements as the
    /// constant says, or increments for a negative one.
    pub fn sub_assign(&self, b: &mut Builder<N, T>, rhs: T)
        requires
            old(b).wf(),
            old(b).owns(self),
            isize::MIN <= rhs.delta() <= isize::MAX,
        ensures
            final(b).wf(),
            final(b).extends(
                old(b),
                moves(old(b).cursor(), self.addr()) + shift(-rhs.delta()),
                self.addr(),
            ),
    {
        let ghost tr = Trace::start(b.text());
        proof {
            lemma_start(b.text(), moves(b.cursor(), self.addr()) + shift(-rhs.delta()));
        }
        let _ = self.shift_in(b, rhs.into_isize(), false, Ghost(tr));
    }

    /// Clears this cell and gives its address back to the builder. This is
    /// what ends a cell's life: the address is zero for whoever gets it next.
    pub fn drop(self, b: &mut Builder<N, T>)
        requires
            old(b).wf(),
            old(b).owns(&self),
        ensures
            final(b).wf(),
            final(b).text() == old(b).text() + render(
                visit(old(b).cursor(), self.addr(), clear()),
            ),
            final(b).cursor() == self.addr(),
            final(b).allocations() == old(b).allocations().update(self.addr(), false),
            final(b).lowest_free() == if self.addr() < old(b).lowest_free() {
                self.addr()
            } else {
                old(b).lowest_free()
            },
    {
        self.zero(b);
        b.reclaim(self);
    }

    /// Clears this cell and gives its address back, keeping the record.
    pub(crate) fn drop_in(self, b: &mut Builder<N, T>, Ghost(tr): Ghost<Trace>) -> (res: Ghost<
        Trace,
    >)
        requires
            old(b).ready(&self, tr),
        ensures
            final(b).wf(),
            final(b).text() == res@.text(),
            final(b).cursor() == self.addr(),
            final(b).allocations() == old(b).allocations().update(self.addr(), false),
            res@ == tr.emit(visit(old(b).cursor(), self.addr(), clear())),
    {
        let res = self.zero_in(b, Ghost(tr));
        b.reclaim(self);
        res
    }

    /// Runs code while the value of this cell is nonzero: opens a loop on
    /// this cell, lets `f` write the body, comes back to this cell and
    /// closes the loop. `f` is called exactly once.
    pub fn while_nonzero<F: FnOnce(&mut Builder<N, T>)>(&self, b: &mut Builder<N, T>, f: F)
        requires
            old(b).wf(),
            old(b).owns(self),
            forall|x: &mut Builder<N, T>|
                x.wf() && x.follows(
                    old(b),
                    render(moves(old(b).cursor(), self.addr())) + seq!['['],
                    self.addr(),
                ) ==> f.requires((x,)),
            forall|x: &mut Builder<N, T>| #[trigger]
                f.ensures((x,), ()) ==> final(x).wf() && final(x).owns(self),
        ensures
            final(b).wf(),
            exists|x: &mut Builder<N, T>|
                {
                    &&& x.follows(
                        old(b),
                        render(moves(old(b).cursor(), self.addr())) + seq!['['],
                        self.addr(),
                    )
                    &&& #[trigger] f.ensures((x,), ())
                    &&& final(b).follows(
                        final(x),
                        render(moves(final(x).cursor(), self.addr())) + seq![']'],
                        self.addr(),
                    )
                },
    {
        proof {
            reveal_strlit("[");
            reveal_strlit("]");
            assert("["@ =~= seq!['[']);
            assert("]"@ =~= seq![']']);
        }
        b.travel(self.location);
        b.put("[");
        proof {
            assert(b.text() == old(b).text() + (render(moves(old(b).cursor(), self.addr()))
                + seq!['[']));
        }
        f(b);
        let ghost mid = *b;
        b.travel(self.location);
        b.put("]");
        proof {
            assert(b.text() == mid.text() + (render(moves(mid.cursor(), self.addr())) + seq![']']));
        }
    }

    /// Runs code while the value of this cell is nonzero, and hands this
    /// cell to the code: opens a loop on this cell, lets `f` write the body,
    /// comes back to this cell and closes the loop. `f` is called exactly
    /// once.
    pub fn while_nonzero_mut<F: FnOnce(&Self, &mut Builder<N, T>)>(
        &self,
        b: &mut Builder<N, T>,
        f: F,
    )
        requires
            old(b).wf(),
            old(b).owns(self),
            forall|x: &mut Builder<N, T>|
                x.wf() && x.follows(
                    old(b),
                    render(moves(old(b).cursor(), self.addr())) + seq!['['],
                    self.addr(),
                ) ==> f.requires((self, x)),
            forall|x: &mut Builder<N, T>| #[trigger]
                f.ensures((self, x), ()) ==> final(x).wf() && final(x).owns(self),
        ensures
            final(b).wf(),
            exists|x: &mut Builder<N, T>|
                {
                    &&& x.follows(
                        old(b),
                        render(moves(old(b).cursor(), self.addr())) + seq!['['],
                        self.addr(),
                    )
                    &&& #[trigger] f.ensures((self, x), ())
                    &&& final(b).follows(
                        final(x),
                        render(moves(final(x).cursor(), self.addr())) + seq![']'],
                        self.addr(),
                    )
                },
    {
        proof {
            reveal_strlit("[");
            reveal_strlit("]");
            assert("["@ =~= seq!['[']);
            assert("]"@ =~= seq![']']);
        }
        b.travel(self.location);
        b.put("[");
        proof {
            assert(b.text() == old(b).text() + (render(moves(old(b).cursor(), self.addr()))
                + seq!['[']));
        }
        f(self, b);
        let ghost mid = *b;
        b.travel(self.location);
        b.put("]");
        proof {
            assert(b.text() == mid.text() + (render(moves(mid.cursor(), self.addr())) + seq![']']));
        }
    }
}

impl<const N: usize, T: CellValue> Builder<N, T> {
    /// The program text written so far.
    pub closed spec fn text(&self) -> Seq<char> {
        self.source@
    }

    /// The address the program's pointer is at after the text written so far.
    pub closed spec fn cursor(&self) -> int {
        self.pointer as int
    }

    /// For each address, whether it is allocated.
    pub closed spec fn allocations(&self) -> Seq<bool> {
        self.allocations@
    }

    /// The table of allocations has one entry for each of the `N` addresses.
    pub proof fn tape_len(&self)
        ensures
            self.allocations().len() == N,
    {
    }

    /// The lowest free address, or `N` if every address is allocated.
    pub open spec fn lowest_free(&self) -> int {
        first_free(self.allocations(), 0)
    }

    /// The cursor is on the tape (or at 0 on an empty tape), and the cached
    /// hint is the lowest free address.
    pub closed spec fn wf(&self) -> bool {
        &&& self.pointer == 0 || self.pointer < N
        &&& self.lowest_unallocated_value == first_free(self.allocations@, 0)
    }

    /// Whether `cell` is a cell of this builder's tape that is allocated.
    pub open spec fn owns(&self, cell: &Cell<N, T>) -> bool {
        &&& self.allocations().len() == N
        &&& 0 <= cell.addr() < N
        &&& self.allocations()[cell.addr()]
    }

    /// Whether this builder is `old` with `chars` appended to the text and
    /// the cursor at `cursor`, the allocations untouched.
    pub open spec fn follows(&self, old: &Self, chars: Seq<char>, cursor: int) -> bool {
        &&& self.text() == old.text() + chars
        &&& self.cursor() == cursor
        &&& self.allocations() == old.allocations()
    }

    /// Whether this builder is `old` with the text of `code` appended and
    /// the cursor at `cursor`, the allocations untouched.
    pub open spec fn extends(&self, old: &Self, code: Seq<Op>, cursor: int) -> bool {
        self.follows(old, render(code), cursor)
    }

    /// Creates a new builder: no text, the cursor at address 0, every
    /// address free.
    pub fn new() -> (b: Self)
        ensures
            b.wf(),
            b.text() == Seq::<char>::empty(),
            b.cursor() == 0,
            b.allocations() == Seq::new(N as nat, |i: int| false),
    {
        let b = Builder {
            source: String::new(),
            pointer: 0,
            allocations: [false;N],
            lowest_unallocated_value: 0,
            _phantom: PhantomData,
        };
        proof {
            assert(b.allocations@ =~= Seq::new(N as nat, |i: int| false));
        }
        b
    }

    /// Creates an array of cells guaranteed to be consecutive in memory:
    /// the lowest run of `count` free addresses. The cells hold whatever the
    /// program left there, so set them before relying on their values.
    pub fn array_uninit(&mut self, count: usize) -> (cells: Vec<Cell<N, T>>)
        requires
            old(self).wf(),
            count > 0,
            first_run(old(self).allocations(), 0, count as int) < N,
        ensures
            final(self).wf(),
            final(self).text() == old(self).text(),
            final(self).cursor() == old(self).cursor(),
            final(self).allocations() == mark_run(
                old(self).allocations(),
                first_run(old(self).allocations(), 0, count as int),
                count as int,
            ),
            cells@.len() == count,
            forall|i: int|
                0 <= i < count ==> (#[trigger] cells@[i]).addr() == first_run(
                    old(self).allocations(),
                    0,
                    count as int,
                ) + i,
            forall|i: int| 0 <= i < count ==> final(self).owns(#[trigger] &cells@[i]),
    {
        let location = self.lowest_unallocated_value;
        let ghost before = self.allocations@;
        let ghost found = first_run(before, 0, count as int);
        proof {
            lemma_first_free(before, 0);
            lemma_first_run(before, 0, count as int);
            assert forall|i: int| 0 <= i < location implies !#[trigger] free_run(
                before,
                i,
                count as int,
            ) by {
                assert(before[i]);
            }
            if found < location {
                assert(!free_run(before, found, count as int));
            }
        }
        let mut chunk_start = location;
        loop
            invariant_except_break
                location <= chunk_start <= found,
            invariant
                self.allocations@ == before,
                found == first_run(before, 0, count as int),
                found < N,
                count > 0,
                free_run(before, found, count as int),
                forall|i: int| 0 <= i < found ==> !#[trigger] free_run(before, i, count as int),
            ensures
                chunk_start == found,
            decreases found - chunk_start,
        {
            let mut offset: usize = 0;
            while offset < count && !self.allocations[chunk_start + offset]
                invariant
                    self.allocations@ == before,
                    offset <= count,
                    chunk_start <= found,
                    free_run(before, found, count as int),
                    chunk_start + offset <= found + count,
                    chunk_start + offset < N || offset == count,
                    forall|i: int|
                        chunk_start <= i < chunk_start + offset ==> !#[trigger] before[i],
                decreases count - offset,
            {
                proof {
                    if chunk_start + offset + 1 > found + count {
                        assert(chunk_start + offset == found + count);
                    }
                }
                offset += 1;
                proof {
                    if offset < count && chunk_start + offset >= found + count {
                        assert(false);
                    }
                }
            }
            if offset == count {
                proof {
                    assert(free_run(before, chunk_start as int, count as int));
                }
                break ;
            }
            proof {
                assert(before[chunk_start + offset]);
                assert(!free_run(before, chunk_start as int, count as int));
            }
            chunk_start += 1;
        }

        let mut cells: Vec<Cell<N, T>> = Vec::new();
        let mut index: usize = 0;
        while index < count
            invariant
                index <= count,
                chunk_start + count <= N,
                chunk_start == found,
                cells@.len() == index,
                forall|i: int| 0 <= i < index ==> (#[trigger] cells@[i]).addr() == chunk_start + i,
                self.allocations@ == mark_run(before, chunk_start as int, index as int),
                self.source == old(self).source,
                self.pointer == old(self).pointer,
                self.lowest_unallocated_value == location,
            decreases count - index,
        {
            self.allocations[chunk_start + index] = true;
            cells.push(Cell { location: chunk_start + index, _phantom: PhantomData });
            index += 1;
            proof {
                assert(self.allocations@ =~= mark_run(before, chunk_start as int, index as int));
            }
        }

        let ghost after = self.allocations@;
        let mut next_location = location;
        while next_location < N && self.allocations[next_location]
            invariant
                location <= next_location <= N,
                self.allocations@ == after,
                after.len() == N,
                forall|i: int| 0 <= i < next_location ==> #[trigger] after[i],
                self.source == old(self).source,
                self.pointer == old(self).pointer,
            decreases N - next_location,
        {
            next_location += 1;
        }
        self.lowest_unallocated_value = next_location;
        proof {
            lemma_first_free_is(after, 0, next_location as int);
        }
        cells
    }

    /// Creates a new cell at the lowest free address. The cell holds
    /// whatever the program left there, so set it before relying on its
    /// value.
    pub fn cell_uninit(&mut self) -> (cell: Cell<N, T>)
        requires
            old(self).wf(),
            old(self).lowest_free() < N,
        ensures
            final(self).wf(),
            final(self).text() == old(self).text(),
            final(self).cursor() == old(self).cursor(),
            cell.addr() == old(self).lowest_free(),
            final(self).allocations() == old(self).allocations().update(cell.addr(), true),
            final(self).owns(&cell),
    {
        let location = self.lowest_unallocated_value;
        let ghost before = self.allocations@;
        proof {
            lemma_first_free(before, 0);
        }
        self.allocations[location] = true;
        let ghost after = self.allocations@;

        let mut next_location = location + 1;
        while next_location < N && self.allocations[next_location]
            invariant
                location < next_location <= N,
                self.allocations@ == after,
                after == before.update(location as int, true),
                after.len() == N,
                forall|i: int| 0 <= i < next_location ==> #[trigger] after[i],
                self.source == old(self).source,
                self.pointer == old(self).pointer,
            decreases N - next_location,
        {
            next_location += 1;
        }
        self.lowest_unallocated_value = next_location;
        proof {
            lemma_first_free_is(after, 0, next_location as int);
        }
        Cell { location, _phantom: PhantomData }
    }

    /// Creates a new cell at the lowest free address and clears it and
    /// changes it by `delta`, keeping the record.
    pub(crate) fn cell_in(&mut self, delta: isize, Ghost(tr): Ghost<Trace>) -> (res: (
        Cell<N, T>,
        Ghost<Trace>,
    ))
        requires
            old(self).wf(),
            old(self).lowest_free() < N,
            old(self).text() == tr.text(),
        ensures
            final(self).wf(),
            final(self).owns(&res.0),
            res.0.addr() == old(self).lowest_free(),
            final(self).text() == res.1@.text(),
            final(self).cursor() == res.0.addr(),
            final(self).allocations() == old(self).allocations().update(res.0.addr(), true),
            res.1@ == tr.emit(set_code(old(self).cursor(), res.0.addr(), delta as int)),
    {
        let cell = self.cell_uninit();
        let tr = cell.set_in(self, delta, Ghost(tr));
        (cell, tr)
    }

    /// Creates a new cell with a specific value.
    pub fn cell(&mut self, value: T) -> (cell: Cell<N, T>)
        requires
            old(self).wf(),
            old(self).lowest_free() < N,
            isize::MIN <= value.delta() <= isize::MAX,
        ensures
            final(self).wf(),
            final(self).owns(&cell),
            cell.addr() == old(self).lowest_free(),
            final(self).text() == old(self).text() + render(
                set_code(old(self).cursor(), cell.addr(), value.delta()),
            ),
            final(self).cursor() == cell.addr(),
            final(self).allocations() == old(self).allocations().update(cell.addr(), true),
    {
        let cell = self.cell_uninit();
        cell.set(self, value);
        cell
    }

    /// Creates an array of initialized cells guaranteed to be consecutive
    /// in memory.
    pub fn array(&mut self, value: &[T]) -> (cells: Vec<Cell<N, T>>)
        requires
            old(self).wf(),
            value@.len() > 0,
            first_run(old(self).allocations(), 0, value@.len() as int) < N,
            forall|i: int|
                0 <= i < value@.len() ==> isize::MIN <= (#[trigger] value@[i]).delta()
                    <= isize::MAX,
        ensures
            final(self).wf(),
            final(self).text() == old(self).text() + render(
                fill_code(
                    old(self).cursor(),
                    first_run(old(self).allocations(), 0, value@.len() as int),
                    Seq::new(value@.len(), |i: int| value@[i].delta()),
                ),
            ),
            final(self).cursor() == first_run(old(self).allocations(), 0, value@.len() as int)
                + value@.len() - 1,
            final(self).allocations() == mark_run(
                old(self).allocations(),
                first_run(old(self).allocations(), 0, value@.len() as int),
                value@.len() as int,
            ),
            cells@.len() == value@.len(),
            forall|i: int|
                0 <= i < value@.len() ==> (#[trigger] cells@[i]).addr() == first_run(
                    old(self).allocations(),
                    0,
                    value@.len() as int,
                ) + i,
            forall|i: int| 0 <= i < value@.len() ==> final(self).owns(#[trigger] &cells@[i]),
    {
        let ghost start = first_run(self.allocations(), 0, value@.len() as int);
        let ghost deltas = Seq::new(value@.len(), |i: int| value@[i].delta());
        let ghost from = self.cursor();
        let ghost base = self.text();
        proof {
            lemma_first_run(self.allocations(), 0, value@.len() as int);
        }
        let cells = self.array_uninit(value.len());
        let ghost marked = self.allocations();

        let mut index: usize = 0;
        while index < value.len()
            invariant
                index <= value.len(),
                self.wf(),
                self.allocations() == marked,
                marked.len() == N,
                cells@.len() == value@.len(),
                0 <= start,
                start + value@.len() <= N,
                forall|i: int| 0 <= i < value@.len() ==> (#[trigger] cells@[i]).addr() == start + i,
                forall|i: int| start <= i < start + value@.len() ==> #[trigger] marked[i],
                forall|i: int|
                    0 <= i < value@.len() ==> isize::MIN <= (#[trigger] value@[i]).delta()
                        <= isize::MAX,
                deltas == Seq::new(value@.len(), |i: int| value@[i].delta()),
                self.text() == base + render(fill_code(from, start, deltas.take(index as int))),
                self.cursor() == if index == 0 {
                    from
                } else {
                    start + index - 1
                },
            decreases value.len() - index,
        {
            let ghost before = self.text();
            let ghost so_far = fill_code(from, start, deltas.take(index as int));
            let ghost piece = set_code(self.cursor(), start + index, deltas[index as int]);
            proof {
                assert(cells@[index as int].addr() == start + index);
                assert(marked[start + index]);
                assert(deltas.take(index + 1).drop_last() == deltas.take(index as int));
                assert(deltas.take(index + 1).last() == deltas[index as int]);
                lemma_render_concat(so_far, piece);
                assert(render(Seq::<Op>::empty()) == Seq::<char>::empty());
                assert(base + (render(so_far) + render(piece)) == base + render(so_far) + render(
                    piece,
                ));
                assert(Seq::<char>::empty() + render(piece) == render(piece));
            }
            cells[index].set(self, value[index]);
            index += 1;
        }
        proof {
            assert(deltas.take(value@.len() as int) == deltas);
        }
        cells
    }

    /// Creates a new cell containing the next value of input, or zero if
    /// there is no input left.
    pub fn read(&mut self) -> (cell: Cell<N, T>)
        requires
            old(self).wf(),
            old(self).lowest_free() < N,
        ensures
            final(self).wf(),
            final(self).owns(&cell),
            cell.addr() == old(self).lowest_free(),
            final(self).text() == old(self).text() + render(
                set_code(old(self).cursor(), cell.addr(), 0) + visit(
                    cell.addr(),
                    cell.addr(),
                    Op::Read,
                ),
            ),
            final(self).cursor() == cell.addr(),
            final(self).allocations() == old(self).allocations().update(cell.addr(), true),
    {
        proof {
            T::modular();
            lemma_render_concat(
                set_code(self.cursor(), self.lowest_free(), 0),
                visit(self.lowest_free(), self.lowest_free(), Op::Read),
            );
            let piece = render(set_code(self.cursor(), self.lowest_free(), 0));
            let last = render(visit(self.lowest_free(), self.lowest_free(), Op::Read));
            assert(self.text() + (piece + last) == self.text() + piece + last);
        }
        let cell = self.cell(T::ZERO);
        cell.read(self);
        cell
    }

    /// Creates a new cell containing the next value of input, or `default`
    /// if there is no input left.
    pub fn read_or(&mut self, default: T) -> (cell: Cell<N, T>)
        requires
            old(self).wf(),
            old(self).lowest_free() < N,
            isize::MIN <= default.delta() <= isize::MAX,
        ensures
            final(self).wf(),
            final(self).owns(&cell),
            cell.addr() == old(self).lowest_free(),
            final(self).text() == old(self).text() + render(
                set_code(old(self).cursor(), cell.addr(), default.delta()) + visit(
                    cell.addr(),
                    cell.addr(),
                    Op::Read,
                ),
            ),
            final(self).cursor() == cell.addr(),
            final(self).allocations() == old(self).allocations().update(cell.addr(), true),
    {
        proof {
            lemma_render_concat(
                set_code(self.cursor(), self.lowest_free(), default.delta()),
                visit(self.lowest_free(), self.lowest_free(), Op::Read),
            );
            let piece = render(set_code(self.cursor(), self.lowest_free(), default.delta()));
            let last = render(visit(self.lowest_free(), self.lowest_free(), Op::Read));
            assert(self.text() + (piece + last) == self.text() + piece + last);
        }
        let cell = self.cell(default);
        cell.read(self);
        cell
    }

    /// Creates a new cell with a specific value, lets `f` use it, and ends
    /// its life: whatever `f` writes, the cell is cleared and its address
    /// is free again afterwards. `f` is called exactly once.
    pub fn with_cell<F: FnOnce(&Cell<N, T>, &mut Self)>(&mut self, value: T, f: F)
        requires
            old(self).wf(),
            old(self).lowest_free() < N,
            isize::MIN <= value.delta() <= isize::MAX,
            forall|cell: &Cell<N, T>, x: &mut Self|
                x.wf() && x.owns(cell) && cell.addr() == old(self).lowest_free()
                    && x.allocations() == old(self).allocations().update(cell.addr(), true)
                    && x.cursor() == cell.addr() && x.text() == old(self).text() + render(
                    set_code(old(self).cursor(), cell.addr(), value.delta()),
                ) ==> f.requires((cell, x)),
            forall|cell: &Cell<N, T>, x: &mut Self| #[trigger]
                f.ensures((cell, x), ()) ==> final(x).wf() && final(x).owns(cell),
        ensures
            final(self).wf(),
            exists|cell: &Cell<N, T>, x: &mut Self|
                {
                    &&& cell.addr() == old(self).lowest_free()
                    &&& x.allocations() == old(self).allocations().update(cell.addr(), true)
                    &&& x.cursor() == cell.addr()
                    &&& x.text() == old(self).text() + render(
                        set_code(old(self).cursor(), cell.addr(), value.delta()),
                    )
                    &&& #[trigger] f.ensures((cell, x), ())
                    &&& final(self).text() == final(x).text() + render(
                        visit(final(x).cursor(), cell.addr(), clear()),
                    )
                    &&& final(self).cursor() == cell.addr()
                    &&& final(self).allocations() == final(x).allocations().update(
                        cell.addr(),
                        false,
                    )
                },
    {
        let cell = self.cell(value);
        f(&cell, self);
        cell.drop(self);
    }

    /// Creates a new `CellString` with a specific value.
    pub fn str<'b>(&self, source: &'b str) -> (s: CellString<'b, N, T>)
        ensures
            s.bytes() == source.spec_bytes(),
    {
        CellString::new(source)
    }

    /// Creates a new `CellString` with a specific value and writes it.
    pub fn write(&mut self, source: &str)
        requires
            old(self).wf(),
            old(self).lowest_free() < N,
        ensures
            final(self).wf(),
            final(self).text() == old(self).text() + render(
                string_code(old(self).cursor(), old(self).lowest_free(), source.spec_bytes()),
            ),
            final(self).allocations() == old(self).allocations(),
            final(self).cursor() == old(self).lowest_free(),
    {
        let string = self.str(source);
        string.write(self);
    }

    /// Compiles this builder into a program.
    pub fn compile(&self) -> (r: Result<Program, &'static str>)
        ensures
            closes_early(self.text()) ==> r is Err && r->Err_0@ == unmatched_closing(),
            !closes_early(self.text()) && depth(self.text()) != 0 ==> r is Err && r->Err_0@
                == unmatched_opening(),
            balanced(self.text()) ==> r is Ok && render(r->Ok_0@) == strip(self.text()),
            forall|code: Seq<Op>|
                balanced(self.text()) && #[trigger] render(code) == strip(self.text())
                    ==> r->Ok_0@ == code,
    {
        Program::new(self.source.as_str())
    }

    /// Compiles this builder and runs it on a given input.
    pub fn run<O: RunnerOutput<T>>(&self, input: &[T], output: O) -> (r: Result<
        Runner<N, O, T>,
        &'static str,
    >)
        requires
            N > 0,
            output.open(),
        ensures
            closes_early(self.text()) ==> r is Err && r->Err_0@ == unmatched_closing(),
            !closes_early(self.text()) && depth(self.text()) != 0 ==> r is Err && r->Err_0@
                == unmatched_opening(),
            balanced(self.text()) ==> r is Ok && r->Ok_0.wf() && r->Ok_0.limit() == u64::MAX,
            forall|code: Seq<Op>|
                balanced(self.text()) && #[trigger] render(code) == strip(self.text())
                    ==> r->Ok_0@ == run(
                    code,
                    Machine {
                        output: residues(output.written()),
                        ..blank(N as nat, residues(input@))
                    },
                    T::modulus(),
                    u64::MAX as nat,
                ),
    {
        match self.compile() {
            Ok(program) => Ok(program.run(input, output)),
            Err(message) => Err(message),
        }
    }

    /// Gives the address of `cell` back: it is free again, and the lowest
    /// free address is adjusted.
    fn reclaim(&mut self, cell: Cell<N, T>)
        requires
            old(self).wf(),
            old(self).owns(&cell),
        ensures
            final(self).wf(),
            final(self).text() == old(self).text(),
            final(self).cursor() == old(self).cursor(),
            final(self).allocations() == old(self).allocations().update(cell.addr(), false),
            final(self).lowest_free() == if cell.addr() < old(self).lowest_free() {
                cell.addr()
            } else {
                old(self).lowest_free()
            },
    {
        let ghost before = self.allocations@;
        proof {
            lemma_first_free(before, 0);
        }
        self.allocations[cell.location] = false;
        if cell.location < self.lowest_unallocated_value {
            self.lowest_unallocated_value = cell.location;
        }
        proof {
            lemma_first_free_is(self.allocations@, 0, self.lowest_unallocated_value as int);
        }
    }

    /// Whether this builder is well formed, owns `cell`, and has written
    /// exactly what `tr` records.
    pub(crate) open spec fn ready(&self, cell: &Cell<N, T>, tr: Trace) -> bool {
        &&& self.wf()
        &&& self.owns(cell)
        &&& self.text() == tr.text()
    }

    /// Whether this builder is well formed, has written exactly what `tr`
    /// records, stands at `cursor`, and has the allocations of `old`.
    pub(crate) open spec fn traced(&self, old: &Self, tr: Trace, cursor: int) -> bool {
        &&& self.wf()
        &&& self.text() == tr.text()
        &&& self.cursor() == cursor
        &&& self.allocations() == old.allocations()
    }

    /// Appends the pointer moves that lead to `location`.
    fn travel(&mut self, location: usize)
        requires
            old(self).wf(),
            location < N,
        ensures
            final(self).wf(),
            final(self).extends(
                old(self),
                moves(old(self).cursor(), location as int),
                location as int,
            ),
    {
        let ghost base = self.source@;
        if location < self.pointer {
            let count = self.pointer - location;
            let mut done: usize = 0;
            while done < count
                invariant
                    done <= count,
                    self.source@ == base + Seq::new(done as nat, |i: int| '<'),
                    self.pointer == old(self).pointer,
                    self.allocations == old(self).allocations,
                    self.lowest_unallocated_value == old(self).lowest_unallocated_value,
                decreases count - done,
            {
                self.source.append("<");
                done += 1;
                proof {
                    reveal_strlit("<");
                    assert(self.source@ =~= base + Seq::new(done as nat, |i: int| '<'));
                }
            }
            proof {
                lemma_render_copies(Op::Shl, count as int, '<');
            }
        } else {
            let count = location - self.pointer;
            let mut done: usize = 0;
            while done < count
                invariant
                    done <= count,
                    self.source@ == base + Seq::new(done as nat, |i: int| '>'),
                    self.pointer == old(self).pointer,
                    self.allocations == old(self).allocations,
                    self.lowest_unallocated_value == old(self).lowest_unallocated_value,
                decreases count - done,
            {
                self.source.append(">");
                done += 1;
                proof {
                    reveal_strlit(">");
                    assert(self.source@ =~= base + Seq::new(done as nat, |i: int| '>'));
                }
            }
            proof {
                lemma_render_copies(Op::Shr, count as int, '>');
            }
        }
        self.pointer = location;
    }

    /// Appends `glyphs` to the text.
    fn put(&mut self, glyphs: &str)
        requires
            old(self).wf(),
        ensures
            final(self).wf(),
            final(self).follows(old(self), glyphs@, old(self).cursor()),
    {
        self.source.append(glyphs);
    }

    /// Appends `count` increments, or `count` decrements.
    fn run_of(&mut self, up: bool, count: usize)
        requires
            old(self).wf(),
        ensures
            final(self).wf(),
            final(self).extends(
                old(self),
                copies(if up { Op::Inc } else { Op::Dec }, count as int),
                old(self).cursor(),
            ),
    {
        let ghost base = self.source@;
        let ghost glyph = if up { '+' } else { '-' };
        let mut done: usize = 0;
        while done < count
            invariant
                done <= count,
                glyph == if up { '+' } else { '-' },
                self.source@ == base + Seq::new(done as nat, |i: int| glyph),
                self.pointer == old(self).pointer,
                self.allocations == old(self).allocations,
                self.lowest_unallocated_value == old(self).lowest_unallocated_value,
            decreases count - done,
        {
            if up {
                self.source.append("+");
            } else {
                self.source.append("-");
            }
            done += 1;
            proof {
                reveal_strlit("+");
                reveal_strlit("-");
                assert(self.source@ =~= base + Seq::new(done as nat, |i: int| glyph));
            }
        }
        proof {
            lemma_render_copies(if up { Op::Inc } else { Op::Dec }, count as int, glyph);
        }
    }

    /// Appends the change by `delta`, or by minus `delta` if not `forward`:
    /// as many increments as the change says, or decrements for a negative
    /// change.
    fn nudge(&mut self, delta: isize, forward: bool)
        requires
            old(self).wf(),
        ensures
            final(self).wf(),
            final(self).extends(
                old(self),
                shift(if forward { delta as int } else { -(delta as int) }),
                old(self).cursor(),
            ),
    {
        if delta < 0 {
            let count = (-(delta + 1)) as usize + 1;
            self.run_of(!forward, count);
        } else {
            proof {
                assert(copies(Op::Dec, 0) =~= copies(Op::Inc, 0));
            }
            self.run_of(forward, delta as usize);
        }
    }

    /// The program text written so far.
    pub fn source(&self) -> (text: &str)
        ensures
            text@ == self.text(),
    {
        self.source.as_str()
    }

    /// The address the program's pointer is at after the text written so far.
    pub fn pointer(&self) -> (pointer: usize)
        ensures
            pointer == self.cursor(),
    {
        self.pointer
    }

    /// The lowest free address, or `N` if every address is allocated.
    pub fn lowest_unallocated(&self) -> (lowest: usize)
        requires
            self.wf(),
        ensures
            lowest == self.lowest_free(),
    {
        self.lowest_unallocated_value
    }

    /// A map of the allocations for people to read: one digit for each
    /// address shown, and three dots for the rest.
    pub fn allocation_map(&self) -> (map: String)
        ensures
            map@ == digits(
                self.allocations(),
                self.cursor(),
                shown(self.allocations(), N as int),
            ) + seq!['.', '.', '.'],
    {
        let ghost table = self.allocations@;
        let floor: usize = if N < 4 {
            N
        } else {
            4
        };
        let mut upto: usize = N;
        let mut count: usize = floor;
        while upto > 0
            invariant_except_break
                count == floor,
                shown(table, N as int) == shown(table, upto as int),
            invariant
                upto <= N,
                table == self.allocations@,
                floor == if N < 4 {
                    N
                } else {
                    4
                },
            ensures
                count <= N,
                count == shown(table, N as int),
            decreases upto,
        {
            if self.allocations[upto - 1] {
                if upto - 1 >= 4 {
                    count = upto - 1;
                }
                break ;
            }
            upto -= 1;
        }

        let mut map = String::new();
        let mut index: usize = 0;
        while index < count
            invariant
                index <= count <= N,
                table == self.allocations@,
                map@ == digits(table, self.pointer as int, index as int),
            decreases count - index,
        {
            if self.allocations[index] {
                map.append("1");
            } else {
                map.append("0");
            }
            if index == self.pointer {
                map.append("\u{332}");
            }
            index += 1;
            proof {
                reveal_strlit("1");
                reveal_strlit("0");
                reveal_strlit("\u{332}");
                assert(map@ =~= digits(table, self.pointer as int, index as int));
            }
        }
        map.append("...");
        proof {
            reveal_strlit("...");
            assert("..."@ =~= seq!['.', '.', '.']);
        }
        map
    }

    /// Whether `count` cells can be allocated one after the other.
    pub fn has_room(&self, count: usize) -> (enough: bool)
        requires
            self.wf(),
        ensures
            enough == room(self.allocations(), count as nat),
    {
        let ghost start = self.allocations@;
        let mut table = self.allocations;
        let mut next = self.lowest_unallocated_value;
        let mut done: usize = 0;
        while done < count
            invariant
                done <= count,
                start == self.allocations@,
                table@ == after_allocs(start, done as nat),
                table@.len() == N,
                next == first_free(table@, 0),
                forall|i: nat| i < done ==> first_free(#[trigger] after_allocs(start, i), 0) < N,
            decreases count - done,
        {
            if next >= N {
                proof {
                    lemma_first_free(table@, 0);
                    assert(!(first_free(after_allocs(start, done as nat), 0) < start.len()));
                }
                return false;
            }
            let ghost before = table@;
            proof {
                lemma_first_free(before, 0);
            }
            table[next] = true;
            let mut scan = next + 1;
            while scan < N && table[scan]
                invariant
                    next < scan <= N,
                    table@ == before.update(next as int, true),
                    table@.len() == N,
                    forall|i: int| 0 <= i < next ==> #[trigger] before[i],
                    forall|i: int| 0 <= i < scan ==> #[trigger] table@[i],
                decreases N - scan,
            {
                scan += 1;
            }
            proof {
                lemma_first_free_is(table@, 0, scan as int);
            }
            next = scan;
            done += 1;
        }
        true
    }

    /// Whether there is a run of `count` consecutive free addresses.
    pub fn has_run(&self, count: usize) -> (found: bool)
        requires
            count > 0,
        ensures
            found == (first_run(self.allocations(), 0, count as int) < N),
    {
        let ghost table = self.allocations@;
        if count > N {
            proof {
                assert(first_run(table, 0, count as int) == N);
            }
            return false;
        }
        let mut start: usize = 0;
        while start <= N - count
            invariant
                count <= N,
                count > 0,
                table == self.allocations@,
                start <= N - count + 1,
                forall|i: int| 0 <= i < start ==> !#[trigger] free_run(table, i, count as int),
            decreases N - count + 1 - start,
        {
            let mut offset: usize = 0;
            while offset < count && !self.allocations[start + offset]
                invariant
                    table == self.allocations@,
                    offset <= count,
                    start + count <= N,
                    forall|i: int| start <= i < start + offset ==> !#[trigger] table[i],
                decreases count - offset,
            {
                offset += 1;
            }
            if offset == count {
                proof {
                    assert(free_run(table, start as int, count as int));
                    lemma_first_run_is(table, 0, count as int, start as int);
                }
                return true;
            }
            proof {
                assert(table[start + offset]);
                assert(!free_run(table, start as int, count as int));
            }
            start += 1;
        }
        proof {
            assert forall|i: int| 0 <= i < N implies !#[trigger] free_run(
                table,
                i,
                count as int,
            ) by {}
            lemma_first_run_is(table, 0, count as int, N as int);
        }
        false
    }

    /// Whether `address` is allocated.
    pub fn is_allocated(&self, address: usize) -> (used: bool)
        ensures
            used == (address < N && self.allocations()[address as int]),
            self.allocations().len() == N,
    {
        address < N && self.allocations[address]
    }
}

} // verus!
