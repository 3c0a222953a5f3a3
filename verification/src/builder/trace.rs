//! A record of what a builder has written, for the proofs of the
//! operations that write loops.

use crate::builder::code::{join, lemma_render_concat, lemma_render_single};
use crate::program::{render, render_op, Op};
use vstd::prelude::*;

verus! {

/// A loop that has been opened and not closed yet: the code that precedes it
/// in its list, and the moves that lead to the cell it tests.
pub(crate) struct Frame {
    /// The code before the loop.
    pub code: Seq<Op>,
    /// The moves to the loop's cell.
    pub lead: Seq<Op>,
}

/// The text of the loops of `stack`, each up to and with its opening
/// bracket, followed by the text of `code`.
pub(crate) open spec fn open_text(stack: Seq<Frame>, code: Seq<Op>) -> Seq<char>
    decreases stack.len(),
{
    if stack.len() == 0 {
        render(code)
    } else {
        open_text(stack.drop_last(), join(stack.last().code, stack.last().lead)) + seq!['[']
            + render(code)
    }
}

/// A record of what has been written since some point: the text before that
/// point, the loops that are open, and the code of the innermost list.
pub(crate) struct Trace {
    /// The text before the record began.
    pub base: Seq<char>,
    /// The loops that are open, outermost first.
    pub stack: Seq<Frame>,
    /// The code written to the innermost list.
    pub code: Seq<Op>,
}

impl Trace {
    /// The record that begins after `base`.
    pub(crate) open spec fn start(base: Seq<char>) -> Trace {
        Trace { base, stack: Seq::empty(), code: Seq::empty() }
    }

    /// The whole text the record stands for.
    pub(crate) open spec fn text(self) -> Seq<char> {
        self.base + open_text(self.stack, self.code)
    }

    /// The record after `piece` was written.
    pub(crate) open spec fn emit(self, piece: Seq<Op>) -> Trace {
        Trace { code: join(self.code, piece), ..self }
    }

    /// The record after `lead` and an opening bracket were written.
    pub(crate) open spec fn enter(self, lead: Seq<Op>) -> Trace {
        Trace {
            stack: self.stack.push(Frame { code: self.code, lead }),
            code: Seq::empty(),
            ..self
        }
    }

    /// The record after `tail` and a closing bracket were written.
    pub(crate) open spec fn leave(self, tail: Seq<Op>) -> Trace {
        Trace {
            stack: self.stack.drop_last(),
            code: join(
                self.stack.last().code,
                self.stack.last().lead.push(Op::Repeat(join(self.code, tail))),
            ),
            ..self
        }
    }
}

/// The text of joined code is the joined text.
pub(crate) proof fn lemma_join(first: Seq<Op>, second: Seq<Op>)
    ensures
        render(join(first, second)) == render(first) + render(second),
{
    assert(render(Seq::<Op>::empty()) == Seq::<char>::empty());
    if first.len() == 0 {
        assert(first == Seq::<Op>::empty());
        assert(render(first) + render(second) == render(second));
    } else if second.len() == 0 {
        assert(second == Seq::<Op>::empty());
        assert(render(first) + render(second) == render(first));
    } else {
        lemma_render_concat(first, second);
    }
}

/// Writing `piece` appends its text.
pub(crate) proof fn lemma_emit(tr: Trace, piece: Seq<Op>)
    ensures
        tr.emit(piece).text() == tr.text() + render(piece),
{
    lemma_join(tr.code, piece);
    if tr.stack.len() == 0 {
        assert(tr.base + (render(tr.code) + render(piece)) == tr.base + render(tr.code) + render(
            piece,
        ));
    } else {
        let head = open_text(tr.stack.drop_last(), join(tr.stack.last().code, tr.stack.last().lead))
            + seq!['['];
        assert(tr.base + (head + (render(tr.code) + render(piece))) == tr.base + (head + render(
            tr.code,
        )) + render(piece));
    }
}

/// Opening a loop appends the moves to its cell and an opening bracket.
pub(crate) proof fn lemma_enter(tr: Trace, lead: Seq<Op>)
    ensures
        tr.enter(lead).text() == tr.text() + render(lead) + seq!['['],
{
    let entered = tr.enter(lead);
    assert(entered.stack.drop_last() == tr.stack);
    assert(entered.stack.last() == Frame { code: tr.code, lead });
    lemma_emit(tr, lead);
    assert(render(Seq::<Op>::empty()) == Seq::<char>::empty());
    assert(open_text(entered.stack, entered.code) == open_text(tr.stack, join(tr.code, lead))
        + seq!['['] + Seq::<char>::empty());
    assert(tr.base + (open_text(tr.stack, join(tr.code, lead)) + seq!['['] + Seq::<char>::empty())
        == tr.base + open_text(tr.stack, join(tr.code, lead)) + seq!['[']);
}

/// Closing a loop appends the moves back to its cell and a closing bracket.
pub(crate) proof fn lemma_leave(tr: Trace, tail: Seq<Op>)
    requires
        tr.stack.len() > 0,
    ensures
        tr.leave(tail).text() == tr.text() + render(tail) + seq![']'],
{
    let frame = tr.stack.last();
    let body = join(tr.code, tail);
    let node = Op::Repeat(body);
    let outer = Trace {
        base: tr.base,
        stack: tr.stack.drop_last(),
        code: join(frame.code, frame.lead),
    };
    lemma_join(tr.code, tail);
    lemma_join(frame.code, frame.lead);
    lemma_join(frame.code, frame.lead.push(node));
    lemma_render_concat(frame.lead, seq![node]);
    lemma_render_single(node);
    assert(frame.lead.push(node) == frame.lead + seq![node]);
    lemma_emit(outer, seq![node]);
    assert(render(join(frame.code, frame.lead.push(node))) == render(join(frame.code, frame.lead))
        + render(seq![node]));
    lemma_emit(Trace { code: frame.code, ..outer }, frame.lead.push(node));
    lemma_emit(Trace { code: frame.code, ..outer }, frame.lead);
    assert(tr.leave(tail).text() == outer.text() + render_op(node));
    assert(outer.text() + (seq!['['] + (render(tr.code) + render(tail)) + seq![']']) == outer.text()
        + seq!['['] + render(tr.code) + render(tail) + seq![']']);
    assert(tr.base + (open_text(outer.stack, outer.code) + seq!['['] + render(tr.code)) + render(
        tail,
    ) + seq![']'] == tr.base + open_text(outer.stack, outer.code) + seq!['['] + render(tr.code)
        + render(tail) + seq![']']);
}

/// A record that begins after `base` stands for `base`, and after one piece
/// of code for `base` followed by the text of that piece.
pub(crate) proof fn lemma_start(base: Seq<char>, piece: Seq<Op>)
    ensures
        Trace::start(base).text() == base,
        Trace::start(base).emit(piece).text() == base + render(piece),
        Trace::start(base).emit(piece).code == piece,
        Trace::start(base).emit(piece).stack.len() == 0,
{
    assert(render(Seq::<Op>::empty()) == Seq::<char>::empty());
    assert(base + Seq::<char>::empty() == base);
    lemma_emit(Trace::start(base), piece);
}

/// Writing two pieces one after the other is writing them joined.
pub(crate) proof fn lemma_regroup(tr: Trace, first: Seq<Op>, second: Seq<Op>)
    ensures
        tr.emit(first).emit(second) == tr.emit(join(first, second)),
{
    assert(join(join(tr.code, first), second) =~= join(tr.code, join(first, second)));
}

/// Writing four pieces one after the other is writing them joined.
pub(crate) proof fn lemma_regroup4(tr: Trace, a: Seq<Op>, b: Seq<Op>, c: Seq<Op>, d: Seq<Op>)
    ensures
        tr.emit(a).emit(b).emit(c).emit(d) == tr.emit(join(join(join(a, b), c), d)),
        tr.emit(a).emit(b).emit(c) == tr.emit(join(join(a, b), c)),
{
    lemma_regroup(tr, a, b);
    lemma_regroup(tr, join(a, b), c);
    lemma_regroup(tr, join(join(a, b), c), d);
}

} // verus!
