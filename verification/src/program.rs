//! The compiler: from program text to a tree of instructions.

use crate::builder::types::CellValue;
use crate::machine::{blank, run, run_op, Machine};
use crate::runner::{residues, Runner};
use crate::runner::output::RunnerOutput;
use vstd::prelude::*;

verus! {

/// One node of a program, as the contracts see it.
pub enum Op {
    /// Increment the current cell.
    Inc,
    /// Decrement the current cell.
    Dec,
    /// Move the pointer one cell to the left.
    Shl,
    /// Move the pointer one cell to the right.
    Shr,
    /// Read the next input value into the current cell.
    Read,
    /// Write the current cell to the output.
    Write,
    /// Run the nested sequence for as long as the current cell is nonzero.
    Repeat(Seq<Op>),
}

/// The characters that stand for `op` in program text.
pub open spec fn render_op(op: Op) -> Seq<char>
    decreases op,
{
    match op {
        Op::Inc => seq!['+'],
        Op::Dec => seq!['-'],
        Op::Shl => seq!['<'],
        Op::Shr => seq!['>'],
        Op::Read => seq![','],
        Op::Write => seq!['.'],
        Op::Repeat(body) => seq!['['] + render(body) + seq![']'],
    }
}

/// The program text of a sequence of nodes: each node's characters in order,
/// a loop's body between square brackets.
pub open spec fn render(ops: Seq<Op>) -> Seq<char>
    decreases ops,
{
    if ops.len() == 0 {
        Seq::empty()
    } else {
        render(ops.drop_last()) + render_op(ops.last())
    }
}

/// Whether `c` is one of the eight characters that carry meaning.
pub open spec fn is_command(c: char) -> bool {
    c == '+' || c == '-' || c == '<' || c == '>' || c == ',' || c == '.' || c == '[' || c == ']'
}

/// `text` without the characters that carry no meaning.
pub open spec fn strip(text: Seq<char>) -> Seq<char>
    decreases text.len(),
{
    if text.len() == 0 {
        Seq::empty()
    } else if is_command(text.last()) {
        strip(text.drop_last()).push(text.last())
    } else {
        strip(text.drop_last())
    }
}

/// The number of loops still open at the end of `text`: opening brackets
/// minus closing brackets.
pub open spec fn depth(text: Seq<char>) -> int
    decreases text.len(),
{
    if text.len() == 0 {
        0
    } else if text.last() == '[' {
        depth(text.drop_last()) + 1
    } else if text.last() == ']' {
        depth(text.drop_last()) - 1
    } else {
        depth(text.drop_last())
    }
}

/// Whether some closing bracket of `text` has no opening bracket before it.
pub open spec fn closes_early(text: Seq<char>) -> bool {
    exists|i: int| 0 <= i <= text.len() && depth(#[trigger] text.take(i)) < 0
}

/// Whether every bracket of `text` has its partner.
pub open spec fn balanced(text: Seq<char>) -> bool {
    !closes_early(text) && depth(text) == 0
}

/// The depth at the end of two texts in a row is the sum of their depths.
pub proof fn lemma_depth_concat(first: Seq<char>, second: Seq<char>)
    ensures
        depth(first + second) == depth(first) + depth(second),
    decreases second.len(),
{
    if second.len() == 0 {
        assert(first + second == first);
    } else {
        lemma_depth_concat(first, second.drop_last());
        assert((first + second).drop_last() == first + second.drop_last());
        assert((first + second).last() == second.last());
    }
}

/// The depth of a text of one character.
pub proof fn lemma_depth_single(c: char)
    ensures
        depth(seq![c]) == if c == '[' {
            1int
        } else if c == ']' {
            -1int
        } else {
            0int
        },
{
    assert(seq![c].drop_last() == Seq::<char>::empty());
    assert(depth(Seq::<char>::empty()) == 0);
}

/// The text of a node is not empty and closes every loop it opens; before
/// its end, the text of a loop is always inside the loop.
pub proof fn lemma_op_balanced(op: Op)
    ensures
        render_op(op).len() >= 1,
        depth(render_op(op)) == 0,
        forall|k: int| 0 < k < render_op(op).len() ==> depth(#[trigger] render_op(op).take(k)) >= 1,
        forall|k: int|
            0 < k < render_op(op).len() ==> depth(#[trigger] render_op(op).skip(k)) <= -1,
        op is Repeat ==> render_op(op).last() == ']' && render_op(op).first() == '[',
        !(op is Repeat) ==> render_op(op).len() == 1 && render_op(op).last() != ']',
    decreases op, 0nat,
{
    let text = render_op(op);
    match op {
        Op::Repeat(body) => {
            lemma_render_balanced(body);
            let inner = render(body);
            lemma_depth_single('[');
            lemma_depth_single(']');
            lemma_depth_concat(seq!['['], inner);
            lemma_depth_concat(seq!['['] + inner, seq![']']);
            assert forall|k: int| 0 < k < text.len() implies depth(#[trigger] text.take(k))
                >= 1 by {
                assert(text.take(k) == seq!['['] + inner.take(k - 1));
                lemma_depth_concat(seq!['['], inner.take(k - 1));
            }
            assert forall|k: int| 0 < k < text.len() implies depth(#[trigger] text.skip(k))
                <= -1 by {
                assert(text == text.take(k) + text.skip(k));
                lemma_depth_concat(text.take(k), text.skip(k));
            }
        },
        _ => {
            lemma_depth_single(text[0]);
            assert(text == seq![text[0]]);
        },
    }
}

/// The text of code closes every loop it opens and never closes one it did
/// not open.
pub proof fn lemma_render_balanced(ops: Seq<Op>)
    ensures
        depth(render(ops)) == 0,
        forall|k: int| 0 <= k <= render(ops).len() ==> depth(#[trigger] render(ops).take(k)) >= 0,
    decreases ops, 1nat,
{
    let text = render(ops);
    if ops.len() == 0 {
        assert forall|k: int| 0 <= k <= text.len() implies depth(#[trigger] text.take(k))
            >= 0 by {
            assert(text.take(k) == Seq::<char>::empty());
        }
    } else {
        let head = render(ops.drop_last());
        let tail = render_op(ops.last());
        lemma_render_balanced(ops.drop_last());
        lemma_op_balanced(ops.last());
        lemma_depth_concat(head, tail);
        assert forall|k: int| 0 <= k <= text.len() implies depth(#[trigger] text.take(k))
            >= 0 by {
            if k <= head.len() {
                assert(text.take(k) == head.take(k));
            } else if k == text.len() {
                assert(text.take(k) == text);
            } else {
                assert(text.take(k) == head + tail.take(k - head.len()));
                lemma_depth_concat(head, tail.take(k - head.len()));
            }
        }
    }
}

/// Two pieces of code with the same text are the same code.
pub proof fn lemma_render_injective(first: Seq<Op>, second: Seq<Op>)
    requires
        render(first) == render(second),
    ensures
        first == second,
    decreases render(first).len(),
{
    let text = render(first);
    if first.len() == 0 || second.len() == 0 {
        if first.len() > 0 {
            lemma_op_balanced(first.last());
        }
        if second.len() > 0 {
            lemma_op_balanced(second.last());
        }
        assert(first =~= second);
    } else {
        let a = first.drop_last();
        let b = second.drop_last();
        let x = first.last();
        let y = second.last();
        let rx = render_op(x);
        let ry = render_op(y);
        lemma_op_balanced(x);
        lemma_op_balanced(y);
        assert(text == render(a) + rx);
        assert(text == render(b) + ry);
        assert(text.last() == rx.last());
        assert(text.last() == ry.last());
        if rx.len() < ry.len() {
            let k = ry.len() - rx.len();
            assert(ry.skip(k) =~= rx) by {
                assert(text.skip(text.len() - rx.len()) =~= rx);
                assert(text.skip(text.len() - ry.len()) =~= ry);
            }
            assert(false);
        }
        if ry.len() < rx.len() {
            let k = rx.len() - ry.len();
            assert(rx.skip(k) =~= ry) by {
                assert(text.skip(text.len() - rx.len()) =~= rx);
                assert(text.skip(text.len() - ry.len()) =~= ry);
            }
            assert(false);
        }
        assert(rx =~= ry) by {
            assert(text.skip(text.len() - rx.len()) =~= rx);
            assert(text.skip(text.len() - ry.len()) =~= ry);
        }
        assert(render(a) =~= render(b)) by {
            assert(text.take(text.len() - rx.len()) =~= render(a));
            assert(text.take(text.len() - ry.len()) =~= render(b));
        }
        lemma_render_injective(a, b);
        match x {
            Op::Repeat(p) => {
                let q = y->Repeat_0;
                assert(y is Repeat);
                assert(render(p) =~= render(q)) by {
                    assert(rx.subrange(1, rx.len() - 1) =~= render(p));
                    assert(ry.subrange(1, ry.len() - 1) =~= render(q));
                }
                lemma_render_injective(p, q);
            },
            _ => {
                assert(!(y is Repeat));
                assert(rx[0] == ry[0]);
            },
        }
        assert(x == y);
        assert(first =~= a.push(x));
        assert(second =~= b.push(y));
    }
}

/// The text of code holds commands only, so stripping it changes nothing.
pub proof fn lemma_strip_render(ops: Seq<Op>)
    ensures
        strip(render(ops)) == render(ops),
        forall|i: int| 0 <= i < render(ops).len() ==> is_command(#[trigger] render(ops)[i]),
    decreases ops, 1nat,
{
    if ops.len() > 0 {
        lemma_strip_render(ops.drop_last());
        lemma_strip_op(ops.last());
        lemma_strip_concat(render(ops.drop_last()), render_op(ops.last()));
    }
}

/// The text of a node holds commands only.
pub proof fn lemma_strip_op(op: Op)
    ensures
        strip(render_op(op)) == render_op(op),
        forall|i: int| 0 <= i < render_op(op).len() ==> is_command(#[trigger] render_op(op)[i]),
    decreases op, 0nat,
{
    match op {
        Op::Repeat(body) => {
            lemma_strip_render(body);
            lemma_strip_single('[');
            lemma_strip_single(']');
            lemma_strip_concat(seq!['['], render(body));
            lemma_strip_concat(seq!['['] + render(body), seq![']']);
        },
        _ => {
            lemma_strip_single(render_op(op)[0]);
            assert(render_op(op) == seq![render_op(op)[0]]);
        },
    }
}

/// Stripping a text of one character.
pub proof fn lemma_strip_single(c: char)
    ensures
        strip(seq![c]) == if is_command(c) {
            seq![c]
        } else {
            Seq::<char>::empty()
        },
{
    assert(seq![c].drop_last() == Seq::<char>::empty());
    assert(strip(Seq::<char>::empty()) == Seq::<char>::empty());
    assert(Seq::<char>::empty().push(c) == seq![c]);
}

/// Stripping two texts in a row is stripping each.
pub proof fn lemma_strip_concat(first: Seq<char>, second: Seq<char>)
    ensures
        strip(first + second) == strip(first) + strip(second),
    decreases second.len(),
{
    if second.len() == 0 {
        assert(first + second == first);
        assert(strip(first) + strip(second) == strip(first));
    } else {
        lemma_strip_concat(first, second.drop_last());
        assert((first + second).drop_last() == first + second.drop_last());
        assert((first + second).last() == second.last());
        if is_command(second.last()) {
            assert((strip(first) + strip(second.drop_last())).push(second.last()) == strip(first)
                + strip(second.drop_last()).push(second.last()));
        }
    }
}

/// Compiling the text of code gives that code back: the text is balanced,
/// and the one program whose text it is, is the code itself.
pub proof fn law_round_trip(code: Seq<Op>, compiled: Seq<Op>)
    requires
        render(compiled) == strip(render(code)),
    ensures
        balanced(render(code)),
        compiled == code,
{
    lemma_strip_render(code);
    lemma_render_balanced(code);
    lemma_render_injective(compiled, code);
}

/// One node of a compiled program.
pub enum Instruction {
    /// Increment the current cell.
    Inc,
    /// Decrement the current cell.
    Dec,
    /// Move the pointer one cell to the left.
    Shl,
    /// Move the pointer one cell to the right.
    Shr,
    /// Read the next input value into the current cell.
    Read,
    /// Write the current cell to the output.
    Write,
    /// Run the nested list for as long as the current cell is nonzero.
    Repeat(Vec<Instruction>),
}

impl Instruction {
    /// The node this instruction stands for.
    pub open spec fn view(&self) -> Op
        decreases self,
    {
        match self {
            Instruction::Inc => Op::Inc,
            Instruction::Dec => Op::Dec,
            Instruction::Shl => Op::Shl,
            Instruction::Shr => Op::Shr,
            Instruction::Read => Op::Read,
            Instruction::Write => Op::Write,
            Instruction::Repeat(body) => Op::Repeat(
                Seq::new(
                    body@.len(),
                    |i: int|
                        if 0 <= i < body@.len() {
                            body@[i].view()
                        } else {
                            Op::Inc
                        },
                ),
            ),
        }
    }
}

/// The nodes a list of instructions stands for.
pub open spec fn ops_of(list: Seq<Instruction>) -> Seq<Op> {
    Seq::new(list.len(), |i: int| list[i].view())
}

/// The nodes each list of a stack of lists stands for.
pub open spec fn frames_of(stack: Seq<Vec<Instruction>>) -> Seq<Seq<Op>> {
    Seq::new(stack.len(), |i: int| ops_of(stack[i]@))
}

/// The text read so far while the loops of `stack` are still open: each open
/// loop's nodes and its opening bracket, then the nodes of the innermost list.
pub open spec fn pending(stack: Seq<Seq<Op>>, current: Seq<Op>) -> Seq<char>
    decreases stack.len(),
{
    if stack.len() == 0 {
        render(current)
    } else {
        pending(stack.drop_last(), stack.last()) + seq!['['] + render(current)
    }
}

/// Appending a node to the innermost list appends its characters to the text.
pub proof fn lemma_pending_push(stack: Seq<Seq<Op>>, current: Seq<Op>, op: Op)
    ensures
        pending(stack, current.push(op)) == pending(stack, current) + render_op(op),
{
    assert(current.push(op).drop_last() == current);
    assert(render(current.push(op)) == render(current) + render_op(op));
    if stack.len() > 0 {
        let head = pending(stack.drop_last(), stack.last()) + seq!['['];
        assert(head + (render(current) + render_op(op)) == head + render(current) + render_op(op));
    }
}

/// The message for a closing bracket that has no opening bracket before it.
pub open spec fn unmatched_closing() -> Seq<char> {
    "unmatched closing bracket"@
}

/// The message for an opening bracket that is never closed.
pub open spec fn unmatched_opening() -> Seq<char> {
    "unmatched opening bracket"@
}

/// Runs the instructions of `list`, in order, on `runner`.
pub fn run_list<const N: usize, O: RunnerOutput<T>, T: CellValue>(
    list: &Vec<Instruction>,
    runner: &mut Runner<N, O, T>,
)
    requires
        old(runner).wf(),
    ensures
        final(runner).wf(),
        final(runner)@ == run(ops_of(list@), old(runner)@, T::modulus(), old(runner).limit()),
        final(runner).limit() == old(runner).limit(),
    decreases list, 0nat,
{
    let ghost ops = ops_of(list@);
    let mut i: usize = 0;
    while i < list.len()
        invariant
            ops == ops_of(list@),
            i <= list.len(),
            runner.wf(),
            runner.limit() == old(runner).limit(),
            runner@ == run(ops.take(i as int), old(runner)@, T::modulus(), old(runner).limit()),
        decreases list.len() - i,
    {
        let ghost prev = runner@;
        proof {
            assert(ops.take(i + 1).drop_last() == ops.take(i as int));
            assert(ops.take(i + 1).last() == list@[i as int].view());
        }
        match &list[i] {
            Instruction::Inc => runner.inc(),
            Instruction::Dec => runner.dec(),
            Instruction::Shl => runner.shl(),
            Instruction::Shr => runner.shr(),
            Instruction::Read => runner.read(),
            Instruction::Write => runner.write(),
            Instruction::Repeat(body) => {
                proof {
                    assert(list@[i as int].view()->Repeat_0 == ops_of(body@));
                }
                runner.repeat(body)
            },
        }
        proof {
            assert(runner@ == run_op(list@[i as int].view(), prev, T::modulus(), runner.limit()));
            assert(run(ops.take(i + 1), old(runner)@, T::modulus(), old(runner).limit()) == run_op(
                ops.take(i + 1).last(),
                run(ops.take(i + 1).drop_last(), old(runner)@, T::modulus(), old(runner).limit()),
                T::modulus(),
                old(runner).limit(),
            ));
        }
        i += 1;
    }
    proof {
        assert(ops.take(list.len() as int) == ops);
    }
}

/// A compiled program.
pub struct Program(Vec<Instruction>);

impl Program {
    /// The nodes of this program.
    pub closed spec fn view(&self) -> Seq<Op> {
        ops_of(self.0@)
    }

    /// Compiles program text. Characters other than the eight commands are
    /// skipped. The text is refused when a closing bracket comes before its
    /// opening bracket, and otherwise when an opening bracket is never
    /// closed; any other text compiles to the one program that renders as
    /// the text's commands.
    pub fn new(source: &str) -> (r: Result<Program, &'static str>)
        ensures
            closes_early(source@) ==> r is Err && r->Err_0@ == unmatched_closing(),
            !closes_early(source@) && depth(source@) != 0 ==> r is Err && r->Err_0@
                == unmatched_opening(),
            balanced(source@) ==> r is Ok && render(r->Ok_0@) == strip(source@),
            forall|code: Seq<Op>|
                balanced(source@) && #[trigger] render(code) == strip(source@) ==> r->Ok_0@
                    == code,
    {
        let mut all_lists: Vec<Vec<Instruction>> = Vec::new();
        let mut current_list: Vec<Instruction> = Vec::new();

        for c in it: source.chars()
            invariant
                it.seq() == source@,
                pending(frames_of(all_lists@), ops_of(current_list@)) == strip(
                    source@.take(it.index() as int),
                ),
                depth(source@.take(it.index() as int)) == all_lists@.len(),
                forall|j: int| 0 <= j <= it.index() ==> depth(#[trigger] source@.take(j)) >= 0,
        {
            let ghost before = source@.take(it.index() as int);
            let ghost after = source@.take(it.index() + 1);
            let ghost stack = frames_of(all_lists@);
            let ghost current = ops_of(current_list@);
            proof {
                assert(after.drop_last() == before);
                assert(after.last() == c);
            }
            match c {
                '+' => {
                    current_list.push(Instruction::Inc);
                    proof {
                        assert(ops_of(current_list@) == current.push(Op::Inc));
                        lemma_pending_push(stack, current, Op::Inc);
                    }
                },
                '-' => {
                    current_list.push(Instruction::Dec);
                    proof {
                        assert(ops_of(current_list@) == current.push(Op::Dec));
                        lemma_pending_push(stack, current, Op::Dec);
                    }
                },
                '<' => {
                    current_list.push(Instruction::Shl);
                    proof {
                        assert(ops_of(current_list@) == current.push(Op::Shl));
                        lemma_pending_push(stack, current, Op::Shl);
                    }
                },
                '>' => {
                    current_list.push(Instruction::Shr);
                    proof {
                        assert(ops_of(current_list@) == current.push(Op::Shr));
                        lemma_pending_push(stack, current, Op::Shr);
                    }
                },
                ',' => {
                    current_list.push(Instruction::Read);
                    proof {
                        assert(ops_of(current_list@) == current.push(Op::Read));
                        lemma_pending_push(stack, current, Op::Read);
                    }
                },
                '.' => {
                    current_list.push(Instruction::Write);
                    proof {
                        assert(ops_of(current_list@) == current.push(Op::Write));
                        lemma_pending_push(stack, current, Op::Write);
                    }
                },
                '[' => {
                    let sub_instruction_list: Vec<Instruction> = Vec::new();
                    all_lists.push(current_list);
                    current_list = sub_instruction_list;
                    proof {
                        assert(frames_of(all_lists@) == stack.push(current));
                        assert(frames_of(all_lists@).drop_last() == stack);
                        assert(ops_of(current_list@) == Seq::<Op>::empty());
                    }
                },
                ']' => {
                    let sub_instruction_list = current_list;
                    match all_lists.pop() {
                        None => {
                            proof {
                                assert(depth(after) < 0);
                                assert(after == source@.take(it.index() + 1));
                            }
                            return Err("unmatched closing bracket");
                        },
                        Some(last_instruction_list) => {
                            let ghost outer = ops_of(last_instruction_list@);
                            let ghost node = Op::Repeat(current);
                            let mut last_instruction_list = last_instruction_list;
                            last_instruction_list.push(Instruction::Repeat(sub_instruction_list));
                            current_list = last_instruction_list;
                            proof {
                                assert(Instruction::Repeat(sub_instruction_list).view() == node)
                                    by {
                                    assert(Instruction::Repeat(sub_instruction_list).view()
                                        ->Repeat_0 == current);
                                }
                                assert(ops_of(current_list@) == outer.push(node));
                                assert(frames_of(all_lists@) == stack.drop_last());
                                assert(stack.last() == outer);
                                lemma_pending_push(stack.drop_last(), outer, node);
                                assert(pending(stack, current) + seq![']'] == pending(
                                    stack.drop_last(),
                                    outer,
                                ) + render_op(node));
                            }
                        },
                    }
                },
                _ => {},
            }
        }

        proof {
            assert(source@.take(source@.len() as int) == source@);
        }
        if !all_lists.is_empty() {
            proof {
                assert forall|i: int| 0 <= i <= source@.len() implies depth(
                    #[trigger] source@.take(i),
                ) >= 0 by {}
            }
            Err("unmatched opening bracket")
        } else {
            proof {
                assert forall|i: int| 0 <= i <= source@.len() implies depth(
                    #[trigger] source@.take(i),
                ) >= 0 by {}
            }
            let program = Program(current_list);
            proof {
                assert forall|code: Seq<Op>| #[trigger]
                    render(code) == strip(source@) implies program@ == code by {
                    lemma_render_injective(program@, code);
                }
            }
            Ok(program)
        }
    }

    /// Runs this program on a given runner.
    pub fn run_on<const N: usize, O: RunnerOutput<T>, T: CellValue>(
        &self,
        runner: &mut Runner<N, O, T>,
    )
        requires
            old(runner).wf(),
        ensures
            final(runner).wf(),
            final(runner)@ == run(self@, old(runner)@, T::modulus(), old(runner).limit()),
            final(runner).limit() == old(runner).limit(),
    {
        run_list(&self.0, runner)
    }

    /// Runs this program on a new runner.
    pub fn run<const N: usize, O: RunnerOutput<T>, T: CellValue>(
        &self,
        input: &[T],
        output: O,
    ) -> (runner: Runner<N, O, T>)
        requires
            N > 0,
            output.open(),
        ensures
            runner@ == run(
                self@,
                Machine { output: residues(output.written()), ..blank(N as nat, residues(input@)) },
                T::modulus(),
                u64::MAX as nat,
            ),
            runner.limit() == u64::MAX,
            runner.wf(),
    {
        let mut runner = Runner::new(input, output);
        self.run_on(&mut runner);
        runner
    }
}

} // verus!
