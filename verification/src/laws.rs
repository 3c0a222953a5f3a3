//! What the emitted code does when it runs.

use crate::builder::allocator::{first_free, lemma_first_free, lemma_first_free_is};
use crate::builder::code::{
    absorb, clear, clone_from_code, combine, copies, copy_code, drain, drain_steps, fill_code,
    into_copies_code, join, loop_at, moves, mul_code, mul_value_code, pour, pour_out, relocate,
    set_code, shift, spell_code, stop, string_code, swap_code, visit, walk, walk_end, zeros_code,
    Stop,
};
use crate::builder::types::{pred, succ, CellValue};
use crate::machine::{lemma_run_concat, lemma_run_push, run, run_loop, run_op, Machine};
use crate::program::Op;
use vstd::arithmetic::div_mod::{
    lemma_add_mod_noop, lemma_mod_bound, lemma_mod_twice, lemma_small_mod, lemma_sub_mod_noop,
};
use vstd::prelude::*;

verus! {

/// Counting one up from a residue is adding one modulo the modulus.
pub proof fn lemma_succ_mod(x: int, m: int)
    requires
        m > 0,
    ensures
        succ(x % m, m) == (x + 1) % m,
        pred(x % m, m) == (x - 1) % m,
        0 <= x % m < m,
{
    lemma_mod_bound(x, m);
    lemma_add_mod_noop(x, 1, m);
    lemma_sub_mod_noop(x, 1, m);
    let r = x % m;
    if m == 1 {
        assert((x + 1) % 1 == 0);
        assert((x - 1) % 1 == 0);
    } else {
        lemma_small_mod(1, m as nat);
        if r + 1 < m {
            lemma_small_mod((r + 1) as nat, m as nat);
        } else {
            assert(r + 1 == m);
            assert(m % m == 0) by (nonlinear_arith)
                requires
                    m > 0,
            ;
        }
        if r > 0 {
            lemma_small_mod((r - 1) as nat, m as nat);
        } else {
            assert((-1int) % m == m - 1) by (nonlinear_arith)
                requires
                    m > 1,
            ;
        }
    }
}

/// Adding in two steps modulo the modulus is adding the sum.
pub proof fn lemma_mod_add(x: int, d: int, e: int, m: int)
    requires
        m > 0,
    ensures
        ((x + d) % m + e) % m == (x + d + e) % m,
{
    lemma_add_mod_noop(x + d, e, m);
    lemma_add_mod_noop((x + d) % m, e, m);
    lemma_mod_twice(x + d, m);
}

/// Running joined code is running the second piece on what the first
/// leaves.
pub proof fn lemma_run_join(first: Seq<Op>, second: Seq<Op>, st: Machine, modulus: int, limit: nat)
    ensures
        run(join(first, second), st, modulus, limit) == run(
            second,
            run(first, st, modulus, limit),
            modulus,
            limit,
        ),
{
    if first.len() == 0 {
        assert(first == Seq::<Op>::empty());
    } else if second.len() == 0 {
        assert(second == Seq::<Op>::empty());
    } else {
        lemma_run_concat(first, second, st, modulus, limit);
    }
}

/// Moves to the right arrive where they are headed, if that is on the tape.
pub proof fn lemma_run_right(count: int, st: Machine, modulus: int, limit: nat)
    requires
        st.running(),
        0 <= count,
        st.pointer + count < st.tape.len(),
    ensures
        run(copies(Op::Shr, count), st, modulus, limit) == st.at(st.pointer + count),
    decreases count,
{
    if count > 0 {
        lemma_run_right(count - 1, st, modulus, limit);
        assert(copies(Op::Shr, count) == copies(Op::Shr, count - 1).push(Op::Shr));
        lemma_run_push(copies(Op::Shr, count - 1), Op::Shr, st, modulus, limit);
    } else {
        assert(copies(Op::Shr, count) == Seq::<Op>::empty());
    }
}

/// Moves to the left arrive where they are headed, if that is on the tape.
pub proof fn lemma_run_left(count: int, st: Machine, modulus: int, limit: nat)
    requires
        st.running(),
        0 <= count <= st.pointer,
    ensures
        run(copies(Op::Shl, count), st, modulus, limit) == st.at(st.pointer - count),
    decreases count,
{
    if count > 0 {
        lemma_run_left(count - 1, st, modulus, limit);
        assert(copies(Op::Shl, count) == copies(Op::Shl, count - 1).push(Op::Shl));
        lemma_run_push(copies(Op::Shl, count - 1), Op::Shl, st, modulus, limit);
    } else {
        assert(copies(Op::Shl, count) == Seq::<Op>::empty());
    }
}

/// The moves from one cell to another put the pointer on the other cell and
/// change nothing else; a visit then performs its node there.
pub proof fn lemma_run_visit(from: int, to: int, op: Op, st: Machine, modulus: int, limit: nat)
    requires
        st.running(),
        st.pointer == from,
        0 <= from < st.tape.len(),
        0 <= to < st.tape.len(),
    ensures
        run(moves(from, to), st, modulus, limit) == st.at(to),
        run(visit(from, to, op), st, modulus, limit) == run_op(op, st.at(to), modulus, limit),
{
    if to < from {
        lemma_run_left(from - to, st, modulus, limit);
    } else {
        lemma_run_right(to - from, st, modulus, limit);
    }
    lemma_run_push(moves(from, to), op, st, modulus, limit);
}

/// A run of increments adds their number to the current cell, a run of
/// decrements subtracts it, modulo the modulus.
pub proof fn lemma_run_steps(up: bool, count: int, st: Machine, modulus: int, limit: nat)
    requires
        st.ok(modulus),
        0 <= count,
    ensures
        run(copies(if up { Op::Inc } else { Op::Dec }, count), st, modulus, limit) == st.store(
            (st.current() + if up { count } else { -count }) % modulus,
        ),
    decreases count,
{
    let op = if up { Op::Inc } else { Op::Dec };
    if count > 0 {
        lemma_run_steps(up, count - 1, st, modulus, limit);
        assert(copies(op, count) == copies(op, count - 1).push(op));
        lemma_run_push(copies(op, count - 1), op, st, modulus, limit);
        let before = st.current() + if up { count - 1 } else { -(count - 1) };
        lemma_succ_mod(before, modulus);
        let mid = st.store(before % modulus);
        assert(mid.current() == before % modulus);
        assert(mid.store(succ(mid.current(), modulus)).tape =~= st.store(
            (before + 1) % modulus,
        ).tape);
        assert(mid.store(pred(mid.current(), modulus)).tape =~= st.store(
            (before - 1) % modulus,
        ).tape);
    } else {
        assert(copies(op, count) == Seq::<Op>::empty());
        lemma_small_mod(st.current() as nat, modulus as nat);
        assert(st.store(st.current()).tape =~= st.tape);
    }
}

/// Code that changes the current cell by `delta` leaves the sum there,
/// modulo the modulus.
pub proof fn lemma_run_shift(delta: int, st: Machine, modulus: int, limit: nat)
    requires
        st.ok(modulus),
    ensures
        run(shift(delta), st, modulus, limit) == st.store((st.current() + delta) % modulus),
{
    if delta < 0 {
        lemma_run_steps(false, -delta, st, modulus, limit);
    } else {
        lemma_run_steps(true, delta, st, modulus, limit);
    }
}

/// What the stops of `stops` add to cell `cell` in all.
pub open spec fn tally(stops: Seq<Stop>, cell: int) -> int
    decreases stops.len(),
{
    if stops.len() == 0 {
        0
    } else {
        tally(stops.drop_last(), cell) + if stops.last().at == cell {
            stops.last().change()
        } else {
            0
        }
    }
}

/// The tape after the stops of `stops` were walked `times` times: each cell
/// gained `times` times its tally, modulo the modulus.
pub open spec fn settle(tape: Seq<int>, stops: Seq<Stop>, times: int, modulus: int) -> Seq<int> {
    Seq::new(tape.len(), |cell: int| (tape[cell] + times * tally(stops, cell)) % modulus)
}

/// Whether every stop of `stops` is a cell of a tape of `cells` cells.
pub open spec fn on_tape(stops: Seq<Stop>, cells: nat) -> bool {
    forall|i: int| 0 <= i < stops.len() ==> 0 <= (#[trigger] stops[i]).at < cells
}

/// A walk adds to each cell its tally, and leaves the pointer on the last
/// stop.
pub proof fn lemma_walk(from: int, stops: Seq<Stop>, st: Machine, modulus: int, limit: nat)
    requires
        st.ok(modulus),
        st.pointer == from,
        on_tape(stops, st.tape.len()),
    ensures
        run(walk(from, stops), st, modulus, limit) == st.with_tape(
            settle(st.tape, stops, 1, modulus),
        ).at(walk_end(from, stops)),
    decreases stops.len(),
{
    if stops.len() == 0 {
        assert forall|cell: int| 0 <= cell < st.tape.len() implies (st.tape[cell] + 1 * tally(
            stops,
            cell,
        )) % modulus == st.tape[cell] by {
            lemma_small_mod(st.tape[cell] as nat, modulus as nat);
        }
        assert(settle(st.tape, stops, 1, modulus) =~= st.tape);
    } else {
        let prefix = stops.drop_last();
        let last = stops.last();
        assert(on_tape(prefix, st.tape.len()));
        lemma_walk(from, prefix, st, modulus, limit);
        let mid = st.with_tape(settle(st.tape, prefix, 1, modulus)).at(walk_end(from, prefix));
        assert(mid.fits(modulus)) by {
            assert forall|i: int| 0 <= i < mid.tape.len() implies 0 <= #[trigger] mid.tape[i]
                < modulus by {
                lemma_mod_bound(st.tape[i] + 1 * tally(prefix, i), modulus);
            }
        }
        if stops.len() == 1 {
            assert(prefix == Seq::<Stop>::empty());
        } else {
            assert(0 <= prefix.last().at < st.tape.len()) by {
                assert(prefix.last() == stops[stops.len() - 2]);
            }
            lemma_run_concat(
                walk(from, prefix),
                visit(prefix.last().at, last.at, last.op()),
                st,
                modulus,
                limit,
            );
        }
        lemma_run_visit(mid.pointer, last.at, last.op(), mid, modulus, limit);
        let after = run_op(last.op(), mid.at(last.at), modulus, limit);
        assert(after.tape =~= settle(st.tape, stops, 1, modulus)) by {
            lemma_succ_mod(st.tape[last.at] + 1 * tally(prefix, last.at), modulus);
        }
    }
}

/// A loop on cell `at` whose body is a walk that takes one from `at` in
/// each pass makes as many passes as `at` holds, and so adds to each cell
/// that many times its tally.
pub proof fn lemma_tally_loop(
    at: int,
    stops: Seq<Stop>,
    st: Machine,
    modulus: int,
    limit: nat,
    left: nat,
)
    requires
        st.ok(modulus),
        st.pointer == at,
        on_tape(stops, st.tape.len()),
        tally(stops, at) == -1,
        st.current() <= left,
    ensures
        run_loop(
            join(walk(at, stops), moves(walk_end(at, stops), at)),
            st,
            modulus,
            limit,
            left,
        ) == st.with_tape(settle(st.tape, stops, st.current(), modulus)),
    decreases st.current(),
{
    let body = join(walk(at, stops), moves(walk_end(at, stops), at));
    let held = st.current();
    if held == 0 {
        assert forall|cell: int| 0 <= cell < st.tape.len() implies (st.tape[cell] + 0 * tally(
            stops,
            cell,
        )) % modulus == st.tape[cell] by {
            lemma_small_mod(st.tape[cell] as nat, modulus as nat);
        }
        assert(settle(st.tape, stops, 0, modulus) =~= st.tape);
    } else {
        lemma_run_join(walk(at, stops), moves(walk_end(at, stops), at), st, modulus, limit);
        lemma_walk(at, stops, st, modulus, limit);
        let walked = st.with_tape(settle(st.tape, stops, 1, modulus)).at(walk_end(at, stops));
        assert(0 <= walk_end(at, stops) < st.tape.len());
        lemma_run_visit(walk_end(at, stops), at, Op::Inc, walked, modulus, limit);
        let next = st.with_tape(settle(st.tape, stops, 1, modulus));
        assert(run(body, st, modulus, limit) == next);
        assert(next.fits(modulus)) by {
            assert forall|i: int| 0 <= i < next.tape.len() implies 0 <= #[trigger] next.tape[i]
                < modulus by {
                lemma_mod_bound(st.tape[i] + 1 * tally(stops, i), modulus);
            }
        }
        assert(next.current() == held - 1) by {
            lemma_small_mod((held - 1) as nat, modulus as nat);
        }
        lemma_tally_loop(at, stops, next, modulus, limit, (left - 1) as nat);
        assert(settle(next.tape, stops, held - 1, modulus) =~= settle(
            st.tape,
            stops,
            held,
            modulus,
        )) by {
            assert forall|cell: int| 0 <= cell < st.tape.len() implies (next.tape[cell] + (held
                - 1) * tally(stops, cell)) % modulus == (st.tape[cell] + held * tally(
                stops,
                cell,
            )) % modulus by {
                let d = tally(stops, cell);
                lemma_mod_add(st.tape[cell], 1 * d, (held - 1) * d, modulus);
                assert(1 * d + (held - 1) * d == held * d) by (nonlinear_arith);
            }
        }
    }
}

/// A loop entered from `from` on cell `at`, whose body is a walk that takes
/// one from `at` in each pass: it adds to each cell as many times its tally
/// as `at` held, and leaves the pointer on `at`.
pub proof fn lemma_count_loop(
    from: int,
    at: int,
    stops: Seq<Stop>,
    st: Machine,
    modulus: int,
    limit: nat,
)
    requires
        st.ok(modulus),
        st.pointer == from,
        0 <= at < st.tape.len(),
        on_tape(stops, st.tape.len()),
        tally(stops, at) == -1,
        st.tape[at] <= limit,
    ensures
        run(loop_at(from, at, walk(at, stops), walk_end(at, stops)), st, modulus, limit)
            == st.with_tape(settle(st.tape, stops, st.tape[at], modulus)).at(at),
{
    let body = join(walk(at, stops), moves(walk_end(at, stops), at));
    lemma_run_visit(from, at, Op::Repeat(body), st, modulus, limit);
    lemma_tally_loop(at, stops, st.at(at), modulus, limit, limit);
}

/// What one stop adds to cell `cell`.
pub open spec fn share(stop: Stop, cell: int) -> int {
    if stop.at == cell {
        stop.change()
    } else {
        0
    }
}

/// A walk over two stops, and its tally.
pub proof fn lemma_walk2(from: int, stops: Seq<Stop>, first: Stop, second: Stop)
    requires
        stops == seq![first, second],
    ensures
        walk(from, stops) == visit(from, first.at, first.op()) + visit(
            first.at,
            second.at,
            second.op(),
        ),
        walk_end(from, stops) == second.at,
        forall|cell: int| #[trigger]
            tally(stops, cell) == share(first, cell) + share(second, cell),
{
    assert(stops.drop_last() == seq![first]);
    assert(seq![first].drop_last() == Seq::<Stop>::empty());
    assert(walk(from, seq![first]) == visit(from, first.at, first.op()));
    assert(stops.drop_last().last() == first);
    assert(stops.last() == second);
    assert forall|cell: int| #[trigger]
        tally(stops, cell) == share(first, cell) + share(second, cell) by {
        assert(tally(seq![first], cell) == tally(Seq::<Stop>::empty(), cell) + share(first, cell));
    }
}

/// A walk over three stops, and its tally.
pub proof fn lemma_walk3(from: int, stops: Seq<Stop>, first: Stop, second: Stop, third: Stop)
    requires
        stops == seq![first, second, third],
    ensures
        walk(from, stops) == visit(from, first.at, first.op()) + visit(
            first.at,
            second.at,
            second.op(),
        ) + visit(second.at, third.at, third.op()),
        walk_end(from, stops) == third.at,
        forall|cell: int| #[trigger]
            tally(stops, cell) == share(first, cell) + share(second, cell) + share(third, cell),
{
    assert(stops.drop_last() == seq![first, second]);
    lemma_walk2(from, seq![first, second], first, second);
    assert forall|cell: int| #[trigger]
        tally(stops, cell) == share(first, cell) + share(second, cell) + share(third, cell) by {
        assert(tally(stops, cell) == tally(seq![first, second], cell) + share(third, cell));
    }
}

/// The loop that counts the current cell down is a walk of one stop.
pub proof fn lemma_clear_is_walk(at: int, stops: Seq<Stop>)
    requires
        stops == seq![Stop { at, up: false }],
    ensures
        clear() == Op::Repeat(join(walk(at, stops), moves(walk_end(at, stops), at))),
        forall|cell: int| #[trigger] tally(stops, cell) == share(Stop { at, up: false }, cell),
{
    assert(stops.drop_last() == Seq::<Stop>::empty());
    assert(moves(at, at) =~= Seq::<Op>::empty());
    assert(visit(at, at, Op::Dec) =~= seq![Op::Dec]);
    assert forall|cell: int| #[trigger]
        tally(stops, cell) == share(Stop { at, up: false }, cell) by {
        assert(tally(stops, cell) == tally(Seq::<Stop>::empty(), cell) + share(
            Stop { at, up: false },
            cell,
        ));
    }
}

/// A loop on cell `at` whose body visits two stops and takes one from `at`
/// in each pass: each cell gains as many times its share as `at` held.
pub proof fn lemma_loop2(
    from: int,
    at: int,
    first: Stop,
    second: Stop,
    st: Machine,
    modulus: int,
    limit: nat,
)
    requires
        st.ok(modulus),
        st.pointer == from,
        0 <= at < st.tape.len(),
        0 <= first.at < st.tape.len(),
        0 <= second.at < st.tape.len(),
        share(first, at) + share(second, at) == -1,
        st.tape[at] <= limit,
    ensures
        run(
            loop_at(
                from,
                at,
                visit(at, first.at, first.op()) + visit(first.at, second.at, second.op()),
                second.at,
            ),
            st,
            modulus,
            limit,
        ) == st.at(at).with_tape(
            Seq::new(
                st.tape.len(),
                |cell: int|
                    (st.tape[cell] + st.tape[at] * (share(first, cell) + share(second, cell)))
                        % modulus,
            ),
        ),
{
    let stops = seq![first, second];
    lemma_walk2(at, stops, first, second);
    lemma_count_loop(from, at, stops, st, modulus, limit);
    assert(settle(st.tape, stops, st.tape[at], modulus) =~= Seq::new(
        st.tape.len(),
        |cell: int|
            (st.tape[cell] + st.tape[at] * (share(first, cell) + share(second, cell))) % modulus,
    ));
}

/// A loop on cell `at` whose body visits three stops and takes one from
/// `at` in each pass: each cell gains as many times its share as `at` held.
pub proof fn lemma_loop3(
    from: int,
    at: int,
    first: Stop,
    second: Stop,
    third: Stop,
    st: Machine,
    modulus: int,
    limit: nat,
)
    requires
        st.ok(modulus),
        st.pointer == from,
        0 <= at < st.tape.len(),
        0 <= first.at < st.tape.len(),
        0 <= second.at < st.tape.len(),
        0 <= third.at < st.tape.len(),
        share(first, at) + share(second, at) + share(third, at) == -1,
        st.tape[at] <= limit,
    ensures
        run(
            loop_at(
                from,
                at,
                visit(at, first.at, first.op()) + visit(first.at, second.at, second.op())
                    + visit(second.at, third.at, third.op()),
                third.at,
            ),
            st,
            modulus,
            limit,
        ) == st.at(at).with_tape(
            Seq::new(
                st.tape.len(),
                |cell: int|
                    (st.tape[cell] + st.tape[at] * (share(first, cell) + share(second, cell)
                        + share(third, cell))) % modulus,
            ),
        ),
{
    let stops = seq![first, second, third];
    lemma_walk3(at, stops, first, second, third);
    lemma_count_loop(from, at, stops, st, modulus, limit);
    assert(settle(st.tape, stops, st.tape[at], modulus) =~= Seq::new(
        st.tape.len(),
        |cell: int|
            (st.tape[cell] + st.tape[at] * (share(first, cell) + share(second, cell) + share(
                third,
                cell,
            ))) % modulus,
    ));
}

/// What a cell holds after it gained `times` times a share of one, zero or
/// minus one.
pub proof fn lemma_gain(held: int, times: int, modulus: int)
    requires
        0 <= held < modulus,
        0 <= times < modulus,
    ensures
        (held + times * 0) % modulus == held,
        (held + times * 1) % modulus == (held + times) % modulus,
        (held + times * (-1)) % modulus == (held - times) % modulus,
        (times + times * (-1)) % modulus == 0,
        (0 + times * 1) % modulus == times,
        0 <= (held + times) % modulus < modulus,
        0 <= (held - times) % modulus < modulus,
{
    lemma_small_mod(held as nat, modulus as nat);
    lemma_small_mod(times as nat, modulus as nat);
    lemma_small_mod(0, modulus as nat);
    lemma_mod_bound(held + times, modulus);
    lemma_mod_bound(held - times, modulus);
    assert(times * 0 == 0) by (nonlinear_arith);
    assert(times * 1 == times) by (nonlinear_arith);
    assert(times * (-1) == -times) by (nonlinear_arith);
}

/// Draining into one cell: the loop that, while cell `source` is nonzero,
/// decrements it and steps cell `target` once leaves zero in the source and
/// the sum (or the difference) in the target, modulo the modulus.
pub proof fn law_drain_one(
    from: int,
    source: int,
    target: int,
    up: bool,
    st: Machine,
    modulus: int,
    limit: nat,
)
    requires
        st.ok(modulus),
        st.pointer == from,
        0 <= source < st.tape.len(),
        0 <= target < st.tape.len(),
        source != target,
        st.tape[source] <= limit,
    ensures
        run(
            drain(from, source, seq![target], if up { Op::Inc } else { Op::Dec }),
            st,
            modulus,
            limit,
        ) == st.at(source).with_tape(
            st.tape.update(
                target,
                (st.tape[target] + if up { st.tape[source] } else { -st.tape[source] })
                    % modulus,
            ).update(source, 0),
        ),
{
    let op = if up { Op::Inc } else { Op::Dec };
    let first = Stop { at: source, up: false };
    let second = Stop { at: target, up };
    let targets = seq![target];
    assert(targets.drop_last() == Seq::<int>::empty());
    assert(drain_steps(source, targets, op) == drain_steps(source, targets.drop_last(), op)
        + visit(stop(source, targets.drop_last()), targets.last(), op));
    assert(drain_steps(source, Seq::<int>::empty(), op) == visit(source, source, Op::Dec));
    lemma_loop2(from, source, first, second, st, modulus, limit);
    let held = st.tape[source];
    assert(Seq::new(
        st.tape.len(),
        |cell: int| (st.tape[cell] + held * (share(first, cell) + share(second, cell))) % modulus,
    ) =~= st.tape.update(
        target,
        (st.tape[target] + if up { held } else { -held }) % modulus,
    ).update(source, 0)) by {
        assert forall|cell: int| 0 <= cell < st.tape.len() implies (st.tape[cell] + held * (
        share(first, cell) + share(second, cell))) % modulus == st.tape.update(
            target,
            (st.tape[target] + if up { held } else { -held }) % modulus,
        ).update(source, 0)[cell] by {
            lemma_gain(st.tape[cell], held, modulus);
        }
    }
}

/// Draining into two cells: the loop that, while cell `source` is nonzero,
/// decrements it and increments two other cells leaves zero in the source
/// and adds what it held to each of the two, modulo the modulus.
pub proof fn law_drain_two(
    from: int,
    source: int,
    first: int,
    second: int,
    st: Machine,
    modulus: int,
    limit: nat,
)
    requires
        st.ok(modulus),
        st.pointer == from,
        0 <= source < st.tape.len(),
        0 <= first < st.tape.len(),
        0 <= second < st.tape.len(),
        source != first,
        source != second,
        first != second,
        st.tape[source] <= limit,
    ensures
        run(drain(from, source, seq![first, second], Op::Inc), st, modulus, limit) == st.at(
            source,
        ).with_tape(
            st.tape.update(first, (st.tape[first] + st.tape[source]) % modulus).update(
                second,
                (st.tape[second] + st.tape[source]) % modulus,
            ).update(source, 0),
        ),
{
    let held = st.tape[source];
    let targets = seq![first, second];
    assert(targets.drop_last() == seq![first]);
    assert(seq![first].drop_last() == Seq::<int>::empty());
    assert(drain_steps(source, Seq::<int>::empty(), Op::Inc) == visit(source, source, Op::Dec));
    assert(drain_steps(source, seq![first], Op::Inc) == visit(source, source, Op::Dec) + visit(
        source,
        first,
        Op::Inc,
    )) by {
        assert(drain_steps(source, seq![first], Op::Inc) == drain_steps(
            source,
            seq![first].drop_last(),
            Op::Inc,
        ) + visit(stop(source, seq![first].drop_last()), seq![first].last(), Op::Inc));
    }
    assert(drain_steps(source, targets, Op::Inc) == visit(source, source, Op::Dec) + visit(
        source,
        first,
        Op::Inc,
    ) + visit(first, second, Op::Inc)) by {
        assert(drain_steps(source, targets, Op::Inc) == drain_steps(
            source,
            targets.drop_last(),
            Op::Inc,
        ) + visit(stop(source, targets.drop_last()), targets.last(), Op::Inc));
    }
    lemma_loop3(
        from,
        source,
        Stop { at: source, up: false },
        Stop { at: first, up: true },
        Stop { at: second, up: true },
        st,
        modulus,
        limit,
    );
    let after = run(drain(from, source, targets, Op::Inc), st, modulus, limit);
    assert(after.tape =~= st.tape.update(first, (st.tape[first] + held) % modulus).update(
        second,
        (st.tape[second] + held) % modulus,
    ).update(source, 0)) by {
        assert forall|cell: int| 0 <= cell < st.tape.len() implies after.tape[cell]
            == st.tape.update(first, (st.tape[first] + held) % modulus).update(
            second,
            (st.tape[second] + held) % modulus,
        ).update(source, 0)[cell] by {
            lemma_gain(st.tape[cell], held, modulus);
        }
    }
}

/// Moving into a fresh cell: afterwards the fresh cell holds what the
/// source held, and the source holds zero.
pub proof fn law_move_and_zero(
    from: int,
    source: int,
    output: int,
    st: Machine,
    modulus: int,
    limit: nat,
)
    requires
        st.ok(modulus),
        st.pointer == from,
        0 <= source < st.tape.len(),
        0 <= output < st.tape.len(),
        source != output,
        modulus <= limit + 1,
    ensures
        run(relocate(from, source, output), st, modulus, limit) == st.at(source).with_tape(
            st.tape.update(output, st.tape[source]).update(source, 0),
        ),
        run(relocate(from, source, output), st, modulus, limit).ok(modulus),
{
    law_set(from, output, 0, st, modulus, limit);
    lemma_small_mod(0, modulus as nat);
    let cleared = st.at(output).store(0);
    lemma_run_concat(
        set_code(from, output, 0),
        drain(output, source, seq![output], Op::Inc),
        st,
        modulus,
        limit,
    );
    law_drain_one(output, source, output, true, cleared, modulus, limit);
    lemma_small_mod(st.tape[source] as nat, modulus as nat);
    assert(cleared.tape.update(output, (0 + st.tape[source]) % modulus).update(source, 0)
        =~= st.tape.update(output, st.tape[source]).update(source, 0));
}

/// Moving into another cell: afterwards the other cell holds what the
/// source held, and the source holds zero.
pub proof fn law_move_into_and_zero(
    from: int,
    source: int,
    output: int,
    st: Machine,
    modulus: int,
    limit: nat,
)
    requires
        st.ok(modulus),
        st.pointer == from,
        0 <= source < st.tape.len(),
        0 <= output < st.tape.len(),
        source != output,
        modulus <= limit + 1,
    ensures
        run(pour(from, source, output), st, modulus, limit) == st.at(source).with_tape(
            st.tape.update(output, st.tape[source]).update(source, 0),
        ),
        run(pour(from, source, output), st, modulus, limit).ok(modulus),
{
    law_zero(from, output, st, modulus, limit);
    let cleared = st.at(output).store(0);
    lemma_run_concat(
        visit(from, output, clear()),
        drain(output, source, seq![output], Op::Inc),
        st,
        modulus,
        limit,
    );
    law_drain_one(output, source, output, true, cleared, modulus, limit);
    lemma_small_mod(st.tape[source] as nat, modulus as nat);
    assert(cleared.tape.update(output, (0 + st.tape[source]) % modulus).update(source, 0)
        =~= st.tape.update(output, st.tape[source]).update(source, 0));
}

/// Moving into another cell and ending the source's life: afterwards the
/// other cell holds what the source held, and the source holds zero.
pub proof fn law_move_into(
    from: int,
    source: int,
    output: int,
    st: Machine,
    modulus: int,
    limit: nat,
)
    requires
        st.ok(modulus),
        st.pointer == from,
        0 <= source < st.tape.len(),
        0 <= output < st.tape.len(),
        source != output,
        modulus <= limit + 1,
    ensures
        run(pour_out(from, source, output), st, modulus, limit) == st.at(source).with_tape(
            st.tape.update(output, st.tape[source]).update(source, 0),
        ),
        run(pour_out(from, source, output), st, modulus, limit).ok(modulus),
{
    law_move_into_and_zero(from, source, output, st, modulus, limit);
    let moved = run(pour(from, source, output), st, modulus, limit);
    lemma_run_concat(
        pour(from, source, output),
        visit(source, source, clear()),
        st,
        modulus,
        limit,
    );
    law_zero(source, source, moved, modulus, limit);
    assert(moved.at(source).store(0).tape =~= moved.tape);
}

/// Clearing a cell: the code that goes to cell `at` and counts it down
/// leaves zero there and the pointer on it, and changes nothing else.
pub proof fn law_zero(from: int, at: int, st: Machine, modulus: int, limit: nat)
    requires
        st.ok(modulus),
        st.pointer == from,
        0 <= at < st.tape.len(),
        st.tape[at] <= limit,
    ensures
        run(visit(from, at, clear()), st, modulus, limit) == st.at(at).store(0),
{
    let stops = seq![Stop { at, up: false }];
    lemma_clear_is_walk(at, stops);
    lemma_count_loop(from, at, stops, st, modulus, limit);
    let held = st.tape[at];
    assert(settle(st.tape, stops, held, modulus) =~= st.tape.update(at, 0)) by {
        assert forall|cell: int| 0 <= cell < st.tape.len() implies (st.tape[cell] + held * tally(
            stops,
            cell,
        )) % modulus == st.tape.update(at, 0)[cell] by {
            if cell == at {
                assert(held + held * (-1) == 0) by (nonlinear_arith);
                lemma_small_mod(0, modulus as nat);
            } else {
                assert(held * 0 == 0) by (nonlinear_arith);
                lemma_small_mod(st.tape[cell] as nat, modulus as nat);
            }
        }
    }
}

/// Setting a cell: the code that clears cell `at` and then changes it by
/// `delta` leaves `delta` there, modulo the modulus.
pub proof fn law_set(from: int, at: int, delta: int, st: Machine, modulus: int, limit: nat)
    requires
        st.ok(modulus),
        st.pointer == from,
        0 <= at < st.tape.len(),
        st.tape[at] <= limit,
    ensures
        run(set_code(from, at, delta), st, modulus, limit) == st.at(at).store(delta % modulus),
        st.at(at).store(delta % modulus).ok(modulus),
{
    law_zero(from, at, st, modulus, limit);
    lemma_run_concat(visit(from, at, clear()), shift(delta), st, modulus, limit);
    let cleared = st.at(at).store(0);
    lemma_run_shift(delta, cleared, modulus, limit);
    assert(cleared.store((0 + delta) % modulus).tape =~= st.at(at).store(delta % modulus).tape);
    lemma_mod_bound(delta, modulus);
}

/// Setting a cell to a value and writing it at once: the output gains
/// exactly that value, and the cell holds it.
pub proof fn law_set_then_write<T: CellValue>(
    from: int,
    at: int,
    value: T,
    st: Machine,
    limit: nat,
)
    requires
        st.ok(T::modulus()),
        st.pointer == from,
        0 <= at < st.tape.len(),
        st.tape[at] <= limit,
    ensures
        run(
            set_code(from, at, value.delta()) + visit(at, at, Op::Write),
            st,
            T::modulus(),
            limit,
        ) == (Machine {
            output: st.output.push(value.residue()),
            ..st.at(at).store(value.residue())
        }),
{
    let m = T::modulus();
    T::modular();
    law_set(from, at, value.delta(), st, m, limit);
    lemma_run_concat(set_code(from, at, value.delta()), visit(at, at, Op::Write), st, m, limit);
    let held = st.at(at).store(value.delta() % m);
    lemma_run_visit(at, at, Op::Write, held, m, limit);
    assert(value.delta() % m == value.residue()) by {
        lemma_small_mod(value.residue() as nat, m as nat);
        if value.delta() != value.residue() {
            lemma_mod_add(value.residue(), -m, 0, m);
            assert((value.residue() - m) % m == value.residue() % m) by (nonlinear_arith)
                requires
                    m > 0,
            ;
        }
    }
}

/// The stops of a draining loop: the source, stepped down, and then each
/// target, stepped up or down.
pub open spec fn drain_stops(source: int, targets: Seq<int>, up: bool) -> Seq<Stop> {
    Seq::new(
        targets.len() + 1,
        |i: int|
            if i == 0 {
                Stop { at: source, up: false }
            } else {
                Stop { at: targets[i - 1], up }
            },
    )
}

/// How many times `cell` occurs in `cells`.
pub open spec fn count_of(cells: Seq<int>, cell: int) -> int
    decreases cells.len(),
{
    if cells.len() == 0 {
        0
    } else {
        count_of(cells.drop_last(), cell) + if cells.last() == cell {
            1int
        } else {
            0int
        }
    }
}

/// Whether no cell occurs twice in `cells`.
pub open spec fn distinct(cells: Seq<int>) -> bool {
    forall|i: int, j: int| 0 <= i < j < cells.len() ==> cells[i] != cells[j]
}

/// Whether every cell of `cells` is a cell of a tape of `len` cells.
pub open spec fn in_range(cells: Seq<int>, len: nat) -> bool {
    forall|i: int| 0 <= i < cells.len() ==> 0 <= #[trigger] cells[i] < len
}

/// The body of a draining loop is a walk over its stops.
pub proof fn lemma_drain_is_walk(source: int, targets: Seq<int>, up: bool)
    ensures
        drain_steps(source, targets, if up { Op::Inc } else { Op::Dec }) == walk(
            source,
            drain_stops(source, targets, up),
        ),
        stop(source, targets) == walk_end(source, drain_stops(source, targets, up)),
    decreases targets.len(),
{
    let stops = drain_stops(source, targets, up);
    if targets.len() == 0 {
        assert(stops.drop_last() == Seq::<Stop>::empty());
    } else {
        let fewer = targets.drop_last();
        lemma_drain_is_walk(source, fewer, up);
        assert(stops.drop_last() =~= drain_stops(source, fewer, up));
        assert(stops.last() == Stop { at: targets.last(), up });
    }
}

/// What the stops of a draining loop add to a cell: minus one for the
/// source, and one step for each time the cell is a target.
pub proof fn lemma_drain_tally(source: int, targets: Seq<int>, up: bool, cell: int)
    ensures
        tally(drain_stops(source, targets, up), cell) == (if cell == source {
            -1int
        } else {
            0int
        }) + (if up {
            1int
        } else {
            -1int
        }) * count_of(targets, cell),
    decreases targets.len(),
{
    let stops = drain_stops(source, targets, up);
    if targets.len() == 0 {
        assert(stops.drop_last() == Seq::<Stop>::empty());
        assert(tally(stops, cell) == tally(Seq::<Stop>::empty(), cell) + share(
            stops.last(),
            cell,
        ));
    } else {
        let fewer = targets.drop_last();
        lemma_drain_tally(source, fewer, up, cell);
        assert(stops.drop_last() =~= drain_stops(source, fewer, up));
        assert(stops.last() == Stop { at: targets.last(), up });
    }
}

/// A cell occurs once among cells that are all different, if it occurs at
/// all.
pub proof fn lemma_count_distinct(cells: Seq<int>, cell: int)
    requires
        distinct(cells),
    ensures
        count_of(cells, cell) == if cells.contains(cell) {
            1int
        } else {
            0int
        },
    decreases cells.len(),
{
    if cells.len() > 0 {
        let fewer = cells.drop_last();
        lemma_count_distinct(fewer, cell);
        if cells.last() == cell {
            if fewer.contains(cell) {
                let i = choose|i: int| 0 <= i < fewer.len() && fewer[i] == cell;
                assert(cells[i] == cells[cells.len() - 1]);
            }
            assert(cells[cells.len() - 1] == cell);
        } else {
            if cells.contains(cell) {
                let i = choose|i: int| 0 <= i < cells.len() && cells[i] == cell;
                assert(fewer[i] == cell);
            }
            if fewer.contains(cell) {
                let i = choose|i: int| 0 <= i < fewer.len() && fewer[i] == cell;
                assert(cells[i] == cell);
            }
        }
    }
}

/// The tape after cell `source` was drained into the cells of `targets`:
/// the source holds zero, and each target gained (or lost) what the source
/// held, modulo the modulus.
pub open spec fn spread(
    tape: Seq<int>,
    source: int,
    targets: Seq<int>,
    up: bool,
    modulus: int,
) -> Seq<int> {
    Seq::new(
        tape.len(),
        |cell: int|
            if cell == source {
                0
            } else if targets.contains(cell) {
                (tape[cell] + if up {
                    tape[source]
                } else {
                    -tape[source]
                }) % modulus
            } else {
                tape[cell]
            },
    )
}

/// Draining into several cells: the loop that, while cell `source` is
/// nonzero, decrements it and steps each cell of `targets` once leaves
/// zero in the source, and in each target the sum (or the difference),
/// modulo the modulus.
pub proof fn law_drain(
    from: int,
    source: int,
    targets: Seq<int>,
    up: bool,
    st: Machine,
    modulus: int,
    limit: nat,
)
    requires
        st.ok(modulus),
        st.pointer == from,
        0 <= source < st.tape.len(),
        in_range(targets, st.tape.len()),
        distinct(targets),
        !targets.contains(source),
        st.tape[source] <= limit,
    ensures
        run(
            drain(from, source, targets, if up { Op::Inc } else { Op::Dec }),
            st,
            modulus,
            limit,
        ) == st.at(source).with_tape(spread(st.tape, source, targets, up, modulus)),
{
    let stops = drain_stops(source, targets, up);
    let held = st.tape[source];
    lemma_drain_is_walk(source, targets, up);
    lemma_drain_tally(source, targets, up, source);
    lemma_count_distinct(targets, source);
    assert(on_tape(stops, st.tape.len())) by {
        assert forall|i: int| 0 <= i < stops.len() implies 0 <= (#[trigger] stops[i]).at
            < st.tape.len() by {
            if i > 0 {
                assert(stops[i].at == targets[i - 1]);
            }
        }
    }
    lemma_count_loop(from, source, stops, st, modulus, limit);
    assert(settle(st.tape, stops, held, modulus) =~= spread(
        st.tape,
        source,
        targets,
        up,
        modulus,
    )) by {
        assert forall|cell: int| 0 <= cell < st.tape.len() implies (st.tape[cell] + held * tally(
            stops,
            cell,
        )) % modulus == spread(st.tape, source, targets, up, modulus)[cell] by {
            lemma_drain_tally(source, targets, up, cell);
            lemma_count_distinct(targets, cell);
            lemma_gain(st.tape[cell], held, modulus);
        }
    }
}

/// The tape after the cells of `cells` were cleared.
pub open spec fn wiped(tape: Seq<int>, cells: Seq<int>) -> Seq<int> {
    Seq::new(
        tape.len(),
        |cell: int|
            if cells.contains(cell) {
                0
            } else {
                tape[cell]
            },
    )
}

/// Clearing several cells: afterwards each of them holds zero, and the
/// pointer is on the last of them.
pub proof fn law_zeros(from: int, cells: Seq<int>, st: Machine, modulus: int, limit: nat)
    requires
        st.ok(modulus),
        st.pointer == from,
        in_range(cells, st.tape.len()),
        modulus <= limit + 1,
    ensures
        run(zeros_code(from, cells), st, modulus, limit) == st.at(stop(from, cells)).with_tape(
            wiped(st.tape, cells),
        ),
        st.at(stop(from, cells)).with_tape(wiped(st.tape, cells)).ok(modulus),
    decreases cells.len(),
{
    if cells.len() == 0 {
        assert(wiped(st.tape, cells) =~= st.tape);
    } else {
        let fewer = cells.drop_last();
        let last = cells.last();
        assert(in_range(fewer, st.tape.len()));
        law_zeros(from, fewer, st, modulus, limit);
        let mid = st.at(stop(from, fewer)).with_tape(wiped(st.tape, fewer));
        if cells.len() == 1 {
            assert(fewer == Seq::<int>::empty());
        } else {
            assert(fewer.last() == cells[cells.len() - 2]);
            lemma_run_concat(
                zeros_code(from, fewer),
                set_code(fewer.last(), last, 0),
                st,
                modulus,
                limit,
            );
        }
        law_set(mid.pointer, last, 0, mid, modulus, limit);
        assert(st.tape[st.pointer] < modulus);
        lemma_small_mod(0, modulus as nat);
        assert(mid.at(last).store(0).tape =~= wiped(st.tape, cells)) by {
            assert forall|cell: int| 0 <= cell < st.tape.len() implies mid.at(last).store(
                0,
            ).tape[cell] == wiped(st.tape, cells)[cell] by {
                if cells.contains(cell) && cell != last {
                    let i = choose|i: int| 0 <= i < cells.len() && cells[i] == cell;
                    assert(fewer[i] == cell);
                }
                if fewer.contains(cell) {
                    let i = choose|i: int| 0 <= i < fewer.len() && fewer[i] == cell;
                    assert(cells[i] == cell);
                }
                if cell == last {
                    assert(cells[cells.len() - 1] == cell);
                }
            }
        }
    }
}

/// `tape` with `value` in each cell of `cells` and zero in cell `zeroed`.
pub open spec fn shared(tape: Seq<int>, zeroed: int, cells: Seq<int>, value: int) -> Seq<int> {
    Seq::new(
        tape.len(),
        |cell: int|
            if cell == zeroed {
                0
            } else if cells.contains(cell) {
                value
            } else {
                tape[cell]
            },
    )
}

/// Turning a cell into copies: afterwards each fresh cell holds what the
/// source held, and the source holds zero.
pub proof fn law_into_copies(
    from: int,
    source: int,
    fresh: Seq<int>,
    st: Machine,
    modulus: int,
    limit: nat,
)
    requires
        st.ok(modulus),
        st.pointer == from,
        0 <= source < st.tape.len(),
        in_range(fresh, st.tape.len()),
        distinct(fresh),
        !fresh.contains(source),
        modulus <= limit + 1,
    ensures
        run(into_copies_code(from, source, fresh), st, modulus, limit) == st.at(
            source,
        ).with_tape(shared(st.tape, source, fresh, st.tape[source])),
{
    let held = st.tape[source];
    let zeros = zeros_code(from, fresh);
    let out = drain(stop(from, fresh), source, fresh, Op::Inc);
    let end = visit(source, source, clear());
    lemma_run_concat(join(zeros, out), end, st, modulus, limit);
    lemma_run_join(zeros, out, st, modulus, limit);
    law_zeros(from, fresh, st, modulus, limit);
    let one = run(zeros, st, modulus, limit);
    assert(one.tape[source] == held);
    law_drain(stop(from, fresh), source, fresh, true, one, modulus, limit);
    let two = run(out, one, modulus, limit);
    assert(run(join(zeros, out), st, modulus, limit) == two);
    lemma_small_mod(held as nat, modulus as nat);
    lemma_small_mod(0, modulus as nat);
    let wanted = shared(st.tape, source, fresh, held);
    assert(two.tape =~= wanted);
    assert(two.fits(modulus));
    law_zero(source, source, two, modulus, limit);
    assert(two.at(source).store(0).tape =~= two.tape);
    assert(run(end, two, modulus, limit) == two);
    assert(into_copies_code(from, source, fresh) == join(zeros, out) + end);
}

/// Copying into several fresh cells: afterwards each fresh cell holds what
/// the source holds, the source holds what it held before, and the
/// temporary cell holds zero.
pub proof fn law_copies(
    from: int,
    source: int,
    fresh: Seq<int>,
    temp: int,
    st: Machine,
    modulus: int,
    limit: nat,
)
    requires
        st.ok(modulus),
        st.pointer == from,
        0 <= source < st.tape.len(),
        0 <= temp < st.tape.len(),
        in_range(fresh, st.tape.len()),
        distinct(fresh),
        !fresh.contains(source),
        !fresh.contains(temp),
        source != temp,
        modulus <= limit + 1,
    ensures
        run(copy_code(from, source, fresh, temp), st, modulus, limit) == st.at(temp).with_tape(
            shared(st.tape, temp, fresh, st.tape[source]),
        ),
{
    let held = st.tape[source];
    let all = fresh.push(temp);
    let zeros = zeros_code(from, all);
    let out = drain(temp, source, all, Op::Inc);
    let back = drain(source, temp, seq![source], Op::Inc);
    let end = visit(temp, temp, clear());
    lemma_run_concat(zeros + out + back, end, st, modulus, limit);
    lemma_run_concat(zeros + out, back, st, modulus, limit);
    lemma_run_concat(zeros, out, st, modulus, limit);
    assert(in_range(all, st.tape.len()));
    assert(distinct(all)) by {
        assert forall|i: int, j: int| 0 <= i < j < all.len() implies all[i] != all[j] by {
            if j == fresh.len() {
                assert(fresh[i] == all[i]);
            }
        }
    }
    assert(!all.contains(source)) by {
        if all.contains(source) {
            let i = choose|i: int| 0 <= i < all.len() && all[i] == source;
            assert(i < fresh.len());
            assert(fresh[i] == source);
        }
    }
    assert(stop(from, all) == temp);
    law_zeros(from, all, st, modulus, limit);
    let one = run(zeros, st, modulus, limit);
    assert(one.tape[source] == held);
    law_drain(temp, source, all, true, one, modulus, limit);
    let two = run(out, one, modulus, limit);
    lemma_small_mod(held as nat, modulus as nat);
    lemma_small_mod(0, modulus as nat);
    assert(two.tape =~= shared(st.tape, source, all, held));
    assert(two.fits(modulus));
    assert(all.contains(temp)) by {
        assert(all[all.len() - 1] == temp);
    }
    law_drain_one(source, temp, source, true, two, modulus, limit);
    let three = run(back, two, modulus, limit);
    let wanted = shared(st.tape, temp, fresh, held);
    assert(three.tape =~= wanted) by {
        assert forall|cell: int| 0 <= cell < st.tape.len() implies three.tape[cell]
            == wanted[cell] by {
            if fresh.contains(cell) {
                let i = choose|i: int| 0 <= i < fresh.len() && fresh[i] == cell;
                assert(all[i] == cell);
            }
            if all.contains(cell) && cell != temp {
                let i = choose|i: int| 0 <= i < all.len() && all[i] == cell;
                assert(fresh[i] == cell);
            }
        }
    }
    assert(three.fits(modulus));
    law_zero(temp, temp, three, modulus, limit);
    assert(three.at(temp).store(0).tape =~= three.tape);
    assert(run(end, three, modulus, limit) == three);
    assert(copy_code(from, source, fresh, temp) == zeros + out + back + end);
}

/// Swapping: afterwards each of the two cells holds what the other held,
/// and the temporary cell holds zero. This covers equal values and zeros.
pub proof fn law_swap(
    from: int,
    this: int,
    other: int,
    temp: int,
    st: Machine,
    modulus: int,
    limit: nat,
)
    requires
        st.ok(modulus),
        st.pointer == from,
        0 <= this < st.tape.len(),
        0 <= other < st.tape.len(),
        0 <= temp < st.tape.len(),
        this != other,
        this != temp,
        other != temp,
        modulus <= limit + 1,
    ensures
        run(swap_code(from, this, other, temp), st, modulus, limit) == st.at(temp).with_tape(
            st.tape.update(this, st.tape[other]).update(other, st.tape[this]).update(temp, 0),
        ),
{
    let first = relocate(from, this, temp);
    let second = pour(this, other, this);
    let third = pour_out(other, temp, other);
    lemma_run_concat(first + second, third, st, modulus, limit);
    lemma_run_concat(first, second, st, modulus, limit);
    law_move_and_zero(from, this, temp, st, modulus, limit);
    let one = run(first, st, modulus, limit);
    law_move_into_and_zero(this, other, this, one, modulus, limit);
    let two = run(second, one, modulus, limit);
    law_move_into(other, temp, other, two, modulus, limit);
    let three = run(third, two, modulus, limit);
    assert(three.tape =~= st.tape.update(this, st.tape[other]).update(
        other,
        st.tape[this],
    ).update(temp, 0));
}

/// Copying into one fresh cell: afterwards the fresh cell holds what the
/// source holds, the source holds what it held before, and the temporary
/// cell holds zero.
pub proof fn law_copy(
    from: int,
    source: int,
    copy: int,
    temp: int,
    st: Machine,
    modulus: int,
    limit: nat,
)
    requires
        st.ok(modulus),
        st.pointer == from,
        0 <= source < st.tape.len(),
        0 <= copy < st.tape.len(),
        0 <= temp < st.tape.len(),
        source != copy,
        source != temp,
        copy != temp,
        modulus <= limit + 1,
    ensures
        run(copy_code(from, source, seq![copy], temp), st, modulus, limit) == st.at(
            temp,
        ).with_tape(st.tape.update(copy, st.tape[source]).update(temp, 0)),
{
    let held = st.tape[source];
    let cells = seq![copy, temp];
    assert(seq![copy].push(temp) == cells);
    assert(cells.drop_last() == seq![copy]);
    assert(seq![copy].drop_last() == Seq::<int>::empty());
    let zero_copy = set_code(from, copy, 0);
    let zero_temp = set_code(copy, temp, 0);
    assert(zeros_code(from, seq![copy]) == zero_copy);
    assert(zeros_code(from, cells) == zero_copy + zero_temp);
    let out = drain(temp, source, cells, Op::Inc);
    let back = drain(source, temp, seq![source], Op::Inc);
    let end = visit(temp, temp, clear());
    lemma_run_concat(zero_copy + zero_temp + out + back, end, st, modulus, limit);
    lemma_run_concat(zero_copy + zero_temp + out, back, st, modulus, limit);
    lemma_run_concat(zero_copy + zero_temp, out, st, modulus, limit);
    lemma_run_concat(zero_copy, zero_temp, st, modulus, limit);
    lemma_small_mod(0, modulus as nat);
    law_set(from, copy, 0, st, modulus, limit);
    let one = st.at(copy).store(0);
    law_set(copy, temp, 0, one, modulus, limit);
    let two = one.at(temp).store(0);

    law_drain_two(temp, source, copy, temp, two, modulus, limit);
    let three = run(out, two, modulus, limit);
    lemma_small_mod(held as nat, modulus as nat);
    assert(three.tape =~= st.tape.update(copy, held).update(temp, held).update(source, 0));
    assert(three.fits(modulus));
    law_drain_one(source, temp, source, true, three, modulus, limit);
    let four = run(back, three, modulus, limit);
    lemma_small_mod(held as nat, modulus as nat);
    assert(four.tape =~= st.tape.update(copy, held).update(temp, 0));
    assert(four.fits(modulus));
    law_zero(temp, temp, four, modulus, limit);
    assert(four.at(temp).store(0).tape =~= four.tape);
}

/// Adding a constant: the code that goes to cell `at` and changes it by
/// `delta` leaves the sum there, modulo the modulus.
pub proof fn law_add_value(from: int, at: int, delta: int, st: Machine, modulus: int, limit: nat)
    requires
        st.ok(modulus),
        st.pointer == from,
        0 <= at < st.tape.len(),
    ensures
        run(moves(from, at) + shift(delta), st, modulus, limit) == st.at(at).store(
            (st.tape[at] + delta) % modulus,
        ),
{
    lemma_run_concat(moves(from, at), shift(delta), st, modulus, limit);
    lemma_run_visit(from, at, Op::Inc, st, modulus, limit);
    lemma_run_shift(delta, st.at(at), modulus, limit);
}

/// Adding a cell, or subtracting it: afterwards the cell holds the sum (or
/// the difference) modulo the modulus, the other cell holds what it held
/// before, and the temporary cell holds zero.
pub proof fn law_combine(
    from: int,
    this: int,
    rhs: int,
    temp: int,
    up: bool,
    st: Machine,
    modulus: int,
    limit: nat,
)
    requires
        st.ok(modulus),
        st.pointer == from,
        0 <= this < st.tape.len(),
        0 <= rhs < st.tape.len(),
        0 <= temp < st.tape.len(),
        this != rhs,
        this != temp,
        rhs != temp,
        modulus <= limit + 1,
    ensures
        run(
            combine(from, this, rhs, temp, if up { Op::Inc } else { Op::Dec }),
            st,
            modulus,
            limit,
        ) == st.at(temp).with_tape(
            st.tape.update(
                this,
                (st.tape[this] + if up { st.tape[rhs] } else { -st.tape[rhs] }) % modulus,
            ).update(temp, 0),
        ),
        run(
            combine(from, this, rhs, temp, if up { Op::Inc } else { Op::Dec }),
            st,
            modulus,
            limit,
        ).ok(modulus),
{
    let op = if up { Op::Inc } else { Op::Dec };
    let held = st.tape[rhs];
    let first = set_code(from, temp, 0);
    let second = loop_at(
        temp,
        rhs,
        visit(rhs, temp, Op::Inc) + visit(temp, rhs, Op::Dec),
        rhs,
    );
    let third = loop_at(
        rhs,
        temp,
        visit(temp, rhs, Op::Inc) + visit(rhs, this, op) + visit(this, temp, Op::Dec),
        temp,
    );
    let fourth = visit(temp, temp, clear());
    lemma_run_concat(first + second + third, fourth, st, modulus, limit);
    lemma_run_concat(first + second, third, st, modulus, limit);
    lemma_run_concat(first, second, st, modulus, limit);
    lemma_small_mod(0, modulus as nat);
    lemma_small_mod(held as nat, modulus as nat);
    law_set(from, temp, 0, st, modulus, limit);
    let one = st.at(temp).store(0);
    lemma_loop2(
        temp,
        rhs,
        Stop { at: temp, up: true },
        Stop { at: rhs, up: false },
        one,
        modulus,
        limit,
    );
    let two = run(second, one, modulus, limit);
    assert(two.tape =~= st.tape.update(temp, held).update(rhs, 0)) by {
        assert forall|cell: int| 0 <= cell < st.tape.len() implies two.tape[cell]
            == st.tape.update(temp, held).update(rhs, 0)[cell] by {
            lemma_gain(one.tape[cell], held, modulus);
        }
    }
    assert(two.fits(modulus));
    lemma_loop3(
        rhs,
        temp,
        Stop { at: rhs, up: true },
        Stop { at: this, up },
        Stop { at: temp, up: false },
        two,
        modulus,
        limit,
    );
    let three = run(third, two, modulus, limit);
    let sum = (st.tape[this] + if up { held } else { -held }) % modulus;
    assert(three.tape =~= st.tape.update(this, sum).update(temp, 0)) by {
        assert forall|cell: int| 0 <= cell < st.tape.len() implies three.tape[cell]
            == st.tape.update(this, sum).update(temp, 0)[cell] by {
            lemma_gain(two.tape[cell], held, modulus);
        }
    }
    assert(three.fits(modulus)) by {
        lemma_gain(st.tape[this], held, modulus);
    }
    law_zero(temp, temp, three, modulus, limit);
    assert(three.at(temp).store(0).tape =~= three.tape);
}

/// Adding a cell and using it up, or subtracting it: afterwards the cell
/// holds the sum (or the difference) modulo the modulus, and the other cell
/// holds zero.
pub proof fn law_absorb(
    from: int,
    this: int,
    rhs: int,
    up: bool,
    st: Machine,
    modulus: int,
    limit: nat,
)
    requires
        st.ok(modulus),
        st.pointer == from,
        0 <= this < st.tape.len(),
        0 <= rhs < st.tape.len(),
        this != rhs,
        modulus <= limit + 1,
    ensures
        run(absorb(from, this, rhs, if up { Op::Inc } else { Op::Dec }), st, modulus, limit)
            == st.at(rhs).with_tape(
            st.tape.update(
                this,
                (st.tape[this] + if up { st.tape[rhs] } else { -st.tape[rhs] }) % modulus,
            ).update(rhs, 0),
        ),
{
    let op = if up { Op::Inc } else { Op::Dec };
    lemma_run_concat(
        drain(from, rhs, seq![this], op),
        visit(rhs, rhs, clear()),
        st,
        modulus,
        limit,
    );
    law_drain_one(from, rhs, this, up, st, modulus, limit);
    let drained = run(drain(from, rhs, seq![this], op), st, modulus, limit);
    assert(drained.fits(modulus)) by {
        lemma_gain(st.tape[this], st.tape[rhs], modulus);
    }
    law_zero(rhs, rhs, drained, modulus, limit);
    assert(drained.at(rhs).store(0).tape =~= drained.tape);
}

/// Making a cell a copy of another: afterwards the cell holds what the
/// other holds, the other holds what it held before, and the temporary cell
/// holds zero.
pub proof fn law_clone_from(
    from: int,
    this: int,
    other: int,
    temp: int,
    st: Machine,
    modulus: int,
    limit: nat,
)
    requires
        st.ok(modulus),
        st.pointer == from,
        0 <= this < st.tape.len(),
        0 <= other < st.tape.len(),
        0 <= temp < st.tape.len(),
        this != other,
        this != temp,
        other != temp,
        modulus <= limit + 1,
    ensures
        run(clone_from_code(from, this, other, temp), st, modulus, limit) == st.at(
            temp,
        ).with_tape(st.tape.update(this, st.tape[other]).update(temp, 0)),
{
    let held = st.tape[other];
    let first = set_code(from, temp, 0);
    let second = visit(temp, this, clear());
    let third = loop_at(
        this,
        other,
        visit(other, temp, Op::Inc) + visit(temp, other, Op::Dec),
        other,
    );
    let fourth = loop_at(
        other,
        temp,
        visit(temp, this, Op::Inc) + visit(this, other, Op::Inc) + visit(other, temp, Op::Dec),
        temp,
    );
    let fifth = visit(temp, temp, clear());
    lemma_run_concat(first + second + third + fourth, fifth, st, modulus, limit);
    lemma_run_concat(first + second + third, fourth, st, modulus, limit);
    lemma_run_concat(first + second, third, st, modulus, limit);
    lemma_run_concat(first, second, st, modulus, limit);
    lemma_small_mod(0, modulus as nat);
    lemma_small_mod(held as nat, modulus as nat);
    law_set(from, temp, 0, st, modulus, limit);
    let one = st.at(temp).store(0);
    law_zero(temp, this, one, modulus, limit);
    let two = one.at(this).store(0);
    assert(two.fits(modulus));
    lemma_loop2(
        this,
        other,
        Stop { at: temp, up: true },
        Stop { at: other, up: false },
        two,
        modulus,
        limit,
    );
    let three = run(third, two, modulus, limit);
    assert(three.tape =~= st.tape.update(temp, held).update(this, 0).update(other, 0)) by {
        assert forall|cell: int| 0 <= cell < st.tape.len() implies three.tape[cell]
            == st.tape.update(temp, held).update(this, 0).update(other, 0)[cell] by {
            lemma_gain(two.tape[cell], held, modulus);
        }
    }
    assert(three.fits(modulus));
    lemma_loop3(
        other,
        temp,
        Stop { at: this, up: true },
        Stop { at: other, up: true },
        Stop { at: temp, up: false },
        three,
        modulus,
        limit,
    );
    let four = run(fourth, three, modulus, limit);
    assert(four.tape =~= st.tape.update(this, held).update(temp, 0)) by {
        assert forall|cell: int| 0 <= cell < st.tape.len() implies four.tape[cell]
            == st.tape.update(this, held).update(temp, 0)[cell] by {
            lemma_gain(three.tape[cell], held, modulus);
        }
    }
    assert(four.fits(modulus));
    law_zero(temp, temp, four, modulus, limit);
    assert(four.at(temp).store(0).tape =~= four.tape);
}

/// The tape after the loop of a multiplication ran with `count` holding
/// some number: `this` gained that many times what `rhs` holds, `count` is
/// zero, and `temp` is zero if the loop made a pass at all.
pub open spec fn multiplied(
    tape: Seq<int>,
    this: int,
    rhs: int,
    count: int,
    temp: int,
    modulus: int,
) -> Seq<int> {
    tape.update(this, (tape[this] + tape[count] * tape[rhs]) % modulus).update(
        temp,
        if tape[count] == 0 {
            tape[temp]
        } else {
            0
        },
    ).update(count, 0)
}

/// The loop of a multiplication adds `rhs` to `this` once for each unit of
/// `count`.
pub proof fn lemma_mul_loop(
    this: int,
    rhs: int,
    count: int,
    temp: int,
    st: Machine,
    modulus: int,
    limit: nat,
    left: nat,
)
    requires
        st.ok(modulus),
        st.pointer == count,
        0 <= this < st.tape.len(),
        0 <= rhs < st.tape.len(),
        0 <= count < st.tape.len(),
        0 <= temp < st.tape.len(),
        this != rhs,
        this != count,
        this != temp,
        rhs != count,
        rhs != temp,
        count != temp,
        modulus <= limit + 1,
        st.tape[count] <= left,
    ensures
        run_loop(
            join(
                combine(count, this, rhs, temp, Op::Inc) + visit(temp, count, Op::Dec),
                moves(count, count),
            ),
            st,
            modulus,
            limit,
            left,
        ) == st.with_tape(multiplied(st.tape, this, rhs, count, temp, modulus)),
    decreases st.tape[count],
{
    let adding = combine(count, this, rhs, temp, Op::Inc);
    let stepping = visit(temp, count, Op::Dec);
    let body = join(adding + stepping, moves(count, count));
    let held = st.tape[count];
    let factor = st.tape[rhs];
    if held == 0 {
        assert(held * factor == 0) by (nonlinear_arith)
            requires
                held == 0,
        ;
        lemma_small_mod(st.tape[this] as nat, modulus as nat);
        assert(multiplied(st.tape, this, rhs, count, temp, modulus) =~= st.tape);
    } else {
        assert(moves(count, count) =~= Seq::<Op>::empty());
        assert(body == adding + stepping);
        lemma_run_concat(adding, stepping, st, modulus, limit);
        law_combine(count, this, rhs, temp, true, st, modulus, limit);
        let added = run(adding, st, modulus, limit);
        lemma_run_visit(temp, count, Op::Dec, added, modulus, limit);
        let next = run(body, st, modulus, limit);
        let sum = (st.tape[this] + factor) % modulus;
        assert(next == st.with_tape(
            st.tape.update(this, sum).update(temp, 0).update(count, held - 1),
        )) by {
            assert(next.tape =~= st.tape.update(this, sum).update(temp, 0).update(
                count,
                held - 1,
            ));
        }
        assert(next.fits(modulus)) by {
            lemma_gain(st.tape[this], factor, modulus);
        }
        lemma_mul_loop(this, rhs, count, temp, next, modulus, limit, (left - 1) as nat);
        assert((sum + (held - 1) * factor) % modulus == (st.tape[this] + held * factor)
            % modulus) by {
            lemma_mod_add(st.tape[this], factor, (held - 1) * factor, modulus);
            assert(factor + (held - 1) * factor == held * factor) by (nonlinear_arith);
        }
        assert(multiplied(next.tape, this, rhs, count, temp, modulus) =~= multiplied(
            st.tape,
            this,
            rhs,
            count,
            temp,
            modulus,
        ));
    }
}

/// Multiplying by a cell: afterwards the cell holds the product modulo the
/// modulus, the other cell holds what it held before, and the counting cell
/// holds zero; so does the temporary cell, unless the cell held zero and
/// nothing was added at all.
pub proof fn law_mul(
    from: int,
    this: int,
    rhs: int,
    count: int,
    temp: int,
    st: Machine,
    modulus: int,
    limit: nat,
)
    requires
        st.ok(modulus),
        st.pointer == from,
        0 <= this < st.tape.len(),
        0 <= rhs < st.tape.len(),
        0 <= count < st.tape.len(),
        0 <= temp < st.tape.len(),
        this != rhs,
        this != count,
        this != temp,
        rhs != count,
        rhs != temp,
        count != temp,
        modulus <= limit + 1,
    ensures
        run(mul_code(from, this, rhs, count, temp), st, modulus, limit) == st.at(
            count,
        ).with_tape(
            st.tape.update(this, (st.tape[this] * st.tape[rhs]) % modulus).update(
                temp,
                if st.tape[this] == 0 {
                    st.tape[temp]
                } else {
                    0
                },
            ).update(count, 0),
        ),
        run(mul_code(from, this, rhs, count, temp), st, modulus, limit).ok(modulus),
{
    let first = relocate(from, this, count);
    let body = join(
        combine(count, this, rhs, temp, Op::Inc) + visit(temp, count, Op::Dec),
        moves(count, count),
    );
    let second = loop_at(
        this,
        count,
        combine(count, this, rhs, temp, Op::Inc) + visit(temp, count, Op::Dec),
        count,
    );
    let third = visit(count, count, clear());
    lemma_run_concat(first + second, third, st, modulus, limit);
    lemma_run_concat(first, second, st, modulus, limit);
    law_move_and_zero(from, this, count, st, modulus, limit);
    let one = run(first, st, modulus, limit);
    lemma_run_visit(this, count, Op::Repeat(body), one, modulus, limit);
    lemma_mul_loop(this, rhs, count, temp, one.at(count), modulus, limit, limit);
    let two = run(second, one, modulus, limit);
    let product = (st.tape[this] * st.tape[rhs]) % modulus;
    lemma_mod_bound(st.tape[this] * st.tape[rhs], modulus);
    assert(two.tape =~= st.tape.update(this, product).update(
        temp,
        if st.tape[this] == 0 {
            st.tape[temp]
        } else {
            0
        },
    ).update(count, 0));
    assert(two.fits(modulus));
    law_zero(count, count, two, modulus, limit);
    assert(two.at(count).store(0).tape =~= two.tape);
}

/// Multiplying by a constant: afterwards the cell holds the product modulo
/// the modulus, and the cell that held the constant and the counting cell
/// hold zero.
pub proof fn law_mul_value(
    from: int,
    this: int,
    delta: int,
    held: int,
    count: int,
    temp: int,
    st: Machine,
    modulus: int,
    limit: nat,
)
    requires
        st.ok(modulus),
        st.pointer == from,
        0 <= this < st.tape.len(),
        0 <= held < st.tape.len(),
        0 <= count < st.tape.len(),
        0 <= temp < st.tape.len(),
        this != held,
        this != count,
        this != temp,
        held != count,
        held != temp,
        count != temp,
        modulus <= limit + 1,
    ensures
        run(mul_value_code(from, this, delta, held, count, temp), st, modulus, limit) == st.at(
            held,
        ).with_tape(
            st.tape.update(this, (st.tape[this] * (delta % modulus)) % modulus).update(
                temp,
                if st.tape[this] == 0 {
                    st.tape[temp]
                } else {
                    0
                },
            ).update(count, 0).update(held, 0),
        ),
{
    let first = set_code(from, held, delta);
    let second = mul_code(held, this, held, count, temp);
    let third = visit(count, held, clear());
    lemma_run_concat(first + second, third, st, modulus, limit);
    lemma_run_concat(first, second, st, modulus, limit);
    law_set(from, held, delta, st, modulus, limit);
    let one = st.at(held).store(delta % modulus);
    law_mul(held, this, held, count, temp, one, modulus, limit);
    let two = run(second, one, modulus, limit);
    law_zero(count, held, two, modulus, limit);
    assert(two.at(held).store(0).tape =~= st.tape.update(
        this,
        (st.tape[this] * (delta % modulus)) % modulus,
    ).update(
        temp,
        if st.tape[this] == 0 {
            st.tape[temp]
        } else {
            0
        },
    ).update(count, 0).update(held, 0));
}

/// Multiplying by a cell and using it up: afterwards the cell holds the
/// product modulo the modulus, and the other cell and the counting cell
/// hold zero.
pub proof fn law_mul_cell(
    from: int,
    this: int,
    rhs: int,
    count: int,
    temp: int,
    st: Machine,
    modulus: int,
    limit: nat,
)
    requires
        st.ok(modulus),
        st.pointer == from,
        0 <= this < st.tape.len(),
        0 <= rhs < st.tape.len(),
        0 <= count < st.tape.len(),
        0 <= temp < st.tape.len(),
        this != rhs,
        this != count,
        this != temp,
        rhs != count,
        rhs != temp,
        count != temp,
        modulus <= limit + 1,
    ensures
        run(
            mul_code(from, this, rhs, count, temp) + visit(count, rhs, clear()),
            st,
            modulus,
            limit,
        ) == st.at(rhs).with_tape(
            st.tape.update(this, (st.tape[this] * st.tape[rhs]) % modulus).update(
                temp,
                if st.tape[this] == 0 {
                    st.tape[temp]
                } else {
                    0
                },
            ).update(count, 0).update(rhs, 0),
        ),
{
    lemma_run_concat(
        mul_code(from, this, rhs, count, temp),
        visit(count, rhs, clear()),
        st,
        modulus,
        limit,
    );
    law_mul(from, this, rhs, count, temp, st, modulus, limit);
    let one = run(mul_code(from, this, rhs, count, temp), st, modulus, limit);
    law_zero(count, rhs, one, modulus, limit);
}

/// Reading into a fresh cell: afterwards the cell holds the next input
/// value, or the default if there is no input left.
pub proof fn law_read(from: int, at: int, default: int, st: Machine, modulus: int, limit: nat)
    requires
        st.ok(modulus),
        st.pointer == from,
        0 <= at < st.tape.len(),
        st.tape[at] <= limit,
    ensures
        run(
            set_code(from, at, default) + visit(at, at, Op::Read),
            st,
            modulus,
            limit,
        ) == if st.input.len() > 0 {
            Machine { input: st.input.drop_first(), ..st.at(at).store(st.input.first()) }
        } else {
            st.at(at).store(default % modulus)
        },
{
    lemma_run_concat(set_code(from, at, default), visit(at, at, Op::Read), st, modulus, limit);
    law_set(from, at, default, st, modulus, limit);
    let cleared = st.at(at).store(default % modulus);
    lemma_run_visit(at, at, Op::Read, cleared, modulus, limit);
    if st.input.len() > 0 {
        assert(cleared.store(st.input.first()).tape =~= st.at(at).store(st.input.first()).tape);
    }
}

/// `tape` with the cells from `start` on holding the values of `deltas`,
/// modulo the modulus.
pub open spec fn filled(tape: Seq<int>, start: int, deltas: Seq<int>, modulus: int) -> Seq<int> {
    Seq::new(
        tape.len(),
        |cell: int|
            if start <= cell < start + deltas.len() {
                deltas[cell - start] % modulus
            } else {
                tape[cell]
            },
    )
}

/// Setting an array: afterwards the cells from `start` on hold the given
/// values, modulo the modulus, and the pointer is on the last of them.
pub proof fn law_array(
    from: int,
    start: int,
    deltas: Seq<int>,
    st: Machine,
    modulus: int,
    limit: nat,
)
    requires
        st.ok(modulus),
        st.pointer == from,
        0 <= start,
        start + deltas.len() <= st.tape.len(),
        modulus <= limit + 1,
    ensures
        run(fill_code(from, start, deltas), st, modulus, limit) == st.at(
            if deltas.len() == 0 {
                from
            } else {
                start + deltas.len() - 1
            },
        ).with_tape(filled(st.tape, start, deltas, modulus)),
        filled(st.tape, start, deltas, modulus).len() == st.tape.len(),
        forall|cell: int|
            0 <= cell < st.tape.len() ==> 0 <= #[trigger] filled(
                st.tape,
                start,
                deltas,
                modulus,
            )[cell] < modulus,
    decreases deltas.len(),
{
    assert(st.tape[st.pointer] < modulus);
    assert forall|cell: int| 0 <= cell < st.tape.len() implies 0 <= #[trigger] filled(
        st.tape,
        start,
        deltas,
        modulus,
    )[cell] < modulus by {
        if start <= cell < start + deltas.len() {
            lemma_mod_bound(deltas[cell - start], modulus);
        }
    }
    if deltas.len() == 0 {
        assert(filled(st.tape, start, deltas, modulus) =~= st.tape);
    } else {
        let fewer = deltas.drop_last();
        let last = deltas.last();
        let at = start + deltas.len() - 1;
        law_array(from, start, fewer, st, modulus, limit);
        let mid = run(fill_code(from, start, fewer), st, modulus, limit);
        if deltas.len() == 1 {
            assert(fewer == Seq::<int>::empty());
        } else {
            lemma_run_concat(
                fill_code(from, start, fewer),
                set_code(start + deltas.len() - 2, at, last),
                st,
                modulus,
                limit,
            );
        }
        assert(mid.fits(modulus));
        law_set(mid.pointer, at, last, mid, modulus, limit);
        assert(mid.at(at).store(last % modulus).tape =~= filled(st.tape, start, deltas, modulus));
    }
}

/// The residues of a sequence of bytes.
pub open spec fn byte_residues(bytes: Seq<u8>, modulus: int) -> Seq<int> {
    Seq::new(bytes.len(), |i: int| bytes[i] as int % modulus)
}

/// Spelling out bytes: the code that brings the current cell to each byte
/// in turn and writes it adds the bytes to the output, and leaves the last
/// of them in the cell.
pub proof fn law_spell(held: int, bytes: Seq<u8>, st: Machine, modulus: int, limit: nat)
    requires
        st.ok(modulus),
        st.current() == held % modulus,
    ensures
        run(spell_code(held, bytes), st, modulus, limit) == (Machine {
            output: st.output + byte_residues(bytes, modulus),
            ..st.store(
                if bytes.len() == 0 {
                    st.current()
                } else {
                    bytes.last() as int % modulus
                },
            )
        }),
    decreases bytes.len(),
{
    assert(st.tape[st.pointer] < modulus);
    if bytes.len() == 0 {
        assert(st.store(st.current()).tape =~= st.tape);
        assert(st.output + byte_residues(bytes, modulus) =~= st.output);
    } else {
        let fewer = bytes.drop_last();
        let last = bytes.last() as int;
        let before = if bytes.len() == 1 {
            held
        } else {
            bytes[bytes.len() - 2] as int
        };
        law_spell(held, fewer, st, modulus, limit);
        let mid = run(spell_code(held, fewer), st, modulus, limit);
        let change = shift(last - before);
        if bytes.len() == 1 {
            assert(fewer == Seq::<u8>::empty());
        } else {
            assert(fewer.last() == bytes[bytes.len() - 2]);
            lemma_run_concat(spell_code(held, fewer), change.push(Op::Write), st, modulus, limit);
        }
        assert(mid.current() == before % modulus);
        lemma_mod_bound(before, modulus);
        assert(mid.fits(modulus));
        lemma_run_push(change, Op::Write, mid, modulus, limit);
        lemma_run_shift(last - before, mid, modulus, limit);
        lemma_mod_add(0, before, last - before, modulus);
        let moved = mid.store(last % modulus);
        assert(run(change, mid, modulus, limit) == moved);
        assert(moved.tape =~= st.store(last % modulus).tape);
        assert(mid.output.push(last % modulus) =~= st.output + byte_residues(bytes, modulus)) by {
            assert(byte_residues(fewer, modulus) =~= byte_residues(bytes, modulus).drop_last());
        }
    }
}

/// Writing a string: afterwards the output has gained the bytes of the
/// string, and the cell that was used holds zero.
pub proof fn law_string(from: int, at: int, bytes: Seq<u8>, st: Machine, modulus: int, limit: nat)
    requires
        st.ok(modulus),
        st.pointer == from,
        0 <= at < st.tape.len(),
        modulus <= limit + 1,
    ensures
        run(string_code(from, at, bytes), st, modulus, limit) == (Machine {
            output: st.output + byte_residues(bytes, modulus),
            ..st.at(at).store(0)
        }),
{
    let first = set_code(from, at, 0);
    let second = spell_code(0, bytes);
    let third = visit(at, at, clear());
    lemma_run_concat(join(first, second), third, st, modulus, limit);
    lemma_run_join(first, second, st, modulus, limit);
    law_set(from, at, 0, st, modulus, limit);
    let one = st.at(at).store(0int % modulus);
    law_spell(0, bytes, one, modulus, limit);
    let two = run(second, one, modulus, limit);
    assert(st.tape[st.pointer] < modulus);
    assert(two.fits(modulus)) by {
        if bytes.len() > 0 {
            lemma_mod_bound(bytes.last() as int, modulus);
        }
    }
    law_zero(at, at, two, modulus, limit);
    assert(two.at(at).store(0).tape =~= st.at(at).store(0).tape);
}

/// Releasing a cell and allocating again hands out the same address: after
/// the lowest free address was allocated and released, it is the lowest
/// free address once more.
pub proof fn law_reuse(allocations: Seq<bool>)
    requires
        first_free(allocations, 0) < allocations.len(),
    ensures
        first_free(
            allocations.update(first_free(allocations, 0), true).update(
                first_free(allocations, 0),
                false,
            ),
            0,
        ) == first_free(allocations, 0),
{
    lemma_first_free(allocations, 0);
    assert(allocations.update(first_free(allocations, 0), true).update(
        first_free(allocations, 0),
        false,
    ) =~= allocations);
}

/// Releasing any allocated cell makes its address the next one handed out,
/// unless a lower address is already free.
pub proof fn law_release(allocations: Seq<bool>, address: int)
    requires
        0 <= address < allocations.len(),
        allocations[address],
    ensures
        first_free(allocations.update(address, false), 0) == if address < first_free(
            allocations,
            0,
        ) {
            address
        } else {
            first_free(allocations, 0)
        },
{
    lemma_first_free(allocations, 0);
    let lowest = first_free(allocations, 0);
    let found = if address < lowest {
        address
    } else {
        lowest
    };
    lemma_first_free_is(allocations.update(address, false), 0, found);
}

} // verus!
