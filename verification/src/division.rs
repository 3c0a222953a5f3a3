//! What the code of a division does when it runs.

use crate::builder::code::{
    clear, div_code, div_round, div_unit, div_value_code, drain, join, loop_at, moves, pour,
    set_code, visit,
};
use crate::builder::types::{pred, succ};
use crate::laws::{
    law_drain_one, law_drain_two, law_move_into_and_zero, law_set, law_zero, lemma_mod_add,
    lemma_run_visit, lemma_succ_mod,
};
use crate::machine::{lemma_run_concat, lemma_stopped, run, run_loop, Machine, Status};
use crate::program::Op;
use vstd::arithmetic::div_mod::{lemma_mod_bound, lemma_small_mod};
use vstd::prelude::*;

verus! {

/// The cells a division works on: the dividend (which ends as the
/// quotient), the divisor, and the four temporary cells.
pub struct Desk {
    /// The dividend, and in the end the quotient.
    pub this: int,
    /// The divisor.
    pub rhs: int,
    /// What is left of the dividend.
    pub t0: int,
    /// What is left of the divisor in the current round.
    pub t1: int,
    /// A flag: whether the dividend just ran out.
    pub t2: int,
    /// Where `t0` waits while it is tested for zero.
    pub t3: int,
}

impl Desk {
    /// Whether the six cells are different cells of a tape of `cells` cells.
    pub open spec fn fits(self, cells: nat) -> bool {
        &&& 0 <= self.this < cells
        &&& 0 <= self.rhs < cells
        &&& 0 <= self.t0 < cells
        &&& 0 <= self.t1 < cells
        &&& 0 <= self.t2 < cells
        &&& 0 <= self.t3 < cells
        &&& self.this != self.rhs
        &&& self.this != self.t0
        &&& self.this != self.t1
        &&& self.this != self.t2
        &&& self.this != self.t3
        &&& self.rhs != self.t0
        &&& self.rhs != self.t1
        &&& self.rhs != self.t2
        &&& self.rhs != self.t3
        &&& self.t0 != self.t1
        &&& self.t0 != self.t2
        &&& self.t0 != self.t3
        &&& self.t1 != self.t2
        &&& self.t1 != self.t3
        &&& self.t2 != self.t3
    }

    /// `tape` with new values in the quotient cell and the temporary cells.
    pub open spec fn put(
        self,
        tape: Seq<int>,
        this: int,
        v0: int,
        v1: int,
        v2: int,
        v3: int,
    ) -> Seq<int> {
        tape.update(self.this, this).update(self.t0, v0).update(self.t1, v1).update(
            self.t2,
            v2,
        ).update(self.t3, v3)
    }

    /// The body of the loop that moves `t0` into `t3` and clears the flag.
    pub open spec fn shelve_body(self) -> Seq<Op> {
        visit(self.t0, self.t2, clear()) + visit(self.t2, self.t3, Op::Inc) + visit(
            self.t3,
            self.t0,
            Op::Dec,
        )
    }

    /// The body of the loop that takes back the round's count when the
    /// dividend ran out within the round.
    pub open spec fn settle_body(self) -> Seq<Op> {
        visit(self.t1, self.this, Op::Dec) + visit(self.this, self.t1, clear())
    }

    /// The body of the loop that runs when the dividend just ran out.
    pub open spec fn flag_body(self) -> Seq<Op> {
        visit(self.t2, self.t1, Op::Dec) + loop_at(self.t1, self.t1, self.settle_body(), self.t1)
            + visit(self.t1, self.t1, Op::Inc) + visit(self.t1, self.t2, Op::Dec)
    }
}

/// The loop that moves `t0` into `t3`: if `t0` is not zero, it ends up in
/// `t3` and the flag is cleared; if it is zero, nothing happens.
pub proof fn lemma_shelve(desk: Desk, st: Machine, modulus: int, limit: nat, left: nat)
    requires
        st.ok(modulus),
        desk.fits(st.tape.len()),
        st.pointer == desk.t0,
        st.tape[desk.t0] <= left,
        modulus <= limit + 1,
    ensures
        run_loop(join(desk.shelve_body(), moves(desk.t0, desk.t0)), st, modulus, limit, left)
            == if st.tape[desk.t0] == 0 {
            st
        } else {
            st.with_tape(
                st.tape.update(desk.t2, 0).update(
                    desk.t3,
                    (st.tape[desk.t3] + st.tape[desk.t0]) % modulus,
                ).update(desk.t0, 0),
            )
        },
    decreases st.tape[desk.t0],
{
    let body = join(desk.shelve_body(), moves(desk.t0, desk.t0));
    let held = st.tape[desk.t0];
    let kept = st.tape[desk.t3];
    if held != 0 {
        let first = visit(desk.t0, desk.t2, clear());
        let second = visit(desk.t2, desk.t3, Op::Inc);
        let third = visit(desk.t3, desk.t0, Op::Dec);
        assert(moves(desk.t0, desk.t0) =~= Seq::<Op>::empty());
        assert(body == first + second + third);
        lemma_run_concat(first + second, third, st, modulus, limit);
        lemma_run_concat(first, second, st, modulus, limit);
        law_zero(desk.t0, desk.t2, st, modulus, limit);
        let one = st.at(desk.t2).store(0);
        lemma_run_visit(desk.t2, desk.t3, Op::Inc, one, modulus, limit);
        let two = one.at(desk.t3).store(succ(kept, modulus));
        assert(run(first + second, st, modulus, limit) == two);
        lemma_run_visit(desk.t3, desk.t0, Op::Dec, two, modulus, limit);
        let next = st.with_tape(
            st.tape.update(desk.t2, 0).update(desk.t3, succ(kept, modulus)).update(
                desk.t0,
                held - 1,
            ),
        );
        assert(run(body, st, modulus, limit).tape =~= next.tape);
        assert(run(body, st, modulus, limit) == next);
        lemma_small_mod(kept as nat, modulus as nat);
        lemma_succ_mod(kept, modulus);
        assert(next.fits(modulus));
        lemma_shelve(desk, next, modulus, limit, (left - 1) as nat);
        lemma_mod_add(kept, 1, held - 1, modulus);
        let end = st.with_tape(
            st.tape.update(desk.t2, 0).update(desk.t3, (kept + held) % modulus).update(desk.t0, 0),
        );
        if held - 1 == 0 {
            assert(next.tape =~= end.tape);
        } else {
            assert(next.tape.update(desk.t2, 0).update(
                desk.t3,
                (next.tape[desk.t3] + next.tape[desk.t0]) % modulus,
            ).update(desk.t0, 0) =~= end.tape);
        }
    }
}

/// The loop that takes back the round's count: if `t1` is not zero, the
/// quotient loses one and `t1` is cleared; if it is zero, nothing happens.
pub proof fn lemma_settle(desk: Desk, st: Machine, modulus: int, limit: nat)
    requires
        st.ok(modulus),
        desk.fits(st.tape.len()),
        st.pointer == desk.t1,
        modulus <= limit + 1,
    ensures
        run(loop_at(desk.t1, desk.t1, desk.settle_body(), desk.t1), st, modulus, limit)
            == if st.tape[desk.t1] == 0 {
            st
        } else {
            st.with_tape(
                st.tape.update(desk.this, pred(st.tape[desk.this], modulus)).update(desk.t1, 0),
            )
        },
{
    let body = join(desk.settle_body(), moves(desk.t1, desk.t1));
    assert(moves(desk.t1, desk.t1) =~= Seq::<Op>::empty());
    assert(body == desk.settle_body());
    lemma_run_visit(desk.t1, desk.t1, Op::Repeat(body), st, modulus, limit);
    assert(st.at(desk.t1) == st);
    if st.tape[desk.t1] != 0 {
        let first = visit(desk.t1, desk.this, Op::Dec);
        let second = visit(desk.this, desk.t1, clear());
        lemma_run_concat(first, second, st, modulus, limit);
        lemma_run_visit(desk.t1, desk.this, Op::Dec, st, modulus, limit);
        let one = st.at(desk.this).store(pred(st.tape[desk.this], modulus));
        assert(one.fits(modulus));
        law_zero(desk.this, desk.t1, one, modulus, limit);
        let next = one.at(desk.t1).store(0);
        assert(run(body, st, modulus, limit) == next);
        assert(limit >= 1);
        assert(run_loop(body, next, modulus, limit, (limit - 1) as nat) == next);
        assert(run_loop(body, st, modulus, limit, limit) == next);
        assert(next.tape =~= st.tape.update(desk.this, pred(st.tape[desk.this], modulus)).update(
            desk.t1,
            0,
        ));
    }
}

/// The loop on the flag: if the flag is up, `t1` loses one, the quotient
/// loses one unless `t1` is zero by then, `t1` becomes one and the flag
/// goes down; if the flag is down, nothing happens.
pub proof fn lemma_flag(desk: Desk, st: Machine, modulus: int, limit: nat)
    requires
        st.ok(modulus),
        desk.fits(st.tape.len()),
        st.pointer == desk.t3,
        st.tape[desk.t2] == 0 || st.tape[desk.t2] == 1,
        st.tape[desk.t1] >= 1,
        modulus <= limit + 1,
    ensures
        run(loop_at(desk.t3, desk.t2, desk.flag_body(), desk.t2), st, modulus, limit)
            == if st.tape[desk.t2] == 0 {
            st.at(desk.t2)
        } else {
            st.at(desk.t2).with_tape(
                st.tape.update(
                    desk.this,
                    if st.tape[desk.t1] == 1 {
                        st.tape[desk.this]
                    } else {
                        pred(st.tape[desk.this], modulus)
                    },
                ).update(desk.t1, 1).update(desk.t2, 0),
            )
        },
{
    let body = join(desk.flag_body(), moves(desk.t2, desk.t2));
    assert(moves(desk.t2, desk.t2) =~= Seq::<Op>::empty());
    assert(body == desk.flag_body());
    lemma_run_visit(desk.t3, desk.t2, Op::Repeat(body), st, modulus, limit);
    let start = st.at(desk.t2);
    if st.tape[desk.t2] != 0 {
        let held = st.tape[desk.t1];
        let first = visit(desk.t2, desk.t1, Op::Dec);
        let second = loop_at(desk.t1, desk.t1, desk.settle_body(), desk.t1);
        let third = visit(desk.t1, desk.t1, Op::Inc);
        let fourth = visit(desk.t1, desk.t2, Op::Dec);
        lemma_run_concat(first + second + third, fourth, start, modulus, limit);
        lemma_run_concat(first + second, third, start, modulus, limit);
        lemma_run_concat(first, second, start, modulus, limit);
        lemma_run_visit(desk.t2, desk.t1, Op::Dec, start, modulus, limit);
        let one = start.at(desk.t1).store(held - 1);
        assert(run(first, start, modulus, limit) == one);
        assert(one.fits(modulus));
        lemma_settle(desk, one, modulus, limit);
        let two = run(second, one, modulus, limit);
        assert(two.tape[desk.t1] == 0);
        assert(two.pointer == desk.t1);
        assert(two.fits(modulus)) by {
            if held - 1 != 0 {
                assert(two.tape =~= one.tape.update(
                    desk.this,
                    pred(one.tape[desk.this], modulus),
                ).update(desk.t1, 0));
            }
        }
        lemma_run_visit(desk.t1, desk.t1, Op::Inc, two, modulus, limit);
        let three = two.store(1);
        assert(two.at(desk.t1) == two);
        assert(run(third, two, modulus, limit) == three);
        lemma_run_visit(desk.t1, desk.t2, Op::Dec, three, modulus, limit);
        let next = three.at(desk.t2).store(0);
        assert(run(fourth, three, modulus, limit) == next);
        assert(run(body, start, modulus, limit) == next);
        assert(limit >= 1);
        assert(run_loop(body, next, modulus, limit, (limit - 1) as nat) == next);
        assert(run_loop(body, start, modulus, limit, limit) == next);
        assert(next.tape =~= st.tape.update(
            desk.this,
            if held == 1 {
                st.tape[desk.this]
            } else {
                pred(st.tape[desk.this], modulus)
            },
        ).update(desk.t1, 1).update(desk.t2, 0));
    }
}

/// One pass of the loop on `t1`: one unit leaves the dividend and one the
/// round. If that was the last unit of the dividend, the round is over at
/// once, and the quotient loses one unless the round was complete.
pub proof fn lemma_unit(desk: Desk, st: Machine, modulus: int, limit: nat)
    requires
        st.ok(modulus),
        desk.fits(st.tape.len()),
        st.pointer == desk.t1,
        st.tape[desk.t0] >= 1,
        st.tape[desk.t1] >= 1,
        st.tape[desk.t2] == 0,
        st.tape[desk.t3] == 0,
        modulus <= limit + 1,
    ensures
        run(div_unit(desk.this, desk.t0, desk.t1, desk.t2, desk.t3), st, modulus, limit)
            == st.with_tape(
            desk.put(
                st.tape,
                if st.tape[desk.t0] == 1 && st.tape[desk.t1] != 1 {
                    pred(st.tape[desk.this], modulus)
                } else {
                    st.tape[desk.this]
                },
                st.tape[desk.t0] - 1,
                if st.tape[desk.t0] == 1 {
                    0
                } else {
                    st.tape[desk.t1] - 1
                },
                0,
                0,
            ),
        ),
        run(div_unit(desk.this, desk.t0, desk.t1, desk.t2, desk.t3), st, modulus, limit).ok(
            modulus,
        ),
{
    let left = st.tape[desk.t0];
    let round = st.tape[desk.t1];
    let raise = visit(desk.t1, desk.t2, Op::Inc);
    let take = visit(desk.t2, desk.t0, Op::Dec);
    let shelve = loop_at(desk.t0, desk.t0, desk.shelve_body(), desk.t0);
    let unshelve = drain(desk.t0, desk.t3, seq![desk.t0], Op::Inc);
    let flagged = loop_at(desk.t3, desk.t2, desk.flag_body(), desk.t2);
    let lower = visit(desk.t2, desk.t1, Op::Dec);
    assert(div_unit(desk.this, desk.t0, desk.t1, desk.t2, desk.t3) == raise + take + shelve
        + unshelve + flagged + lower);
    lemma_run_concat(raise + take + shelve + unshelve + flagged, lower, st, modulus, limit);
    lemma_run_concat(raise + take + shelve + unshelve, flagged, st, modulus, limit);
    lemma_run_concat(raise + take + shelve, unshelve, st, modulus, limit);
    lemma_run_concat(raise + take, shelve, st, modulus, limit);
    lemma_run_concat(raise, take, st, modulus, limit);

    lemma_run_visit(desk.t1, desk.t2, Op::Inc, st, modulus, limit);
    let one = st.at(desk.t2).store(1);
    assert(run(raise, st, modulus, limit) == one);
    lemma_run_visit(desk.t2, desk.t0, Op::Dec, one, modulus, limit);
    let two = one.at(desk.t0).store(left - 1);
    assert(run(take, one, modulus, limit) == two);
    assert(two.fits(modulus));

    let shelving = join(desk.shelve_body(), moves(desk.t0, desk.t0));
    lemma_run_visit(desk.t0, desk.t0, Op::Repeat(shelving), two, modulus, limit);
    assert(two.at(desk.t0) == two);
    lemma_shelve(desk, two, modulus, limit, limit);
    let three = run(shelve, two, modulus, limit);
    lemma_small_mod((left - 1) as nat, modulus as nat);
    assert(three == two.with_tape(
        desk.put(
            st.tape,
            st.tape[desk.this],
            0,
            round,
            if left == 1 {
                1
            } else {
                0
            },
            left - 1,
        ),
    )) by {
        assert(three.tape =~= desk.put(
            st.tape,
            st.tape[desk.this],
            0,
            round,
            if left == 1 {
                1
            } else {
                0
            },
            left - 1,
        ));
    }
    assert(three.fits(modulus));

    law_drain_one(desk.t0, desk.t3, desk.t0, true, three, modulus, limit);
    let four = run(unshelve, three, modulus, limit);
    assert(four == three.at(desk.t3).with_tape(
        desk.put(
            st.tape,
            st.tape[desk.this],
            left - 1,
            round,
            if left == 1 {
                1
            } else {
                0
            },
            0,
        ),
    )) by {
        assert(four.tape =~= desk.put(
            st.tape,
            st.tape[desk.this],
            left - 1,
            round,
            if left == 1 {
                1
            } else {
                0
            },
            0,
        ));
    }
    assert(four.fits(modulus));

    lemma_flag(desk, four, modulus, limit);
    let five = run(flagged, four, modulus, limit);
    let quotient = if left == 1 && round != 1 {
        pred(st.tape[desk.this], modulus)
    } else {
        st.tape[desk.this]
    };
    assert(five == four.at(desk.t2).with_tape(
        desk.put(
            st.tape,
            quotient,
            left - 1,
            if left == 1 {
                1
            } else {
                round
            },
            0,
            0,
        ),
    )) by {
        assert(five.tape =~= desk.put(
            st.tape,
            quotient,
            left - 1,
            if left == 1 {
                1
            } else {
                round
            },
            0,
            0,
        ));
    }
    assert(five.fits(modulus));

    lemma_run_visit(desk.t2, desk.t1, Op::Dec, five, modulus, limit);
    let six = run(lower, five, modulus, limit);
    assert(six.tape =~= desk.put(
        st.tape,
        quotient,
        left - 1,
        if left == 1 {
            0
        } else {
            round - 1
        },
        0,
        0,
    ));
}

/// The loop on `t1`: units leave the dividend and the round together
/// until one of them runs out. If the dividend runs out first, the
/// quotient loses one.
pub proof fn lemma_units(desk: Desk, st: Machine, modulus: int, limit: nat, left: nat)
    requires
        st.ok(modulus),
        desk.fits(st.tape.len()),
        st.pointer == desk.t1,
        st.tape[desk.t0] >= 1,
        st.tape[desk.t2] == 0,
        st.tape[desk.t3] == 0,
        st.tape[desk.t1] <= left,
        modulus <= limit + 1,
    ensures
        run_loop(
            join(
                div_unit(desk.this, desk.t0, desk.t1, desk.t2, desk.t3),
                moves(desk.t1, desk.t1),
            ),
            st,
            modulus,
            limit,
            left,
        ) == st.with_tape(
            desk.put(
                st.tape,
                if st.tape[desk.t0] < st.tape[desk.t1] {
                    pred(st.tape[desk.this], modulus)
                } else {
                    st.tape[desk.this]
                },
                if st.tape[desk.t0] < st.tape[desk.t1] {
                    0
                } else {
                    st.tape[desk.t0] - st.tape[desk.t1]
                },
                0,
                0,
                0,
            ),
        ),
    decreases st.tape[desk.t1],
{
    let unit = div_unit(desk.this, desk.t0, desk.t1, desk.t2, desk.t3);
    let body = join(unit, moves(desk.t1, desk.t1));
    let remaining = st.tape[desk.t0];
    let round = st.tape[desk.t1];
    let end = desk.put(
        st.tape,
        if remaining < round {
            pred(st.tape[desk.this], modulus)
        } else {
            st.tape[desk.this]
        },
        if remaining < round {
            0
        } else {
            remaining - round
        },
        0,
        0,
        0,
    );
    if round == 0 {
        assert(end =~= st.tape);
    } else {
        assert(moves(desk.t1, desk.t1) =~= Seq::<Op>::empty());
        assert(unit.len() > 0);
        assert(body == unit);
        lemma_unit(desk, st, modulus, limit);
        let next = run(body, st, modulus, limit);
        if remaining == 1 {
            assert(run_loop(body, next, modulus, limit, (left - 1) as nat) == next);
            assert(next.tape =~= end);
        } else {
            lemma_units(desk, next, modulus, limit, (left - 1) as nat);
            assert(desk.put(
                next.tape,
                if next.tape[desk.t0] < next.tape[desk.t1] {
                    pred(next.tape[desk.this], modulus)
                } else {
                    next.tape[desk.this]
                },
                if next.tape[desk.t0] < next.tape[desk.t1] {
                    0
                } else {
                    next.tape[desk.t0] - next.tape[desk.t1]
                },
                0,
                0,
                0,
            ) =~= end);
        }
    }
}

/// One pass of the outer loop of a division: the divisor leaves the
/// dividend, as far as it goes, and the quotient gains one if it went all
/// the way.
pub proof fn lemma_round(desk: Desk, st: Machine, modulus: int, limit: nat)
    requires
        st.ok(modulus),
        desk.fits(st.tape.len()),
        st.pointer == desk.t0,
        st.tape[desk.t0] >= 1,
        st.tape[desk.rhs] >= 1,
        st.tape[desk.t1] == 0,
        st.tape[desk.t2] == 0,
        st.tape[desk.t3] == 0,
        modulus <= limit + 1,
    ensures
        run(
            div_round(desk.this, desk.rhs, desk.t0, desk.t1, desk.t2, desk.t3),
            st,
            modulus,
            limit,
        ) == st.at(desk.this).with_tape(
            desk.put(
                st.tape,
                if st.tape[desk.t0] < st.tape[desk.rhs] {
                    st.tape[desk.this]
                } else {
                    succ(st.tape[desk.this], modulus)
                },
                if st.tape[desk.t0] < st.tape[desk.rhs] {
                    0
                } else {
                    st.tape[desk.t0] - st.tape[desk.rhs]
                },
                0,
                0,
                0,
            ),
        ),
{
    let remaining = st.tape[desk.t0];
    let divisor = st.tape[desk.rhs];
    let quotient = st.tape[desk.this];
    let unit = div_unit(desk.this, desk.t0, desk.t1, desk.t2, desk.t3);
    let split = drain(desk.t0, desk.rhs, seq![desk.t1, desk.t2], Op::Inc);
    let restore = drain(desk.rhs, desk.t2, seq![desk.rhs], Op::Inc);
    let units = loop_at(desk.t2, desk.t1, unit, desk.t1);
    let count = visit(desk.t1, desk.this, Op::Inc);
    lemma_run_concat(split + restore + units, count, st, modulus, limit);
    lemma_run_concat(split + restore, units, st, modulus, limit);
    lemma_run_concat(split, restore, st, modulus, limit);
    lemma_small_mod(divisor as nat, modulus as nat);

    law_drain_two(desk.t0, desk.rhs, desk.t1, desk.t2, st, modulus, limit);
    let one = run(split, st, modulus, limit);
    assert(one.tape =~= st.tape.update(desk.t1, divisor).update(desk.t2, divisor).update(
        desk.rhs,
        0,
    ));
    assert(one.fits(modulus));

    law_drain_one(desk.rhs, desk.t2, desk.rhs, true, one, modulus, limit);
    let two = run(restore, one, modulus, limit);
    assert(two.tape =~= st.tape.update(desk.t1, divisor));
    assert(two.fits(modulus));

    let body = join(unit, moves(desk.t1, desk.t1));
    lemma_run_visit(desk.t2, desk.t1, Op::Repeat(body), two, modulus, limit);
    lemma_units(desk, two.at(desk.t1), modulus, limit, limit);
    let three = run(units, two, modulus, limit);
    let counted = if remaining < divisor {
        pred(quotient, modulus)
    } else {
        quotient
    };
    let rest = if remaining < divisor {
        0
    } else {
        remaining - divisor
    };
    assert(three.tape =~= desk.put(st.tape, counted, rest, 0, 0, 0));
    assert(three.fits(modulus));
    lemma_run_visit(desk.t1, desk.this, Op::Inc, three, modulus, limit);
    let four = run(count, three, modulus, limit);
    assert(four.tape =~= desk.put(
        st.tape,
        if remaining < divisor {
            quotient
        } else {
            succ(quotient, modulus)
        },
        rest,
        0,
        0,
        0,
    ));
}

/// The outer loop of a division: round after round, the quotient gains one
/// for each time the divisor goes into what is left of the dividend.
pub proof fn lemma_rounds(desk: Desk, st: Machine, modulus: int, limit: nat, left: nat)
    requires
        st.ok(modulus),
        desk.fits(st.tape.len()),
        st.pointer == desk.t0,
        st.tape[desk.rhs] >= 1,
        st.tape[desk.t1] == 0,
        st.tape[desk.t2] == 0,
        st.tape[desk.t3] == 0,
        st.tape[desk.t0] <= left,
        modulus <= limit + 1,
    ensures
        run_loop(
            join(
                div_round(desk.this, desk.rhs, desk.t0, desk.t1, desk.t2, desk.t3),
                moves(desk.this, desk.t0),
            ),
            st,
            modulus,
            limit,
            left,
        ) == st.with_tape(
            desk.put(
                st.tape,
                (st.tape[desk.this] + st.tape[desk.t0] / st.tape[desk.rhs]) % modulus,
                0,
                0,
                0,
                0,
            ),
        ),
    decreases st.tape[desk.t0],
{
    let round = div_round(desk.this, desk.rhs, desk.t0, desk.t1, desk.t2, desk.t3);
    let body = join(round, moves(desk.this, desk.t0));
    let remaining = st.tape[desk.t0];
    let divisor = st.tape[desk.rhs];
    let quotient = st.tape[desk.this];
    let end = desk.put(st.tape, (quotient + remaining / divisor) % modulus, 0, 0, 0, 0);
    lemma_small_mod(quotient as nat, modulus as nat);
    if remaining == 0 {
        assert(0int / divisor == 0) by (nonlinear_arith)
            requires
                divisor >= 1,
        ;
        assert(end =~= st.tape);
    } else {
        crate::laws::lemma_run_join(round, moves(desk.this, desk.t0), st, modulus, limit);
        lemma_round(desk, st, modulus, limit);
        let turned = run(round, st, modulus, limit);
        lemma_run_visit(desk.this, desk.t0, Op::Inc, turned, modulus, limit);
        let next = run(body, st, modulus, limit);
        assert(next == turned.at(desk.t0));
        lemma_succ_mod(quotient, modulus);
        assert(next.fits(modulus));
        lemma_rounds(desk, next, modulus, limit, (left - 1) as nat);
        if remaining < divisor {
            assert(remaining / divisor == 0) by (nonlinear_arith)
                requires
                    0 <= remaining < divisor,
            ;
            assert(0int / divisor == 0) by (nonlinear_arith)
                requires
                    divisor >= 1,
            ;
            assert(desk.put(
                next.tape,
                (next.tape[desk.this] + next.tape[desk.t0] / next.tape[desk.rhs]) % modulus,
                0,
                0,
                0,
                0,
            ) =~= end);
        } else {
            assert((remaining - divisor) / divisor + 1 == remaining / divisor)
                by (nonlinear_arith)
                requires
                    divisor >= 1,
                    remaining >= divisor,
            ;
            lemma_mod_add(quotient, 1, (remaining - divisor) / divisor, modulus);
            assert(desk.put(
                next.tape,
                (next.tape[desk.this] + next.tape[desk.t0] / next.tape[desk.rhs]) % modulus,
                0,
                0,
                0,
                0,
            ) =~= end);
        }
    }
}

/// Dividing by a cell that does not hold zero: afterwards the cell holds
/// the quotient, rounded down, the other cell holds what it held before,
/// and the four temporary cells hold zero.
pub proof fn law_div(from: int, desk: Desk, st: Machine, modulus: int, limit: nat)
    requires
        st.ok(modulus),
        desk.fits(st.tape.len()),
        st.pointer == from,
        st.tape[desk.rhs] >= 1,
        modulus <= limit + 1,
    ensures
        run(
            div_code(from, desk.this, desk.rhs, desk.t0, desk.t1, desk.t2, desk.t3),
            st,
            modulus,
            limit,
        ) == st.at(desk.t0).with_tape(
            desk.put(st.tape, st.tape[desk.this] / st.tape[desk.rhs], 0, 0, 0, 0),
        ),
{
    let dividend = st.tape[desk.this];
    let divisor = st.tape[desk.rhs];
    let round = div_round(desk.this, desk.rhs, desk.t0, desk.t1, desk.t2, desk.t3);
    let z0 = set_code(from, desk.t0, 0);
    let z1 = set_code(desk.t0, desk.t1, 0);
    let z2 = set_code(desk.t1, desk.t2, 0);
    let z3 = set_code(desk.t2, desk.t3, 0);
    let p = pour(desk.t3, desk.this, desk.t0);
    let l = loop_at(desk.this, desk.t0, round, desk.this);
    let c3 = visit(desk.t0, desk.t3, clear());
    let c2 = visit(desk.t3, desk.t2, clear());
    let c1 = visit(desk.t2, desk.t1, clear());
    let c0 = visit(desk.t1, desk.t0, clear());
    lemma_run_concat(z0 + z1 + z2 + z3 + p + l + c3 + c2 + c1, c0, st, modulus, limit);
    lemma_run_concat(z0 + z1 + z2 + z3 + p + l + c3 + c2, c1, st, modulus, limit);
    lemma_run_concat(z0 + z1 + z2 + z3 + p + l + c3, c2, st, modulus, limit);
    lemma_run_concat(z0 + z1 + z2 + z3 + p + l, c3, st, modulus, limit);
    lemma_run_concat(z0 + z1 + z2 + z3 + p, l, st, modulus, limit);
    lemma_run_concat(z0 + z1 + z2 + z3, p, st, modulus, limit);
    lemma_run_concat(z0 + z1 + z2, z3, st, modulus, limit);
    lemma_run_concat(z0 + z1, z2, st, modulus, limit);
    lemma_run_concat(z0, z1, st, modulus, limit);
    lemma_small_mod(0, modulus as nat);

    law_set(from, desk.t0, 0, st, modulus, limit);
    let s0 = st.at(desk.t0).store(0);
    law_set(desk.t0, desk.t1, 0, s0, modulus, limit);
    let s1 = s0.at(desk.t1).store(0);
    law_set(desk.t1, desk.t2, 0, s1, modulus, limit);
    let s2 = s1.at(desk.t2).store(0);
    law_set(desk.t2, desk.t3, 0, s2, modulus, limit);
    let s3 = s2.at(desk.t3).store(0);
    assert(run(z0 + z1 + z2 + z3, st, modulus, limit) == s3);
    assert(s3.tape =~= desk.put(st.tape, dividend, 0, 0, 0, 0));

    law_move_into_and_zero(desk.t3, desk.this, desk.t0, s3, modulus, limit);
    let poured = run(p, s3, modulus, limit);
    assert(poured.tape =~= desk.put(st.tape, 0, dividend, 0, 0, 0));

    let body = join(round, moves(desk.this, desk.t0));
    lemma_run_visit(desk.this, desk.t0, Op::Repeat(body), poured, modulus, limit);
    lemma_rounds(desk, poured.at(desk.t0), modulus, limit, limit);
    let looped = run(l, poured, modulus, limit);
    let quotient = dividend / divisor;
    assert(0 <= quotient <= dividend) by (nonlinear_arith)
        requires
            quotient == dividend / divisor,
            dividend >= 0,
            divisor >= 1,
    ;
    lemma_small_mod(quotient as nat, modulus as nat);
    assert(looped.tape =~= desk.put(st.tape, quotient, 0, 0, 0, 0));
    assert(looped.fits(modulus));

    law_zero(desk.t0, desk.t3, looped, modulus, limit);
    let e3 = looped.at(desk.t3).store(0);
    assert(e3.tape =~= looped.tape);
    law_zero(desk.t3, desk.t2, e3, modulus, limit);
    let e2 = e3.at(desk.t2).store(0);
    assert(e2.tape =~= looped.tape);
    law_zero(desk.t2, desk.t1, e2, modulus, limit);
    let e1 = e2.at(desk.t1).store(0);
    assert(e1.tape =~= looped.tape);
    law_zero(desk.t1, desk.t0, e1, modulus, limit);
    let e0 = e1.at(desk.t0).store(0);
    assert(e0.tape =~= looped.tape);
}

/// Dividing by a constant that is not zero modulo the modulus: afterwards
/// the cell holds the quotient, rounded down, and the cell that held the
/// constant and the four temporary cells hold zero.
pub proof fn law_div_value(
    from: int,
    desk: Desk,
    delta: int,
    st: Machine,
    modulus: int,
    limit: nat,
)
    requires
        st.ok(modulus),
        desk.fits(st.tape.len()),
        st.pointer == from,
        delta % modulus != 0,
        modulus <= limit + 1,
    ensures
        run(
            div_value_code(
                from,
                desk.this,
                delta,
                desk.rhs,
                desk.t0,
                desk.t1,
                desk.t2,
                desk.t3,
            ),
            st,
            modulus,
            limit,
        ) == st.at(desk.rhs).with_tape(
            desk.put(st.tape, st.tape[desk.this] / (delta % modulus), 0, 0, 0, 0).update(
                desk.rhs,
                0,
            ),
        ),
{
    let first = set_code(from, desk.rhs, delta);
    let second = div_code(desk.rhs, desk.this, desk.rhs, desk.t0, desk.t1, desk.t2, desk.t3);
    let third = visit(desk.t0, desk.rhs, clear());
    lemma_run_concat(first + second, third, st, modulus, limit);
    lemma_run_concat(first, second, st, modulus, limit);
    law_set(from, desk.rhs, delta, st, modulus, limit);
    lemma_mod_bound(delta, modulus);
    let one = st.at(desk.rhs).store(delta % modulus);
    law_div(desk.rhs, desk, one, modulus, limit);
    let two = run(second, one, modulus, limit);
    let quotient = st.tape[desk.this] / (delta % modulus);
    assert(0 <= quotient <= st.tape[desk.this]) by (nonlinear_arith)
        requires
            quotient == st.tape[desk.this] / (delta % modulus),
            st.tape[desk.this] >= 0,
            delta % modulus >= 1,
    ;
    assert(two.tape =~= desk.put(st.tape, quotient, 0, 0, 0, 0).update(
        desk.rhs,
        delta % modulus,
    ));
    assert(two.fits(modulus));
    law_zero(desk.t0, desk.rhs, two, modulus, limit);
    assert(two.at(desk.rhs).store(0).tape =~= desk.put(st.tape, quotient, 0, 0, 0, 0).update(
        desk.rhs,
        0,
    ));
}

/// Dividing by a cell that does not hold zero, and using it up: afterwards
/// the cell holds the quotient, rounded down, and the other cell and the
/// four temporary cells hold zero.
pub proof fn law_div_cell(from: int, desk: Desk, st: Machine, modulus: int, limit: nat)
    requires
        st.ok(modulus),
        desk.fits(st.tape.len()),
        st.pointer == from,
        st.tape[desk.rhs] >= 1,
        modulus <= limit + 1,
    ensures
        run(
            div_code(from, desk.this, desk.rhs, desk.t0, desk.t1, desk.t2, desk.t3) + visit(
                desk.t0,
                desk.rhs,
                clear(),
            ),
            st,
            modulus,
            limit,
        ) == st.at(desk.rhs).with_tape(
            desk.put(st.tape, st.tape[desk.this] / st.tape[desk.rhs], 0, 0, 0, 0).update(
                desk.rhs,
                0,
            ),
        ),
{
    let code = div_code(from, desk.this, desk.rhs, desk.t0, desk.t1, desk.t2, desk.t3);
    lemma_run_concat(code, visit(desk.t0, desk.rhs, clear()), st, modulus, limit);
    law_div(from, desk, st, modulus, limit);
    let one = run(code, st, modulus, limit);
    let quotient = st.tape[desk.this] / st.tape[desk.rhs];
    assert(0 <= quotient <= st.tape[desk.this]) by (nonlinear_arith)
        requires
            quotient == st.tape[desk.this] / st.tape[desk.rhs],
            st.tape[desk.this] >= 0,
            st.tape[desk.rhs] >= 1,
    ;
    assert(one.fits(modulus));
    law_zero(desk.t0, desk.rhs, one, modulus, limit);
}

/// One pass of the outer loop when the divisor is zero: the quotient
/// gains one and nothing leaves the dividend.
pub proof fn lemma_round_zero(desk: Desk, st: Machine, modulus: int, limit: nat)
    requires
        st.ok(modulus),
        desk.fits(st.tape.len()),
        st.pointer == desk.t0,
        st.tape[desk.t0] >= 1,
        st.tape[desk.rhs] == 0,
        st.tape[desk.t1] == 0,
        st.tape[desk.t2] == 0,
        st.tape[desk.t3] == 0,
        modulus <= limit + 1,
    ensures
        run(
            div_round(desk.this, desk.rhs, desk.t0, desk.t1, desk.t2, desk.t3),
            st,
            modulus,
            limit,
        ) == st.at(desk.this).store(succ(st.tape[desk.this], modulus)),
{
    let unit = div_unit(desk.this, desk.t0, desk.t1, desk.t2, desk.t3);
    let split = drain(desk.t0, desk.rhs, seq![desk.t1, desk.t2], Op::Inc);
    let restore = drain(desk.rhs, desk.t2, seq![desk.rhs], Op::Inc);
    let units = loop_at(desk.t2, desk.t1, unit, desk.t1);
    let count = visit(desk.t1, desk.this, Op::Inc);
    lemma_run_concat(split + restore + units, count, st, modulus, limit);
    lemma_run_concat(split + restore, units, st, modulus, limit);
    lemma_run_concat(split, restore, st, modulus, limit);
    lemma_small_mod(0, modulus as nat);
    law_drain_two(desk.t0, desk.rhs, desk.t1, desk.t2, st, modulus, limit);
    let one = run(split, st, modulus, limit);
    assert(one.tape =~= st.tape);
    law_drain_one(desk.rhs, desk.t2, desk.rhs, true, one, modulus, limit);
    let two = run(restore, one, modulus, limit);
    assert(two.tape =~= st.tape);
    let body = join(unit, moves(desk.t1, desk.t1));
    lemma_run_visit(desk.t2, desk.t1, Op::Repeat(body), two, modulus, limit);
    lemma_units(desk, two.at(desk.t1), modulus, limit, limit);
    let three = run(units, two, modulus, limit);
    assert(three.tape =~= st.tape);
    lemma_run_visit(desk.t1, desk.this, Op::Inc, three, modulus, limit);
}

/// The outer loop when the divisor is zero and the dividend is not: no
/// pass brings the dividend closer to zero, so the loop runs into the
/// limit, whatever the limit is.
pub proof fn lemma_rounds_zero(desk: Desk, st: Machine, modulus: int, limit: nat, left: nat)
    requires
        st.ok(modulus),
        desk.fits(st.tape.len()),
        st.pointer == desk.t0,
        st.tape[desk.t0] >= 1,
        st.tape[desk.rhs] == 0,
        st.tape[desk.t1] == 0,
        st.tape[desk.t2] == 0,
        st.tape[desk.t3] == 0,
        modulus <= limit + 1,
    ensures
        run_loop(
            join(
                div_round(desk.this, desk.rhs, desk.t0, desk.t1, desk.t2, desk.t3),
                moves(desk.this, desk.t0),
            ),
            st,
            modulus,
            limit,
            left,
        ).status == Status::LimitReached,
    decreases left,
{
    let round = div_round(desk.this, desk.rhs, desk.t0, desk.t1, desk.t2, desk.t3);
    if left > 0 {
        crate::laws::lemma_run_join(round, moves(desk.this, desk.t0), st, modulus, limit);
        lemma_round_zero(desk, st, modulus, limit);
        let turned = run(round, st, modulus, limit);
        lemma_run_visit(desk.this, desk.t0, Op::Inc, turned, modulus, limit);
        lemma_succ_mod(st.tape[desk.this], modulus);
        lemma_small_mod(st.tape[desk.this] as nat, modulus as nat);
        let next = turned.at(desk.t0);
        assert(next.fits(modulus));
        lemma_rounds_zero(desk, next, modulus, limit, (left - 1) as nat);
    }
}

/// Dividing by a cell that holds zero: on a dividend that is not zero the
/// code never ends by itself; the run stops at the limit, whatever the
/// limit is.
pub proof fn law_div_by_zero(from: int, desk: Desk, st: Machine, modulus: int, limit: nat)
    requires
        st.ok(modulus),
        desk.fits(st.tape.len()),
        st.pointer == from,
        st.tape[desk.this] >= 1,
        st.tape[desk.rhs] == 0,
        modulus <= limit + 1,
    ensures
        run(
            div_code(from, desk.this, desk.rhs, desk.t0, desk.t1, desk.t2, desk.t3),
            st,
            modulus,
            limit,
        ).status == Status::LimitReached,
{
    let dividend = st.tape[desk.this];
    let round = div_round(desk.this, desk.rhs, desk.t0, desk.t1, desk.t2, desk.t3);
    let z0 = set_code(from, desk.t0, 0);
    let z1 = set_code(desk.t0, desk.t1, 0);
    let z2 = set_code(desk.t1, desk.t2, 0);
    let z3 = set_code(desk.t2, desk.t3, 0);
    let p = pour(desk.t3, desk.this, desk.t0);
    let l = loop_at(desk.this, desk.t0, round, desk.this);
    let c3 = visit(desk.t0, desk.t3, clear());
    let c2 = visit(desk.t3, desk.t2, clear());
    let c1 = visit(desk.t2, desk.t1, clear());
    let c0 = visit(desk.t1, desk.t0, clear());
    lemma_run_concat(z0 + z1 + z2 + z3 + p + l + c3 + c2 + c1, c0, st, modulus, limit);
    lemma_run_concat(z0 + z1 + z2 + z3 + p + l + c3 + c2, c1, st, modulus, limit);
    lemma_run_concat(z0 + z1 + z2 + z3 + p + l + c3, c2, st, modulus, limit);
    lemma_run_concat(z0 + z1 + z2 + z3 + p + l, c3, st, modulus, limit);
    lemma_run_concat(z0 + z1 + z2 + z3 + p, l, st, modulus, limit);
    lemma_run_concat(z0 + z1 + z2 + z3, p, st, modulus, limit);
    lemma_run_concat(z0 + z1 + z2, z3, st, modulus, limit);
    lemma_run_concat(z0 + z1, z2, st, modulus, limit);
    lemma_run_concat(z0, z1, st, modulus, limit);
    lemma_small_mod(0, modulus as nat);

    law_set(from, desk.t0, 0, st, modulus, limit);
    let s0 = st.at(desk.t0).store(0);
    law_set(desk.t0, desk.t1, 0, s0, modulus, limit);
    let s1 = s0.at(desk.t1).store(0);
    law_set(desk.t1, desk.t2, 0, s1, modulus, limit);
    let s2 = s1.at(desk.t2).store(0);
    law_set(desk.t2, desk.t3, 0, s2, modulus, limit);
    let s3 = s2.at(desk.t3).store(0);
    assert(run(z0 + z1 + z2 + z3, st, modulus, limit) == s3);
    assert(s3.tape =~= desk.put(st.tape, dividend, 0, 0, 0, 0));

    law_move_into_and_zero(desk.t3, desk.this, desk.t0, s3, modulus, limit);
    let poured = run(p, s3, modulus, limit);
    assert(poured.tape =~= desk.put(st.tape, 0, dividend, 0, 0, 0));

    let body = join(round, moves(desk.this, desk.t0));
    lemma_run_visit(desk.this, desk.t0, Op::Repeat(body), poured, modulus, limit);
    lemma_rounds_zero(desk, poured.at(desk.t0), modulus, limit, limit);
    let looped = run(l, poured, modulus, limit);
    lemma_stopped(c3, looped, modulus, limit);
    lemma_stopped(c2, looped, modulus, limit);
    lemma_stopped(c1, looped, modulus, limit);
    lemma_stopped(c0, looped, modulus, limit);
}

} // verus!
