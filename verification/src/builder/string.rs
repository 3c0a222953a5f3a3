//! Defines a string which can be written out by a program.

use crate::builder::allocator::{lemma_first_free, Builder};
use crate::builder::code::{clear, join, moves, set_code, shift, spell_code, string_code, visit};
use crate::builder::trace::{lemma_regroup, lemma_start, Trace};
use crate::builder::types::CellValue;
use crate::program::{render, Op};
use std::marker::PhantomData;
use vstd::prelude::*;
use vstd::string::StringSliceAdditionalSpecFns;

verus! {

/// A string that a program can write out. The string is not stored in the
/// memory of the program: the program brings one cell to each byte in turn.
#[must_use]
pub struct CellString<'b, const N: usize, T: CellValue> {
    source: &'b str,
    _phantom: PhantomData<T>,
}

impl<'b, const N: usize, T: CellValue> CellString<'b, N, T> {
    /// The bytes of the string.
    pub closed spec fn bytes(&self) -> Seq<u8> {
        self.source.spec_bytes()
    }

    /// Creates a string with a specific value.
    pub fn new(source: &'b str) -> (s: Self)
        ensures
            s.bytes() == source.spec_bytes(),
    {
        CellString { source, _phantom: PhantomData }
    }

    /// Writes the entire contents of this string, using only one cell in
    /// the process.
    pub fn write(&self, b: &mut Builder<N, T>)
        requires
            old(b).wf(),
            old(b).lowest_free() < N,
        ensures
            final(b).wf(),
            final(b).text() == old(b).text() + render(
                string_code(old(b).cursor(), old(b).lowest_free(), self.bytes()),
            ),
            final(b).allocations() == old(b).allocations(),
            final(b).cursor() == old(b).lowest_free(),
    {
        let ghost tr = Trace::start(b.text());
        let ghost from = b.cursor();
        let ghost at = b.lowest_free();
        let ghost all = self.bytes();
        proof {
            b.tape_len();
            lemma_first_free(b.allocations(), 0);
            lemma_start(b.text(), string_code(from, at, all));
        }
        let (cell, Ghost(begun)) = b.cell_in(0, Ghost(tr));
        let ghost mut cur = begun;
        let mut cell_value: u8 = 0;
        let bytes = self.source.as_bytes();
        let mut i: usize = 0;
        proof {
            assert(all.take(0) == Seq::<u8>::empty());
            assert(join(begun.code, Seq::<Op>::empty()) =~= begun.code);
        }
        while i < bytes.len()
            invariant
                i <= bytes@.len(),
                bytes@ == all,
                at == cell.addr(),
                b.ready(&cell, cur),
                b.cursor() == at,
                b.allocations() == old(b).allocations().update(at, true),
                cell_value == if i == 0 {
                    0
                } else {
                    all[i - 1]
                },
                cur == begun.emit(spell_code(0, all.take(i as int))),
            decreases bytes@.len() - i,
        {
            let byte = bytes[i];
            let ghost so_far = spell_code(0, all.take(i as int));
            let ghost change = shift(byte - cell_value);
            let ghost piece = change.push(Op::Write);
            proof {
                assert(all.take(i + 1).drop_last() == all.take(i as int));
                assert(all.take(i + 1).last() == byte);
                if i > 0 {
                    assert(all.take(i + 1)[i - 1] == all[i - 1]);
                    assert(so_far.len() > 0);
                }
                assert(piece.len() > 0);
                assert(spell_code(0, all.take(i + 1)) == join(so_far, piece));
                lemma_regroup(begun, so_far, piece);
                assert(moves(at, at) =~= Seq::<Op>::empty());
                assert(moves(at, at) + change =~= change);
                assert(visit(at, at, Op::Write) =~= seq![Op::Write]);
                assert(join(change, seq![Op::Write]) =~= piece);
                lemma_regroup(cur, change, seq![Op::Write]);
            }
            let ghost before = cur;
            if byte < cell_value {
                let Ghost(next) = cell.shift_in(b, (cell_value - byte) as isize, false, Ghost(cur));
                proof {
                    cur = next;
                }
            } else if byte > cell_value {
                let Ghost(next) = cell.shift_in(b, (byte - cell_value) as isize, true, Ghost(cur));
                proof {
                    cur = next;
                }
            } else {
                proof {
                    assert(change =~= Seq::<Op>::empty());
                    assert(join(cur.code, change) =~= cur.code);
                }
            }
            proof {
                assert(cur == before.emit(change));
            }
            let Ghost(next) = cell.write_in(b, Ghost(cur));
            proof {
                cur = next;
            }
            cell_value = byte;
            i += 1;
        }
        proof {
            assert(all.take(bytes@.len() as int) == all);
            lemma_regroup(tr, set_code(from, at, 0), spell_code(0, all));
            assert(set_code(from, at, 0).len() > 0);
            assert(visit(at, at, clear()).len() > 0);
        }
        let _ = cell.drop_in(b, Ghost(cur));
        proof {
            assert(b.allocations() =~= old(b).allocations());
        }
    }
}

} // verus!
