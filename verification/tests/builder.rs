use tape_builder::builder::allocator::{Builder, Cell};
use tape_builder::machine::Status;
use tape_builder::runner::Runner;

type B = Builder<64, u8>;

fn run(b: &B, input: &[u8]) -> Runner<64, Vec<u8>, u8> {
    let r = b.run(input, Vec::new()).unwrap();
    assert_eq!(r.status(), Status::Running);
    r
}

fn value_of(b: &mut B, cell: &Cell<64, u8>) -> u8 {
    cell.write(b);
    let r = run(b, &[]);
    *r.output().last().unwrap()
}

#[test]
fn a_new_builder_is_empty() {
    let b = B::new();
    assert_eq!(b.source(), "");
    assert_eq!(b.pointer(), 0);
    assert_eq!(b.lowest_unallocated(), 0);
    assert!(!b.is_allocated(0));
    assert!(!b.is_allocated(64));
}

#[test]
fn set_then_write_yields_the_value() {
    for v in [0u8, 1, 2, 42, 127, 128, 254, 255] {
        let mut b = B::new();
        let cell = b.cell_uninit();
        cell.set(&mut b, v);
        cell.write(&mut b);
        let r = run(&b, &[]);
        assert_eq!(r.output(), &vec![v]);
    }
}

#[test]
fn set_overwrites_what_the_cell_held() {
    let mut b = B::new();
    let cell = b.cell(200);
    cell.set(&mut b, 3);
    assert_eq!(b.source(), format!("[-]{}[-]+++", "+".repeat(200)));
    assert_eq!(value_of(&mut b, &cell), 3);
}

#[test]
fn set_of_a_signed_value_counts_down_for_negatives() {
    let mut b = Builder::<8, i8>::new();
    let cell = b.cell(-3);
    assert_eq!(b.source(), "[-]---");
    cell.write(&mut b);
    let other = b.cell(5);
    other.write(&mut b);
    assert_eq!(b.source(), "[-]---.>[-]+++++.");
    let r = b.run(&[], Vec::new()).unwrap();
    assert_eq!(r.output(), &vec![-3i8, 5]);
}

#[test]
fn primitive_operations_write_their_characters() {
    let mut b = B::new();
    let first = b.cell_uninit();
    let second = b.cell_uninit();
    let third = b.cell_uninit();
    assert_eq!(first.location(), 0);
    assert_eq!(second.location(), 1);
    assert_eq!(third.location(), 2);
    third.inc(&mut b);
    assert_eq!(b.source(), ">>+");
    assert_eq!(b.pointer(), 2);
    first.dec(&mut b);
    assert_eq!(b.source(), ">>+<<-");
    second.read(&mut b);
    second.write(&mut b);
    assert_eq!(b.source(), ">>+<<->,.");
    second.goto(&mut b);
    assert_eq!(b.source(), ">>+<<->,.");
    third.zero(&mut b);
    assert_eq!(b.source(), ">>+<<->,.>[-]");
    first.goto(&mut b);
    assert_eq!(b.source(), ">>+<<->,.>[-]<<");
    assert_eq!(b.pointer(), 0);
}

#[test]
fn adding_and_subtracting_constants() {
    let mut b = B::new();
    let cell = b.cell(10);
    cell.add_assign(&mut b, 5);
    cell.sub_assign(&mut b, 3);
    assert_eq!(b.source(), "[-]+++++++++++++++---");
    assert_eq!(value_of(&mut b, &cell), 12);

    let mut b = Builder::<8, i8>::new();
    let cell = b.cell(0);
    cell.add_assign(&mut b, -2);
    cell.sub_assign(&mut b, -4);
    assert_eq!(b.source(), "[-]--++++");
}

#[test]
fn while_nonzero_wraps_the_body_in_a_loop_on_the_cell() {
    let mut b = B::new();
    let counter = b.cell(3);
    let total = b.cell(0);
    counter.while_nonzero(&mut b, |b: &mut B| {
        total.inc(b);
        total.inc(b);
        counter.dec(b);
    });
    assert_eq!(b.source(), "[-]+++>[-]<[>++<-]");
    assert_eq!(value_of(&mut b, &total), 6);
}

#[test]
fn while_nonzero_mut_hands_the_cell_to_the_body() {
    let mut b = B::new();
    let counter = b.cell(4);
    let total = b.cell(1);
    counter.while_nonzero_mut(&mut b, |this: &Cell<64, u8>, b: &mut B| {
        this.dec(b);
        total.inc(b);
    });
    assert_eq!(b.source(), "[-]++++>[-]+<[->+<]");
    assert_eq!(value_of(&mut b, &total), 5);
    assert_eq!(value_of(&mut b, &counter), 0);
}

#[test]
fn move_and_zero_moves_the_value_into_a_new_cell() {
    for v in [0u8, 1, 255] {
        let mut b = B::new();
        let source = b.cell(v);
        let moved = source.move_and_zero(&mut b);
        assert_eq!(moved.location(), 1);
        source.write(&mut b);
        moved.write(&mut b);
        let r = run(&b, &[]);
        assert_eq!(r.output(), &vec![0, v]);
    }
}

#[test]
fn move_and_zero_writes_the_draining_loop() {
    let mut b = B::new();
    let source = b.cell(2);
    let _moved = source.move_and_zero(&mut b);
    assert_eq!(b.source(), "[-]++>[-]<[->+<]");
}

#[test]
fn move_into_and_zero_replaces_the_target() {
    for v in [0u8, 1, 255] {
        let mut b = B::new();
        let source = b.cell(v);
        let target = b.cell(77);
        source.move_into_and_zero(&mut b, &target);
        source.write(&mut b);
        target.write(&mut b);
        let r = run(&b, &[]);
        assert_eq!(r.output(), &vec![0, v]);
    }
}

#[test]
fn move_into_hands_the_value_over_and_frees_the_source() {
    for v in [0u8, 1, 255] {
        let mut b = B::new();
        let target = b.cell(9);
        let source = b.cell(v);
        assert_eq!(source.location(), 1);
        source.move_into(&mut b, &target);
        assert!(!b.is_allocated(1));
        assert_eq!(b.lowest_unallocated(), 1);
        target.write(&mut b);
        let r = run(&b, &[]);
        assert_eq!(r.output(), &vec![v]);
        assert_eq!(r.memory()[1], 0);
    }
}

#[test]
fn copy_keeps_the_source_for_every_byte() {
    for v in 0..=255u8 {
        let mut b = B::new();
        let source = b.cell(v);
        let copies = source.copy(&mut b, 1);
        assert_eq!(copies.len(), 1);
        source.write(&mut b);
        copies[0].write(&mut b);
        let r = run(&b, &[]);
        assert_eq!(r.output(), &vec![v, v]);
    }
}

#[test]
fn copy_makes_as_many_cells_as_asked() {
    let mut b = B::new();
    let source = b.cell(7);
    let copies = source.copy(&mut b, 3);
    assert_eq!(copies.len(), 3);
    assert_eq!(copies[0].location(), 1);
    assert_eq!(copies[1].location(), 2);
    assert_eq!(copies[2].location(), 3);
    assert_eq!(b.lowest_unallocated(), 4);
    source.write(&mut b);
    for cell in &copies {
        cell.write(&mut b);
    }
    let r = run(&b, &[]);
    assert_eq!(r.output(), &vec![7u8, 7, 7, 7]);
    assert_eq!(r.memory()[4], 0);
}

#[test]
fn copy_writes_the_loop_and_the_restoring_loop() {
    let mut b = B::new();
    let source = b.cell(1);
    let _copies = source.copy(&mut b, 1);
    assert_eq!(b.source(), "[-]+>[-]>[-]<<[->+>+<<]>>[-<<+>>][-]");
}

#[test]
fn into_copies_uses_the_source_up() {
    let mut b = B::new();
    let source = b.cell(5);
    let copies = source.into_copies(&mut b, 2);
    assert_eq!(b.source(), "[-]+++++>[-]>[-]<<[->+>+<<][-]");
    assert!(!b.is_allocated(0));
    assert_eq!(b.lowest_unallocated(), 0);
    copies[0].write(&mut b);
    copies[1].write(&mut b);
    let r = run(&b, &[]);
    assert_eq!(r.output(), &vec![5u8, 5]);
    assert_eq!(r.memory()[0], 0);
}

#[test]
fn clone_gives_a_new_cell_with_the_same_value() {
    let mut b = B::new();
    let source = b.cell(33);
    let copy = source.clone(&mut b);
    assert_eq!(copy.location(), 1);
    source.inc(&mut b);
    source.write(&mut b);
    copy.write(&mut b);
    let r = run(&b, &[]);
    assert_eq!(r.output(), &vec![34u8, 33]);
}

#[test]
fn clone_from_replaces_the_value() {
    let mut b = B::new();
    let target = b.cell(99);
    let source = b.cell(12);
    target.clone_from(&mut b, &source);
    target.write(&mut b);
    source.write(&mut b);
    let r = run(&b, &[]);
    assert_eq!(r.output(), &vec![12u8, 12]);
    assert_eq!(r.memory()[2], 0);
}

#[test]
fn swap_exchanges_the_values() {
    for (x, y) in [(3u8, 9u8), (5, 5), (0, 7), (7, 0), (0, 0), (255, 1)] {
        let mut b = B::new();
        let first = b.cell(x);
        let second = b.cell(y);
        first.swap(&mut b, &second);
        first.write(&mut b);
        second.write(&mut b);
        let r = run(&b, &[]);
        assert_eq!(r.output(), &vec![y, x]);
        assert_eq!(r.memory()[2], 0);
        assert!(!b.is_allocated(2));
    }
}

#[test]
fn add_into_all_and_zero_spreads_the_value() {
    let mut b = B::new();
    let source = b.cell(4);
    let first = b.cell(1);
    let second = b.cell(250);
    source.add_into_all_and_zero(&mut b, &[&first, &second]);
    assert_eq!(b.source(), format!("[-]++++>[-]+>[-]{}<<[->+>+<<]", "+".repeat(250)));
    source.write(&mut b);
    first.write(&mut b);
    second.write(&mut b);
    let r = run(&b, &[]);
    assert_eq!(r.output(), &vec![0u8, 5, 254]);
}

#[test]
fn drop_clears_the_cell_and_frees_its_address() {
    let mut b = B::new();
    let cell = b.cell(2);
    cell.drop(&mut b);
    assert_eq!(b.source(), "[-]++[-]");
    assert!(!b.is_allocated(0));
    assert_eq!(b.lowest_unallocated(), 0);
}

#[test]
fn a_freed_address_is_used_again() {
    let mut b = B::new();
    let keep = b.cell(1);
    let gone = b.cell(2);
    assert_eq!(gone.location(), 1);
    gone.drop(&mut b);
    assert_eq!(b.lowest_unallocated(), 1);
    let again = b.cell(3);
    assert_eq!(again.location(), 1);
    assert_eq!(b.source(), "[-]+>[-]++[-][-]+++");
    assert_eq!(keep.location(), 0);
}

#[test]
fn the_lowest_free_address_goes_first() {
    let mut b = B::new();
    let first = b.cell_uninit();
    let second = b.cell_uninit();
    let third = b.cell_uninit();
    assert_eq!(b.lowest_unallocated(), 3);
    second.drop(&mut b);
    assert_eq!(b.lowest_unallocated(), 1);
    first.drop(&mut b);
    assert_eq!(b.lowest_unallocated(), 0);
    let a = b.cell_uninit();
    let c = b.cell_uninit();
    let d = b.cell_uninit();
    assert_eq!((a.location(), c.location(), d.location()), (0, 1, 3));
    assert_eq!(third.location(), 2);
}

#[test]
fn the_last_address_can_be_allocated() {
    let mut b = Builder::<2, u8>::new();
    let _first = b.cell_uninit();
    let second = b.cell_uninit();
    assert_eq!(second.location(), 1);
    assert_eq!(b.lowest_unallocated(), 2);
    second.drop(&mut b);
    assert_eq!(b.lowest_unallocated(), 1);
}

#[test]
fn array_uninit_finds_the_lowest_run() {
    let mut b = B::new();
    let a = b.cell_uninit();
    let gap = b.cell_uninit();
    let c = b.cell_uninit();
    gap.drop(&mut b);
    let run = b.array_uninit(2);
    assert_eq!(run.len(), 2);
    assert_eq!(run[0].location(), 3);
    assert_eq!(run[1].location(), 4);
    assert_eq!(b.lowest_unallocated(), 1);
    let single = b.array_uninit(1);
    assert_eq!(single[0].location(), 1);
    assert_eq!(b.lowest_unallocated(), 5);
    assert_eq!((a.location(), c.location()), (0, 2));
}

#[test]
fn array_sets_consecutive_cells() {
    let mut b = B::new();
    let _first = b.cell(1);
    let cells = b.array(&[3, 0, 2]);
    assert_eq!(cells.len(), 3);
    assert_eq!(cells[0].location(), 1);
    assert_eq!(cells[2].location(), 3);
    assert_eq!(b.source(), "[-]+>[-]+++>[-]>[-]++");
    assert_eq!(b.pointer(), 3);
    let r = run(&b, &[]);
    assert_eq!(&r.memory()[0..4], &[1u8, 3, 0, 2]);
}

#[test]
fn read_makes_a_cell_that_holds_the_next_input() {
    let mut b = B::new();
    let first = b.read();
    let second = b.read();
    assert_eq!(b.source(), "[-],>[-],");
    second.write(&mut b);
    first.write(&mut b);
    let r = run(&b, &[8]);
    assert_eq!(r.output(), &vec![0u8, 8]);
}

#[test]
fn compile_reports_unbalanced_text() {
    let mut b = B::new();
    let cell = b.cell(1);
    cell.while_nonzero(&mut b, |b: &mut B| {
        let _ = b;
    });
    assert!(b.compile().is_ok());
    assert_eq!(b.source(), "[-]+[]");
}

#[test]
fn strings_are_written_byte_by_byte() {
    let mut b = B::new();
    b.write("Hi!");
    let r = run(&b, &[]);
    assert_eq!(r.output(), &vec![b'H', b'i', b'!']);
    assert_eq!(b.lowest_unallocated(), 0);
    assert_eq!(r.memory()[0], 0);
}

#[test]
fn a_string_moves_one_cell_up_and_down() {
    let mut b = B::new();
    let text = b.str("cab");
    text.write(&mut b);
    let expected = format!("[-]{}.--.+.[-]", "+".repeat(99));
    assert_eq!(b.source(), expected);
}

#[test]
fn a_string_with_a_repeated_byte_writes_twice() {
    let mut b = B::new();
    b.write("\u{1}\u{1}");
    assert_eq!(b.source(), "[-]+..[-]");
    let mut b = B::new();
    b.write("");
    assert_eq!(b.source(), "[-][-]");
}

#[test]
fn has_room_counts_the_free_addresses() {
    let mut b = Builder::<4, u8>::new();
    assert!(b.has_room(0));
    assert!(b.has_room(4));
    assert!(!b.has_room(5));
    let first = b.cell_uninit();
    let _second = b.cell_uninit();
    assert!(b.has_room(2));
    assert!(!b.has_room(3));
    first.drop(&mut b);
    assert!(b.has_room(3));
    assert!(!b.has_room(4));
}

#[test]
fn has_run_looks_for_consecutive_free_addresses() {
    let mut b = Builder::<5, u8>::new();
    assert!(b.has_run(5));
    assert!(!b.has_run(6));
    let _a = b.cell_uninit();
    let gap = b.cell_uninit();
    let _c = b.cell_uninit();
    gap.drop(&mut b);
    assert!(b.has_run(1));
    assert!(b.has_run(2));
    assert!(!b.has_run(3));
    let pair = b.array_uninit(2);
    assert_eq!(pair[0].location(), 3);
    assert!(b.has_run(1));
    assert!(!b.has_run(2));
}

#[test]
fn the_pointer_starts_where_the_builder_left_it() {
    let mut b = B::new();
    let first = b.cell(1);
    let second = b.cell(2);
    first.write(&mut b);
    assert_eq!(b.source(), "[-]+>[-]++<.");
    second.write(&mut b);
    assert_eq!(b.source(), "[-]+>[-]++<.>.");
    let r = run(&b, &[]);
    assert_eq!(r.output(), &vec![1u8, 2]);
    assert_eq!(r.pointer(), 1);
}

#[test]
fn read_or_keeps_the_default_when_input_is_exhausted() {
    let mut b = B::new();
    let first = b.read_or(7);
    let second = b.read_or(9);
    assert_eq!(b.source(), "[-]+++++++,>[-]+++++++++,");
    first.write(&mut b);
    second.write(&mut b);
    let r = run(&b, &[3]);
    assert_eq!(r.output(), &vec![3u8, 9]);
}

#[test]
fn with_cell_frees_the_cell_afterwards() {
    let mut b = B::new();
    let total = b.cell(1);
    b.with_cell(4, |cell: &Cell<64, u8>, b: &mut B| {
        assert_eq!(cell.location(), 1);
        total.add_assign_ref(b, cell);
    });
    assert!(!b.is_allocated(1));
    assert_eq!(b.lowest_unallocated(), 1);
    assert_eq!(b.source(), "[-]+>[-]++++>[-]<[>+<-]>[<+<+>>-][-]<[-]");
    assert_eq!(value_of(&mut b, &total), 5);
}

#[test]
fn the_allocation_map_shows_what_is_before_the_highest_allocated_address() {
    let mut b = B::new();
    assert_eq!(b.allocation_map(), "0\u{332}000...");
    let cells = b.array_uninit(7);
    assert_eq!(b.allocation_map(), "1\u{332}11111...");
    cells[5].inc(&mut b);
    assert_eq!(b.allocation_map(), "111111\u{332}...");
    let mut cells = cells;
    let last = cells.pop().unwrap();
    last.drop(&mut b);
    let first = cells.remove(0);
    first.drop(&mut b);
    assert_eq!(b.allocation_map(), "0\u{332}1111...");
    let small = Builder::<2, u8>::new();
    assert_eq!(small.allocation_map(), "0\u{332}0...");
}
