use tape_builder::builder::allocator::Builder;
use tape_builder::machine::Status;
use tape_builder::program::Program;
use tape_builder::runner::Runner;

type B = Builder<64, u8>;

fn output_of(b: &B, input: &[u8]) -> Vec<u8> {
    let r = b.run(input, Vec::new()).unwrap();
    assert_eq!(r.status(), Status::Running);
    r.into_output()
}

#[test]
fn addition_wraps_like_the_machine_type() {
    for (x, y) in [(200u8, 100u8), (0, 0), (1, 255), (255, 255), (17, 4)] {
        let mut b = B::new();
        let a = b.cell(x);
        let c = b.cell(y);
        a.add_assign_ref(&mut b, &c);
        a.write(&mut b);
        c.write(&mut b);
        assert_eq!(output_of(&b, &[]), vec![x.wrapping_add(y), y]);
    }
}

#[test]
fn two_hundred_plus_one_hundred_is_forty_four() {
    let mut b = B::new();
    let a = b.cell(200);
    let c = b.cell(100);
    a.add_assign_ref(&mut b, &c);
    a.write(&mut b);
    assert_eq!(output_of(&b, &[]), vec![44]);
}

#[test]
fn add_assign_ref_writes_both_loops() {
    let mut b = B::new();
    let a = b.cell(1);
    let c = b.cell(2);
    a.add_assign_ref(&mut b, &c);
    assert_eq!(b.source(), "[-]+>[-]++>[-]<[>+<-]>[<+<+>>-][-]");
    assert_eq!(b.lowest_unallocated(), 2);
}

#[test]
fn subtraction_wraps_like_the_machine_type() {
    for (x, y) in [(5u8, 3u8), (3, 5), (0, 1), (255, 255)] {
        let mut b = B::new();
        let a = b.cell(x);
        let c = b.cell(y);
        a.sub_assign_ref(&mut b, &c);
        a.write(&mut b);
        c.write(&mut b);
        assert_eq!(output_of(&b, &[]), vec![x.wrapping_sub(y), y]);
    }
}

#[test]
fn adding_a_cell_by_value_uses_it_up() {
    let mut b = B::new();
    let a = b.cell(20);
    let c = b.cell(22);
    a.add_assign_cell(&mut b, c);
    assert_eq!(b.source(), format!("[-]{}>[-]{}[-<+>][-]", "+".repeat(20), "+".repeat(22)));
    assert!(!b.is_allocated(1));
    a.write(&mut b);
    assert_eq!(output_of(&b, &[]), vec![42]);
}

#[test]
fn subtracting_a_cell_by_value_uses_it_up() {
    let mut b = B::new();
    let a = b.cell(20);
    let c = b.cell(22);
    a.sub_assign_cell(&mut b, c);
    a.write(&mut b);
    assert_eq!(output_of(&b, &[]), vec![254]);
}

#[test]
fn six_times_seven_is_forty_two() {
    let mut b = B::new();
    let a = b.cell(6);
    let c = b.cell(7);
    a.mul_assign_ref(&mut b, &c);
    a.write(&mut b);
    c.write(&mut b);
    assert_eq!(output_of(&b, &[]), vec![42, 7]);
    assert_eq!(b.lowest_unallocated(), 2);
}

#[test]
fn zero_absorbs_in_multiplication() {
    for (x, y) in [(0u8, 9u8), (9, 0), (0, 0)] {
        let mut b = B::new();
        let a = b.cell(x);
        let c = b.cell(y);
        a.mul_assign_ref(&mut b, &c);
        a.write(&mut b);
        assert_eq!(output_of(&b, &[]), vec![0]);
    }
}

#[test]
fn multiplication_wraps() {
    let mut b = B::new();
    let a = b.cell(20);
    let c = b.cell(13);
    a.mul_assign_ref(&mut b, &c);
    a.write(&mut b);
    assert_eq!(output_of(&b, &[]), vec![20u8.wrapping_mul(13)]);
}

#[test]
fn multiplying_by_a_constant() {
    let mut b = B::new();
    let a = b.cell(5);
    a.mul_assign(&mut b, 3);
    a.write(&mut b);
    assert_eq!(output_of(&b, &[]), vec![15]);
    assert_eq!(b.lowest_unallocated(), 1);
}

#[test]
fn multiplying_by_a_cell_by_value_uses_it_up() {
    let mut b = B::new();
    let a = b.cell(5);
    let c = b.cell(4);
    a.mul_assign_cell(&mut b, c);
    assert!(!b.is_allocated(1));
    a.write(&mut b);
    assert_eq!(output_of(&b, &[]), vec![20]);
}

#[test]
fn seventeen_divided_by_five_is_three() {
    let mut b = B::new();
    let a = b.cell(17);
    let d = b.cell(5);
    a.div_assign_ref(&mut b, &d);
    a.write(&mut b);
    d.write(&mut b);
    assert_eq!(output_of(&b, &[]), vec![3, 5]);
    assert_eq!(b.lowest_unallocated(), 2);
}

#[test]
fn zero_divided_by_five_is_zero() {
    let mut b = B::new();
    let a = b.cell(0);
    let d = b.cell(5);
    a.div_assign_ref(&mut b, &d);
    a.write(&mut b);
    assert_eq!(output_of(&b, &[]), vec![0]);
}

#[test]
fn division_rounds_down() {
    for (x, y) in [(1u8, 1u8), (7, 7), (6, 7), (8, 7), (255, 1), (255, 16), (100, 10), (99, 10)] {
        let mut b = B::new();
        let a = b.cell(x);
        let d = b.cell(y);
        a.div_assign_ref(&mut b, &d);
        a.write(&mut b);
        d.write(&mut b);
        assert_eq!(output_of(&b, &[]), vec![x / y, y]);
    }
}

#[test]
fn division_by_zero_does_not_end_within_the_limit() {
    let mut b = B::new();
    let a = b.cell(3);
    let d = b.cell(0);
    a.div_assign_ref(&mut b, &d);
    a.write(&mut b);
    let program = b.compile().unwrap();
    let mut r: Runner<64, Vec<u8>, u8> = Runner::new(&[], Vec::new());
    r.set_limit(100_000);
    program.run_on(&mut r);
    assert_eq!(r.status(), Status::LimitReached);
    assert!(r.output().is_empty());
}

#[test]
fn dividing_by_a_constant_and_by_a_cell_by_value() {
    let mut b = B::new();
    let a = b.cell(45);
    a.div_assign(&mut b, 6);
    a.write(&mut b);
    assert_eq!(output_of(&b, &[]), vec![7]);
    assert_eq!(b.lowest_unallocated(), 1);

    let mut b = B::new();
    let a = b.cell(45);
    let d = b.cell(9);
    a.div_assign_cell(&mut b, d);
    assert!(!b.is_allocated(1));
    a.write(&mut b);
    assert_eq!(output_of(&b, &[]), vec![5]);
}

#[test]
fn doubling_the_input_byte() {
    let mut b = B::new();
    let input = b.read();
    let two = b.cell(2);
    input.mul_assign_ref(&mut b, &two);
    input.write(&mut b);
    assert_eq!(output_of(&b, &[65]), vec![130]);
}

#[test]
fn operations_that_return_the_cell() {
    let mut b = B::new();
    let a = b.cell(10);
    let c = b.cell(4);
    let a = a.add_ref(&mut b, &c);
    let a = a.sub_value(&mut b, 2);
    let a = a.mul_ref(&mut b, &c);
    let a = a.div_value(&mut b, 5);
    let a = a.add_value(&mut b, 1);
    let e = b.cell(3);
    let a = a.mul(&mut b, e);
    let f = b.cell(2);
    let a = a.sub(&mut b, f);
    let g = b.cell(7);
    let a = a.add(&mut b, g);
    let h = b.cell(4);
    let a = a.div(&mut b, h);
    let a = a.sub_ref(&mut b, &c);
    let a = a.mul_value(&mut b, 6);
    let a = a.div_ref(&mut b, &c);
    a.write(&mut b);
    c.write(&mut b);
    // ((10+4-2)*4/5+1)*3-2+7 = 35; 35/4 = 8; 8-4 = 4; 4*6 = 24; 24/4 = 6
    assert_eq!(output_of(&b, &[]), vec![6, 4]);
    assert_eq!(a.location(), 0);
    assert_eq!(b.lowest_unallocated(), 2);
}

#[test]
fn decimal_input_is_read_into_a_number() {
    let mut b = B::new();
    let value = b.cell(0);
    let input = b.read();
    input.while_nonzero_mut(&mut b, |input, b| {
        value.mul_assign(b, 10);
        input.sub_assign(b, 48);
        value.add_assign_ref(b, input);
        input.zero(b);
        input.read(b);
    });
    value.write(&mut b);
    assert_eq!(output_of(&b, b"123"), vec![123]);
    let text = b.source().to_string();
    let program = Program::new(&text).unwrap();
    let r: Runner<64, Vec<u8>, u8> = program.run(b"7", Vec::new());
    assert_eq!(r.output(), &vec![7u8]);
}
