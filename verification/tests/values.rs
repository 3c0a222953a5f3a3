use tape_builder::builder::types::{CellValue, DebuggableCellValue};
use tape_builder::runner::output::map::Mapped;
use tape_builder::runner::output::RunnerOutput;
use tape_builder::runner::Runner;
use tape_builder::program::Program;

#[test]
fn unsigned_values_wrap_around() {
    assert_eq!(CellValue::inc(255u8), 0);
    assert_eq!(CellValue::dec(0u8), 255);
    assert_eq!(CellValue::inc(41u8), 42);
    assert_eq!(CellValue::dec(u16::MIN), u16::MAX);
    assert_eq!(CellValue::inc(u32::MAX), 0);
    assert_eq!(CellValue::inc(u64::MAX), 0);
    assert_eq!(CellValue::dec(0u128), u128::MAX);
    assert_eq!(CellValue::inc(usize::MAX), 0);
}

#[test]
fn signed_values_wrap_around() {
    assert_eq!(CellValue::inc(127i8), -128);
    assert_eq!(CellValue::dec(-128i8), 127);
    assert_eq!(CellValue::inc(-1i16), 0);
    assert_eq!(CellValue::dec(i32::MIN), i32::MAX);
    assert_eq!(CellValue::inc(i64::MAX), i64::MIN);
    assert_eq!(CellValue::dec(0i128), -1);
    assert_eq!(CellValue::inc(isize::MAX), isize::MIN);
}

#[test]
fn zero_is_zero() {
    assert_eq!(<u8 as CellValue>::ZERO, 0);
    assert_eq!(<i64 as CellValue>::ZERO, 0);
    assert!(CellValue::is_zero(0u16));
    assert!(!CellValue::is_zero(1u16));
    assert!(!CellValue::is_zero(-1i8));
    assert!(CellValue::is_zero(<isize as CellValue>::ZERO));
}

#[test]
fn values_convert_to_isize() {
    assert_eq!(CellValue::into_isize(200u8), 200);
    assert_eq!(CellValue::into_isize(-3i8), -3);
    assert_eq!(CellValue::into_isize(65535u16), 65535);
    assert_eq!(CellValue::into_isize(-40000i32), -40000);
    assert_eq!(CellValue::into_isize(12u128), 12);
}

#[test]
fn values_convert_to_characters() {
    assert_eq!(DebuggableCellValue::into_char(65u8), 'A');
    assert_eq!(DebuggableCellValue::into_char(255u8), 'ÿ');
    assert_eq!(DebuggableCellValue::into_char(97u16), 'a');
    assert_eq!(DebuggableCellValue::into_char(0x1F600u32), '😀');
    assert_eq!(DebuggableCellValue::into_char(0x20ACi64), '€');
    assert_eq!(DebuggableCellValue::into_char(48i8), '0');
    assert_eq!(DebuggableCellValue::into_char(0xD7FFusize), '\u{D7FF}');
}

#[test]
fn a_vec_collects_what_is_written() {
    let mut out: Vec<u8> = vec![1];
    RunnerOutput::write(&mut out, 2);
    RunnerOutput::write(&mut out, 3);
    assert_eq!(out, vec![1, 2, 3]);
}

#[test]
fn a_mapped_output_passes_on_the_mapped_values() {
    let sink: Vec<char> = Vec::new();
    let mut mapped = Mapped::new(sink, |v: u8| (v + 1) as char);
    mapped.write(64);
    mapped.write(65);
    assert_eq!(mapped.into_base(), vec!['A', 'B']);
}

#[test]
fn a_runner_writes_through_a_mapped_output() {
    let program = Program::new("+++.>,.").unwrap();
    let sink: Vec<u16> = Vec::new();
    let r: Runner<4, _, u8> = program.run(&[9], Mapped::new(sink, |v: u8| v as u16 * 100));
    assert_eq!(r.into_output().into_base(), vec![300, 900]);
}

#[test]
fn wider_cells_hold_wider_values() {
    let program = Program::new("-.").unwrap();
    let r: Runner<2, Vec<u16>, u16> = program.run(&[], Vec::new());
    assert_eq!(r.output(), &vec![65535u16]);
    let r: Runner<2, Vec<i8>, i8> = program.run(&[], Vec::new());
    assert_eq!(r.output(), &vec![-1i8]);
}
