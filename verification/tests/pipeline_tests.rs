use loxrs::chunk::{Chunk, OpCode};
use loxrs::compiler::{compile, compile_with_diagnostics, DiagAt};
use loxrs::debug::{dissassemble_chunk, dissassemble_instruction, InstrInfo};
use loxrs::error::Error;
use loxrs::value::{negate_value, ValueArray};
use loxrs::vm::VM;

fn eval(source: &str) -> Result<Option<u64>, Error> {
    let mut vm = VM::new();
    vm.interpret(source)
}

fn eval_number(source: &str) -> f64 {
    match eval(source) {
        Ok(Some(bits)) => f64::from_bits(bits),
        other => panic!("expected a value from {:?}, got {:?}", source, other),
    }
}

#[test]
fn interpreting_a_literal_yields_the_literal() {
    assert_eq!(eval_number("42"), 42.0);
    assert_eq!(eval_number("3.14"), 3.14);
    assert_eq!(eval_number("0"), 0.0);
    assert_eq!(eval_number("-5"), -5.0);
    assert_eq!(eval_number("(3.5)"), 3.5);
    assert_eq!(eval_number("-(2.5)"), -2.5);
    assert_eq!(eval_number("((7))"), 7.0);
}

#[test]
fn nested_signs_and_parentheses_around_a_literal() {
    assert_eq!(eval_number("-(-5)"), 5.0);
    assert_eq!(eval_number("-(-(-2.5))"), -2.5);
    assert_eq!(eval_number("( // grouping\n -7 )"), -7.0);
}

#[test]
fn missing_operand_is_reported_at_the_end() {
    let (result, diagnostics) = compile_with_diagnostics("1 +");
    assert_eq!(result, Err(Error::CompileError));
    assert!(diagnostics
        .iter()
        .any(|d| d.at == DiagAt::AtEnd && d.message == "Expect expression."));
}

#[test]
fn precedence_multiplication_binds_tighter_than_addition() {
    assert_eq!(eval_number("2 + 3 * 4"), 14.0);
    assert_eq!(eval_number("2 + (3 * 4)"), 14.0);
    assert_eq!(eval_number("(2 + 3) * 4"), 20.0);
}

#[test]
fn subtraction_is_left_associative() {
    assert_eq!(eval_number("8 - 4 - 2"), 2.0);
}

#[test]
fn unary_minus_binds_tighter_than_binary_operators() {
    assert_eq!(eval_number("-2 + 3"), 1.0);
    assert_ne!(eval_number("-2 + 3"), -5.0);
}

#[test]
fn arithmetic_follows_ieee_754() {
    assert_eq!(eval_number("2 * 3"), 6.0);
    assert_eq!(eval_number("1 / 2"), 0.5);
    assert_eq!(eval_number("0.1 + 0.2"), 0.1f64 + 0.2f64);
    // Division by zero follows the floating-point convention.
    assert_eq!(eval_number("1 / 0"), f64::INFINITY);
    assert!(eval_number("0 / 0").is_nan());
}

#[test]
fn round_trip_disassembly_lists_the_emitted_opcodes() {
    let chunk = compile("1.2 + 3.4").unwrap();
    assert_eq!(chunk.code, vec![0u8, 0, 0, 1, 1, 6]);
    assert_eq!(chunk.constants, vec![1.2f64.to_bits(), 3.4f64.to_bits()]);
    assert_eq!(chunk.lines.len(), chunk.code.len());

    let listing = dissassemble_chunk(&chunk);
    assert_eq!(listing.len(), 4);
    assert_eq!(listing[0].offset, 0);
    assert_eq!(listing[0].info, InstrInfo::ConstantRef(0, Some(1.2f64.to_bits())));
    assert_eq!(listing[1].offset, 2);
    assert_eq!(listing[1].info, InstrInfo::ConstantRef(1, Some(3.4f64.to_bits())));
    assert_eq!(listing[2].offset, 4);
    assert_eq!(listing[2].info, InstrInfo::Simple(OpCode::OpAdd));
    assert_eq!(listing[3].offset, 5);
    assert_eq!(listing[3].info, InstrInfo::Simple(OpCode::OpReturn));

    // The first line number is shown; the repeats are blanked.
    assert!(!listing[0].repeats_line);
    assert!(listing[1].repeats_line && listing[2].repeats_line && listing[3].repeats_line);
}

#[test]
fn left_associative_emission_order() {
    // 8 - 4 - 2: left operand first, so (8 - 4) is emitted and subtracted
    // before the final - 2.
    let chunk = compile("8 - 4 - 2").unwrap();
    assert_eq!(chunk.code, vec![0u8, 0, 0, 1, 2, 0, 2, 2, 6]);
    assert_eq!(
        chunk.constants,
        vec![8.0f64.to_bits(), 4.0f64.to_bits(), 2.0f64.to_bits()]
    );
}

#[test]
fn unary_minus_emission_binds_tighter() {
    // -2 + 3: the negation applies to 2 alone, before the addition.
    let chunk = compile("-2 + 3").unwrap();
    assert_eq!(chunk.code, vec![0u8, 0, 5, 0, 1, 1, 6]);
    assert_eq!(chunk.constants, vec![2.0f64.to_bits(), 3.0f64.to_bits()]);
}

#[test]
fn disassembling_an_unknown_opcode_advances_one_byte() {
    let mut chunk = Chunk::new();
    chunk.write(9, 1);
    chunk.write(6, 1);
    let (next, line) = dissassemble_instruction(&chunk, 0);
    assert_eq!(next, 1);
    assert_eq!(line.info, InstrInfo::Unknown(9));
}

#[test]
fn unterminated_string_fails_compilation() {
    assert_eq!(compile("\"abc"), Err(Error::CompileError));
    let (result, diagnostics) = compile_with_diagnostics("\"abc");
    assert_eq!(result, Err(Error::CompileError));
    assert!(diagnostics.iter().any(|d| d.at == DiagAt::Character('"') && d.line == 1));
}

#[test]
fn unknown_character_fails_compilation_but_scanning_continues() {
    let (result, diagnostics) = compile_with_diagnostics("` 1");
    assert_eq!(result, Err(Error::CompileError));
    assert!(diagnostics.iter().any(|d| d.at == DiagAt::Character('`') && d.line == 1));
    // The expression after the bad character was still parsed and consumed:
    // no diagnostic about a missing expression or a missing end of input.
    assert_eq!(diagnostics.len(), 1);
}

#[test]
fn incomplete_expressions_fail_compilation() {
    assert_eq!(compile("1 +"), Err(Error::CompileError));
    assert_eq!(compile("(1"), Err(Error::CompileError));
    assert_eq!(compile(""), Err(Error::CompileError));
    assert_eq!(compile("1 2"), Err(Error::CompileError));
}

#[test]
fn pushing_beyond_capacity_is_a_stack_overflow() {
    // A chunk that pushes the same constant 257 times exceeds the fixed
    // 256-slot stack; the machine reports it and never writes out of bounds.
    let mut chunk = Chunk::new();
    chunk.add_constant(1.0f64.to_bits());
    for _ in 0..257 {
        chunk.write(0, 1);
        chunk.write(0, 1);
    }
    let mut vm = VM::new();
    assert_eq!(vm.run(&chunk), Err(Error::StackOverflow));
}

#[test]
fn push_and_pop_report_their_stack_discipline() {
    let mut vm = VM::new();
    for i in 0..256u64 {
        assert_eq!(vm.push(i), Ok(()));
    }
    assert_eq!(vm.push(0), Err(Error::StackOverflow));
    assert_eq!(vm.stack_top, 256);
    for _ in 0..256 {
        assert!(vm.pop().is_ok());
    }
    assert_eq!(vm.pop(), Err(Error::StackUnderflow));
    assert_eq!(vm.stack_top, 0);
}

#[test]
fn popping_an_empty_stack_is_a_stack_underflow() {
    let mut chunk = Chunk::new();
    chunk.write(1, 1); // an addition with nothing on the stack
    let mut vm = VM::new();
    assert_eq!(vm.run(&chunk), Err(Error::StackUnderflow));

    let mut chunk = Chunk::new();
    chunk.write(6, 1); // a return with nothing to return
    let mut vm = VM::new();
    assert_eq!(vm.run(&chunk), Err(Error::StackUnderflow));
}

#[test]
fn an_undecodable_byte_is_an_invalid_opcode_error() {
    assert_eq!(OpCode::try_from(9), Err(Error::InvalidOpCode(9)));
    assert!(OpCode::try_from(6).is_ok());

    let mut chunk = Chunk::new();
    chunk.write(9, 1);
    let mut vm = VM::new();
    assert_eq!(vm.run(&chunk), Err(Error::InvalidOpCode(9)));
}

#[test]
fn malformed_constant_instructions_are_runtime_errors() {
    // A constant opcode with no operand byte.
    let mut chunk = Chunk::new();
    chunk.write(0, 1);
    let mut vm = VM::new();
    assert_eq!(vm.run(&chunk), Err(Error::RuntimeError));

    // A constant operand pointing outside the pool.
    let mut chunk = Chunk::new();
    chunk.write(0, 1);
    chunk.write(5, 1);
    let mut vm = VM::new();
    assert_eq!(vm.run(&chunk), Err(Error::RuntimeError));
}

#[test]
fn running_off_the_end_halts_without_output() {
    let chunk = Chunk::new();
    let mut vm = VM::new();
    assert_eq!(vm.run(&chunk), Ok(None));
}

#[test]
fn too_many_constants_fail_compilation() {
    let mut source = String::from("1");
    for _ in 0..256 {
        source.push_str(" + 1");
    }
    assert_eq!(compile(&source), Err(Error::CompileError));
}

#[test]
fn reset_empties_the_stack() {
    let mut vm = VM::new();
    assert_eq!(vm.interpret("1 + 2"), Ok(Some(3.0f64.to_bits())));
    vm.reset();
    assert_eq!(vm.stack_top, 0);
}

#[test]
fn negate_value_flips_the_sign_bit() {
    assert_eq!(negate_value(2.0f64.to_bits()), (-2.0f64).to_bits());
    assert_eq!(negate_value((-2.0f64).to_bits()), 2.0f64.to_bits());
    assert_eq!(f64::from_bits(negate_value(2.0f64.to_bits())), -2.0f64);
}

#[test]
fn chunk_appends_code_lines_and_constants() {
    let mut chunk = Chunk::new();
    chunk.write(6, 3);
    assert_eq!(chunk.get(0), 6);
    assert_eq!(chunk.lines, vec![3usize]);
    assert_eq!(chunk.add_constant(1.5f64.to_bits()), 0);
    assert_eq!(chunk.add_constant(2.5f64.to_bits()), 1);
    assert_eq!(chunk.constants, vec![1.5f64.to_bits(), 2.5f64.to_bits()]);
}

#[test]
fn value_array_appends_and_reads_back() {
    let mut values = ValueArray::new();
    values.write(4.0f64.to_bits());
    values.write(8.0f64.to_bits());
    assert_eq!(values.get(0), 4.0f64.to_bits());
    assert_eq!(values.get(1), 8.0f64.to_bits());
}

#[test]
fn line_numbers_follow_the_source() {
    let chunk = compile("1 +\n2").unwrap();
    // The constant for 1 is on line 1; the one for 2 and the addition that
    // follows it are attributed to their own lines.
    assert_eq!(chunk.lines[0], 1);
    assert_eq!(chunk.lines[2], 2);
}
