//! Tests for the virtual machine's dispatch loop and value arithmetic.
use rlox::chunk::Chunk;
use rlox::error::LoxError;
use rlox::opcode::OpCode;
use rlox::util::array_init;
use rlox::value::Value;
use rlox::vm::LoxVm;

#[test]
fn test_arithmetic() {
    let mut chunk = Chunk::new();

    // 1 + 2 * 3
    let const_0 = chunk.add_constant(Value::Float(3.0f64.to_bits()));
    chunk.write(OpCode::Constant, 0);
    chunk.write(const_0, 0);

    let const_1 = chunk.add_constant(Value::Float(2.0f64.to_bits()));
    chunk.write(OpCode::Constant, 0);
    chunk.write(const_1, 0);

    chunk.write(OpCode::Multiply, 0);

    // test 24-bit constant index
    let const_2 = chunk.add_constant_long(Value::Float(1.0f64.to_bits()));
    assert!(const_2.is_u24());
    chunk.write(OpCode::ConstantLong, 0);
    chunk.write(const_2, 0);

    chunk.write(OpCode::Add, 0);

    let mut vm = LoxVm::new();

    let value = vm.interpret(chunk).expect("interpret failed");
    println!("{value:?}");
    assert_eq!(value.as_float_bits(), Some(7.0f64.to_bits()));
}

// Arithmetic with short constants:
// Constant 3.0; Constant 2.0; Multiply; Constant 1.0; Add; Return.
#[test]
fn test_arithmetic_short_constants() {
    let mut chunk = Chunk::new();
    for bits in [3.0f64.to_bits(), 2.0f64.to_bits()] {
        let index = chunk.add_constant(Value::Float(bits));
        chunk.write(OpCode::Constant, 0);
        chunk.write(index, 0);
    }
    chunk.write(OpCode::Multiply, 0);
    let one = chunk.add_constant(Value::Float(1.0f64.to_bits()));
    chunk.write(OpCode::Constant, 0);
    chunk.write(one, 0);
    chunk.write(OpCode::Add, 0);
    chunk.write(OpCode::Return, 0);

    let mut vm = LoxVm::new();
    let value = vm.interpret(chunk).expect("interpret failed");
    assert_eq!(value, Value::Float(7.0f64.to_bits()));
}

// Unary: Constant 1.2; Constant 3.4; Add; Constant 5.6; Divide; Negate;
// Return.
#[test]
fn test_unary_negate_chain() {
    let mut chunk = Chunk::new();
    for bits in [1.2f64.to_bits(), 3.4f64.to_bits()] {
        let index = chunk.add_constant(Value::Float(bits));
        chunk.write(OpCode::Constant, 0);
        chunk.write(index, 0);
    }
    chunk.write(OpCode::Add, 0);
    let divisor = chunk.add_constant(Value::Float(5.6f64.to_bits()));
    chunk.write(OpCode::Constant, 0);
    chunk.write(divisor, 0);
    chunk.write(OpCode::Divide, 0);
    chunk.write(OpCode::Negate, 0);
    chunk.write(OpCode::Return, 0);

    let mut vm = LoxVm::new();
    let value = vm.interpret(chunk).expect("interpret failed");
    let expected = -((1.2f64 + 3.4f64) / 5.6f64);
    assert_eq!(value, Value::Float(expected.to_bits()));
}

// An empty chunk: interpret returns Null without entering the dispatch
// loop.
#[test]
fn test_empty_chunk_returns_null() {
    let mut vm = LoxVm::new();
    let value = vm.interpret(Chunk::new()).expect("interpret failed");
    assert_eq!(value, Value::Null);
}

// Arithmetic on a non-number operand surfaces the type error.
#[test]
fn test_type_error() {
    let mut chunk = Chunk::new();
    let null_index = chunk.add_constant(Value::Null);
    chunk.write(OpCode::Constant, 0);
    chunk.write(null_index, 0);
    chunk.write(OpCode::Negate, 0);
    chunk.write(OpCode::Return, 0);

    let mut vm = LoxVm::new();
    let result = vm.interpret(chunk);
    assert_eq!(result, Err(LoxError::TypeError));
}

// Value arithmetic is IEEE-754 on floats and an error sentinel on
// anything else.
#[test]
fn test_value_arithmetic() {
    let a = Value::Float(0.1f64.to_bits());
    let b = Value::Float(0.2f64.to_bits());
    assert_eq!(a.add(b), Value::Float((0.1f64 + 0.2f64).to_bits()));
    assert_eq!(a.sub(b), Value::Float((0.1f64 - 0.2f64).to_bits()));
    assert_eq!(a.mul(b), Value::Float((0.1f64 * 0.2f64).to_bits()));
    assert_eq!(a.div(b), Value::Float((0.1f64 / 0.2f64).to_bits()));
    assert_eq!(a.neg(), Value::Float((-0.1f64).to_bits()));
    assert_eq!(Value::Null.add(b), Value::Error);
    assert_eq!(a.add(Value::Null), Value::Error);
    assert_eq!(Value::Error.mul(b), Value::Error);
    assert_eq!(Value::Null.neg(), Value::Error);
}

// Division by zero follows IEEE-754: a nonzero dividend gives infinity,
// a zero dividend gives a quiet not-a-number.
#[test]
fn test_division_by_zero() {
    let one = Value::Float(1.0f64.to_bits());
    let zero = Value::Float(0.0f64.to_bits());
    let infinite = one.div(zero);
    assert_eq!(infinite, Value::Float(f64::INFINITY.to_bits()));
    let indeterminate = zero.div(zero);
    let bits = indeterminate.as_float_bits().unwrap();
    assert!(f64::from_bits(bits).is_nan());
}

#[test]
fn test_value_text() {
    assert_eq!(Value::Null.display_text(), "null");
    assert_eq!(Value::Error.display_text(), "error");
    assert_eq!(Value::Null.debug_text(), "Null");
    let two = Value::Float(2.0f64.to_bits());
    let debug = two.debug_text();
    assert!(debug.starts_with("Float("));
    assert!(debug.ends_with(")"));
    assert!(debug.contains('2'));
}

#[test]
fn test_array_init() {
    /// Importantly, this type does not implement `Clone` or `Copy`.
    #[derive(Debug, PartialEq, Eq)]
    struct Foo {
        value: u32,
    }

    let arr1 = array_init(|| Foo { value: 169_093_200 }, 16);
    for el in &arr1 {
        assert_eq!(el, &Foo { value: 169_093_200 });
    }
}
