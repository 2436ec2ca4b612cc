//! Tests for chunks, constant indices and disassembly.
use rlox::chunk::Chunk;
use rlox::chunk::ConstantIndex;
use rlox::opcode::OpCode;
use rlox::value::Value;

#[test]
fn test_constant_index() {
    let mut chunk = Chunk::new();

    for i in 0..1024u32 {
        let index = chunk.add_constant(Value::Float((i as f64).to_bits()));

        if i <= 255 {
            chunk.write(OpCode::Constant, 123);
            chunk.write(index, 123);

            assert!(index.is_u8());
            assert_eq!(index, ConstantIndex::from_u8(i as u8));
        } else {
            chunk.write(OpCode::ConstantLong, 123);
            chunk.write(index, 123);

            assert!(index.is_u24());
        }
    }
}

#[test]
fn chunk_test_constant_index() {
    let mut chunk = Chunk::new();

    for i in 0..1024u32 {
        let index = chunk.add_constant(Value::Float((i as f64).to_bits()));

        if i < 256 {
            chunk.write(OpCode::Constant, 123);
            chunk.write(index, 123);

            assert!(index.is_u8());
            assert_eq!(index, ConstantIndex::from_u8(i as u8));
        } else {
            chunk.write(OpCode::ConstantLong, 123);
            chunk.write(index, 123);

            assert!(index.is_u24());
        }
    }
}

// The returned index's numeric value equals the pre-insertion count, and
// its form is short exactly while the count stays below 256: the 256th
// insertion is the last short index, the 257th the first long one.
#[test]
fn test_constant_index_boundary() {
    let mut chunk = Chunk::new();
    for i in 0..300u32 {
        let index = chunk.add_constant(Value::Float((i as f64).to_bits()));
        assert_eq!(index.val(), i);
        assert_eq!(index.to_usize(), i as usize);
        assert_eq!(index.is_u8(), i < 256);
        assert_eq!(index.is_u24(), i >= 256);
    }
}

#[test]
fn test_constant_index_from_u32() {
    assert!(ConstantIndex::from_u32(255).is_u8());
    assert!(ConstantIndex::from_u32(256).is_u24());
    assert_eq!(ConstantIndex::from_u32(300).val(), 300);
    let assembled = ConstantIndex::from_parts(0x01, 0x02, 0x03);
    assert!(assembled.is_u24());
    assert_eq!(assembled.val(), 0x010203);
}

// Disassembly advances by exactly the decoded opcode's width, and skips
// one byte on an unknown opcode, reporting it to the error sink.
#[test]
fn test_disassemble_advance() {
    let mut chunk = Chunk::new();
    let index = chunk.add_constant(Value::Float(3.0f64.to_bits()));
    chunk.write(OpCode::Constant, 1);
    chunk.write(index, 1);
    let long_index = chunk.add_constant_long(Value::Float(4.0f64.to_bits()));
    chunk.write(OpCode::ConstantLong, 1);
    chunk.write(long_index, 1);
    chunk.write(OpCode::Add, 2);
    chunk.write_u8(0xEE, 2);
    chunk.write(OpCode::Return, 3);

    let mut out = String::new();
    let mut err = String::new();
    let mut offset = 0;
    // Constant: two bytes
    offset = chunk.disassemble_instruction(&mut out, &mut err, offset);
    assert_eq!(offset, 2);
    // ConstantLong: four bytes
    offset = chunk.disassemble_instruction(&mut out, &mut err, offset);
    assert_eq!(offset, 6);
    // Add: one byte
    offset = chunk.disassemble_instruction(&mut out, &mut err, offset);
    assert_eq!(offset, 7);
    assert_eq!(err, "");
    // unknown opcode: skip one byte, report it
    offset = chunk.disassemble_instruction(&mut out, &mut err, offset);
    assert_eq!(offset, 8);
    assert_eq!(err, "Unknown opcode ee\n");
    // Return: one byte
    offset = chunk.disassemble_instruction(&mut out, &mut err, offset);
    assert_eq!(offset, 9);
    assert!(out.starts_with("0000"));
}

#[test]
fn test_disassemble_to_string_layout() {
    let mut chunk = Chunk::new();
    let index = chunk.add_constant(Value::Float(7.0f64.to_bits()));
    chunk.write(OpCode::Constant, 42);
    chunk.write(index, 42);
    chunk.write(OpCode::Return, 42);

    let (text, errors) = chunk.disassemble_to_string();
    assert!(text.starts_with("=== constants ===\n"));
    assert!(text.contains("=== code ===\n"));
    assert!(text.contains("Constant"));
    assert!(text.contains("Return"));
    // the second and third byte sit on the same source line as the first
    assert!(text.contains("   | "));
    assert_eq!(errors, "");
}

#[test]
fn test_opcode_bytes() {
    assert_eq!(OpCode::NoOp.to_u8(), 0);
    assert_eq!(OpCode::Return.to_u8(), 1);
    assert_eq!(OpCode::from_u8(1), Some(OpCode::Return));
    assert_eq!(OpCode::from_u8(8), Some(OpCode::Divide));
    assert_eq!(OpCode::from_u8(9), None);
}
