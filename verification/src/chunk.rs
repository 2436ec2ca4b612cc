//! Source code chunk: an append-only bytecode vector, a parallel per-byte
//! source-line vector, and a constant pool.
use crate::opcode::OpCode;
use crate::text::dec4_text;
use crate::text::dec_digits;
use crate::text::hex4_text;
use crate::text::hex_digits;
use crate::text::hex_text;
use crate::text::pad_left;
use crate::value::Value;
use crate::value::spec_display_text;
use crate::value::spec_debug_text;
use vstd::prelude::*;

verus! {

/// Exclusive maximum number of constants a chunk may hold; an index must
/// fit in 24 bits.
pub const CONSTANT_MAX: usize = 0x100_0000;

/// Constant counts below this threshold are referenced with 8-bit short
/// indices; from this count on, 24-bit long indices are used.
pub const CONSTANT_THRESHOLD: usize = 256;

/// The mathematical contents of a `Chunk`.
pub ghost struct ChunkView {
    /// The bytecode stream: opcodes interleaved with their operand bytes.
    pub code: Seq<u8>,
    /// One source line number per byte of `code`.
    pub line: Seq<usize>,
    /// The constant pool, in insertion order.
    pub constants: Seq<Value>,
}

/// The bytecode container: code bytes, their source lines, and the
/// constant pool.
pub struct Chunk {
    constants: Vec<Value>,
    code: Vec<u8>,
    line: Vec<usize>,
}

impl View for Chunk {
    type V = ChunkView;

    closed spec fn view(&self) -> ChunkView {
        ChunkView { code: self.code@, line: self.line@, constants: self.constants@ }
    }
}

impl Chunk {
    /// The line table stays parallel to the code and the constant pool
    /// never exceeds its 24-bit capacity.
    pub open spec fn wf(self) -> bool {
        &&& self@.code.len() == self@.line.len()
        &&& self@.constants.len() <= CONSTANT_MAX
    }

    pub fn new() -> (chunk: Chunk)
        ensures
            chunk.wf(),
            chunk@.code == Seq::<u8>::empty(),
            chunk@.line == Seq::<usize>::empty(),
            chunk@.constants == Seq::<Value>::empty(),
    {
        Chunk { constants: Vec::new(), code: Vec::new(), line: Vec::new() }
    }

    /// The code of a chunk sits in memory: its length is within `usize`.
    pub proof fn lemma_code_len(&self)
        ensures
            self@.code.len() <= usize::MAX,
    {
        broadcast use vstd::std_specs::vec::axiom_spec_len;

        assert(self.code.len() == self.code@.len());
    }

    /// Retrieve a byte instruction from the chunk code.
    #[inline(always)]
    pub fn get_byte(&self, offset: usize) -> (byte: u8)
        requires
            offset < self@.code.len(),
        ensures
            byte == self@.code[offset as int],
    {
        self.code[offset]
    }

    /// Returns the number of bytes in the chunk code.
    #[inline(always)]
    pub fn len(&self) -> (n: usize)
        ensures
            n == self@.code.len(),
    {
        self.code.len()
    }

    /// Adds a constant value to the chunk's constant pool.
    ///
    /// Returns a unique index that can be used to reference the constant:
    /// its numeric value is the pre-insertion count, and it is short
    /// exactly when that count is below the short-index threshold.
    pub fn add_constant(&mut self, constant: Value) -> (index: ConstantIndex)
        requires
            old(self).wf(),
            old(self)@.constants.len() < CONSTANT_MAX,
        ensures
            final(self).wf(),
            final(self)@.code == old(self)@.code,
            final(self)@.line == old(self)@.line,
            final(self)@.constants == old(self)@.constants.push(constant),
            index.wf(),
            index.spec_val() == old(self)@.constants.len(),
            index is Short <==> old(self)@.constants.len() < CONSTANT_THRESHOLD,
    {
        let count = self.constants.len();
        let index = if count < CONSTANT_THRESHOLD {
            ConstantIndex::Short(count as u8)
        } else {
            ConstantIndex::Long(count as u32)
        };
        self.constants.push(constant);
        index
    }

    /// Adds a constant value to the pool exactly as `add_constant` does,
    /// but forces a 24-bit long index regardless of the count.
    pub fn add_constant_long(&mut self, constant: Value) -> (index: ConstantIndex)
        requires
            old(self).wf(),
            old(self)@.constants.len() < CONSTANT_MAX,
        ensures
            final(self).wf(),
            final(self)@.code == old(self)@.code,
            final(self)@.line == old(self)@.line,
            final(self)@.constants == old(self)@.constants.push(constant),
            index.wf(),
            index.spec_val() == old(self)@.constants.len(),
            index is Long,
    {
        let index = ConstantIndex::Long(self.constants.len() as u32);
        self.constants.push(constant);
        index
    }

    /// Retrieve a constant whose index is known to be inside the pool.
    #[inline]
    pub fn get_constant_unchecked(&self, index: ConstantIndex) -> (constant: Value)
        requires
            index.spec_val() < self@.constants.len(),
        ensures
            constant == self@.constants[index.spec_val() as int],
    {
        self.constants[index.to_usize()]
    }

    /// Retrieve a constant, or `None` when the index points past the pool.
    #[inline(always)]
    pub fn get_contant(&self, index: ConstantIndex) -> (constant: Option<Value>)
        ensures
            constant == (if index.spec_val() < self@.constants.len() {
                Some(self@.constants[index.spec_val() as int])
            } else {
                None::<Value>
            }),
    {
        let i = index.to_usize();
        if i < self.constants.len() {
            Some(self.constants[i])
        } else {
            None
        }
    }

    /// Write a single opcode to the chunk's code.
    pub fn write_op(&mut self, opcode: OpCode, line: usize)
        requires
            old(self).wf(),
        ensures
            final(self).wf(),
            final(self)@.code == old(self)@.code.push(opcode.spec_to_u8()),
            final(self)@.line == old(self)@.line.push(line),
            final(self)@.constants == old(self)@.constants,
    {
        self.code.push(opcode.to_u8());
        self.line.push(line);
    }

    /// Write a single byte to the chunk's code.
    pub fn write_u8(&mut self, instruction: u8, line: usize)
        requires
            old(self).wf(),
        ensures
            final(self).wf(),
            final(self)@.code == old(self)@.code.push(instruction),
            final(self)@.line == old(self)@.line.push(line),
            final(self)@.constants == old(self)@.constants,
    {
        self.code.push(instruction);
        self.line.push(line);
    }

    /// Write a single value to the chunk's code: its encoding is appended
    /// to the code, with every appended byte sharing the same line.
    pub fn write<T: EmitCode>(&mut self, value: T, line: usize)
        requires
            old(self).wf(),
            value.emit_wf(),
        ensures
            final(self).wf(),
            final(self)@.code == old(self)@.code + value.encoding(),
            final(self)@.line == old(self)@.line + Seq::new(
                value.encoding().len(),
                |i: int| line,
            ),
            final(self)@.constants == old(self)@.constants,
    {
        value.emit_bytecode(self, line);
    }
}

/// Unique identifier of a constant value stored in a chunk.
#[derive(Debug, Clone, Copy, PartialEq, Eq, Structural)]
pub enum ConstantIndex {
    /// Index to one of the first 256 constants, referenced by
    /// `OpCode::Constant`.
    Short(u8),
    /// Index to any of the rest, referenced by `OpCode::ConstantLong`.
    /// Only the 24 low bits are meaningful.
    Long(u32),
}

impl ConstantIndex {
    /// A long index fits in 24 bits.
    pub open spec fn wf(self) -> bool {
        self matches ConstantIndex::Long(value) ==> value < CONSTANT_MAX as u32
    }

    /// The numeric value of the index, whichever its form.
    pub open spec fn spec_val(self) -> u32 {
        match self {
            ConstantIndex::Short(value) => value as u32,
            ConstantIndex::Long(value) => value,
        }
    }

    #[inline(always)]
    pub fn from_u8(value: u8) -> (index: ConstantIndex)
        ensures
            index == ConstantIndex::Short(value),
    {
        ConstantIndex::Short(value)
    }

    /// Create a constant index from a 32-bit integer: short when the value
    /// is below the threshold, long otherwise. The value must fit in 24
    /// bits.
    pub fn from_u32(value: u32) -> (index: ConstantIndex)
        requires
            value < CONSTANT_MAX as u32,
        ensures
            index.wf(),
            index.spec_val() == value,
            index is Short <==> value < CONSTANT_THRESHOLD as u32,
    {
        if value < CONSTANT_THRESHOLD as u32 {
            ConstantIndex::Short(value as u8)
        } else {
            ConstantIndex::Long(value)
        }
    }

    /// Assemble a 24-bit long index from instruction bytes.
    ///
    /// The parts must be in big-endian order, with the most significant
    /// byte first and the least significant last.
    #[inline]
    pub fn from_parts(x: u8, y: u8, z: u8) -> (index: ConstantIndex)
        ensures
            index is Long,
            index.spec_val() == (x as u32) * 0x10000 + (y as u32) * 0x100 + (z as u32),
            index.wf(),
    {
        ConstantIndex::Long((x as u32) * 0x10000 + (y as u32) * 0x100 + (z as u32))
    }

    #[inline]
    pub fn val(&self) -> (value: u32)
        ensures
            value == self.spec_val(),
    {
        match self {
            ConstantIndex::Short(value) => *value as u32,
            ConstantIndex::Long(value) => *value,
        }
    }

    #[inline]
    pub fn to_usize(&self) -> (value: usize)
        ensures
            value == self.spec_val(),
    {
        self.val() as usize
    }

    #[inline]
    pub fn is_u8(&self) -> (r: bool)
        ensures
            r == (*self is Short),
    {
        matches!(self, ConstantIndex::Short(_))
    }

    #[inline]
    pub fn is_u24(&self) -> (r: bool)
        ensures
            r == (*self is Long),
    {
        matches!(self, ConstantIndex::Long(_))
    }
}

/// Trait for a value that can be written into a code chunk.
pub trait EmitCode {
    /// The bytes this value appends to the code.
    spec fn encoding(&self) -> Seq<u8>;

    /// What must hold of the value for its encoding to be meaningful.
    spec fn emit_wf(&self) -> bool;

    /// Append the value's encoding to the chunk's code, with every
    /// appended byte sharing the given source line.
    fn emit_bytecode(&self, chunk: &mut Chunk, line: usize)
        requires
            old(chunk).wf(),
            self.emit_wf(),
        ensures
            final(chunk).wf(),
            final(chunk)@.code == old(chunk)@.code + self.encoding(),
            final(chunk)@.line == old(chunk)@.line + Seq::new(
                self.encoding().len(),
                |i: int| line,
            ),
            final(chunk)@.constants == old(chunk)@.constants,
    ;
}

impl EmitCode for ConstantIndex {
    /// One byte for a short index; three big-endian bytes for a long one.
    open spec fn encoding(&self) -> Seq<u8> {
        match *self {
            ConstantIndex::Short(value) => seq![value],
            ConstantIndex::Long(value) => seq![
                (value / 0x10000) as u8,
                ((value / 0x100) % 0x100) as u8,
                (value % 0x100) as u8,
            ],
        }
    }

    open spec fn emit_wf(&self) -> bool {
        self.wf()
    }

    fn emit_bytecode(&self, chunk: &mut Chunk, line: usize) {
        match self {
            ConstantIndex::Short(value) => {
                chunk.write_u8(*value, line);
                assert(final(chunk)@.code =~= old(chunk)@.code + self.encoding());
                assert(final(chunk)@.line =~= old(chunk)@.line + Seq::new(
                    self.encoding().len(),
                    |i: int| line,
                ));
            }
            ConstantIndex::Long(value) => {
                // Big-endian
                chunk.write_u8((*value / 0x10000) as u8, line);
                chunk.write_u8(((*value / 0x100) % 0x100) as u8, line);
                chunk.write_u8((*value % 0x100) as u8, line);
                assert(final(chunk)@.code =~= old(chunk)@.code + self.encoding());
                assert(final(chunk)@.line =~= old(chunk)@.line + Seq::new(
                    self.encoding().len(),
                    |i: int| line,
                ));
            }
        }
    }
}

impl EmitCode for OpCode {
    open spec fn encoding(&self) -> Seq<u8> {
        seq![self.spec_to_u8()]
    }

    open spec fn emit_wf(&self) -> bool {
        true
    }

    fn emit_bytecode(&self, chunk: &mut Chunk, line: usize) {
        chunk.write_op(*self, line);
        assert(final(chunk)@.code =~= old(chunk)@.code + self.encoding());
        assert(final(chunk)@.line =~= old(chunk)@.line + Seq::new(
            self.encoding().len(),
            |i: int| line,
        ));
    }
}

impl EmitCode for u8 {
    open spec fn encoding(&self) -> Seq<u8> {
        seq![*self]
    }

    open spec fn emit_wf(&self) -> bool {
        true
    }

    fn emit_bytecode(&self, chunk: &mut Chunk, line: usize) {
        chunk.write_u8(*self, line);
        assert(final(chunk)@.code =~= old(chunk)@.code + self.encoding());
        assert(final(chunk)@.line =~= old(chunk)@.line + Seq::new(
            self.encoding().len(),
            |i: int| line,
        ));
    }
}

/// Decoding a long index's three encoded bytes, most significant first,
/// yields the index value back.
pub proof fn lemma_long_index_round_trip(value: u32)
    requires
        value < CONSTANT_MAX as u32,
    ensures
        ({
            let enc = ConstantIndex::Long(value).encoding();
            (enc[0] as u32) * 0x10000 + (enc[1] as u32) * 0x100 + (enc[2] as u32) == value
        }),
{
    let enc = ConstantIndex::Long(value).encoding();
    assert((enc[0] as u32) * 0x10000 + (enc[1] as u32) * 0x100 + (enc[2] as u32) == value)
        by (nonlinear_arith)
        requires
            value < 0x100_0000,
            enc[0] == (value / 0x10000) as u8,
            enc[1] == ((value / 0x100) % 0x100) as u8,
            enc[2] == (value % 0x100) as u8,
    ;
}

/// The name an opcode prints as.
pub open spec fn opcode_name(op: OpCode) -> Seq<char> {
    match op {
        OpCode::NoOp => "NoOp"@,
        OpCode::Return => "Return"@,
        OpCode::Constant => "Constant"@,
        OpCode::ConstantLong => "ConstantLong"@,
        OpCode::Negate => "Negate"@,
        OpCode::Add => "Add"@,
        OpCode::Subtract => "Subtract"@,
        OpCode::Multiply => "Multiply"@,
        OpCode::Divide => "Divide"@,
    }
}

fn opcode_name_text(op: OpCode) -> (text: &'static str)
    ensures
        text@ == opcode_name(op),
{
    match op {
        OpCode::NoOp => "NoOp",
        OpCode::Return => "Return",
        OpCode::Constant => "Constant",
        OpCode::ConstantLong => "ConstantLong",
        OpCode::Negate => "Negate",
        OpCode::Add => "Add",
        OpCode::Subtract => "Subtract",
        OpCode::Multiply => "Multiply",
        OpCode::Divide => "Divide",
    }
}

/// The byte offset where the instruction after the one at `o` begins:
/// one byte past an unknown opcode, else the instruction's full width,
/// clamped to the end of the code.
pub open spec fn spec_next_offset(c: ChunkView, o: int) -> int {
    let next = match OpCode::spec_from_u8(c.code[o]) {
        Option::None => o + 1,
        Option::Some(op) => o + op.width(),
    };
    if next > c.code.len() {
        c.code.len() as int
    } else {
        next
    }
}

/// Whether the code decodes cleanly from offset `o` on: every constant
/// instruction is complete and refers into the pool.
pub open spec fn disasm_wf(c: ChunkView, o: int) -> bool
    decreases c.code.len() - o,
{
    if o < 0 || o >= c.code.len() {
        true
    } else {
        match OpCode::spec_from_u8(c.code[o]) {
            Option::None => disasm_wf(c, o + 1),
            Option::Some(op) => match op {
                OpCode::Constant => o + 1 < c.code.len() && (c.code[o + 1] as int)
                    < c.constants.len() && disasm_wf(c, o + 2),
                OpCode::ConstantLong => o + 3 < c.code.len() && (c.code[o + 1] as int) * 0x10000
                    + (c.code[o + 2] as int) * 0x100 + (c.code[o + 3] as int)
                    < c.constants.len() && disasm_wf(c, o + 4),
                _ => disasm_wf(c, o + 1),
            },
        }
    }
}

/// The offset and source line columns an instruction line starts with:
/// the offset in four hexadecimal digits, then the line number, or a
/// pipe when the previous byte came from the same line.
pub open spec fn line_head_text(c: ChunkView, o: int) -> Seq<char> {
    let line_col = if o > 0 && c.line[o - 1] == c.line[o] {
        "   | "@
    } else {
        pad_left(dec_digits(c.line[o] as int), ' ', 4) + " "@
    };
    pad_left(hex_digits(o), '0', 4) + " "@ + line_col
}

/// The constant-pool index a constant instruction at `o` refers to.
pub open spec fn spec_operand_index(c: ChunkView, o: int) -> int {
    match OpCode::spec_from_u8(c.code[o]) {
        Option::Some(OpCode::Constant) => c.code[o + 1] as int,
        _ => (c.code[o + 1] as int) * 0x10000 + (c.code[o + 2] as int) * 0x100 + (c.code[o
            + 3] as int),
    }
}

/// The full text of the decoded instruction at offset `o`.
pub open spec fn instr_text(c: ChunkView, o: int) -> Seq<char> {
    match OpCode::spec_from_u8(c.code[o]) {
        Option::None => line_head_text(c, o),
        Option::Some(op) => match op {
            OpCode::Constant | OpCode::ConstantLong => line_head_text(c, o) + opcode_name(op)
                + "\t\t"@ + pad_left(dec_digits(spec_operand_index(c, o)), ' ', 4) + " '"@
                + spec_display_text(c.constants[spec_operand_index(c, o)]) + "'\n"@,
            _ => line_head_text(c, o) + opcode_name(op) + "\n"@,
        },
    }
}

/// What an unknown opcode at offset `o` reports to the error sink.
pub open spec fn unknown_text(c: ChunkView, o: int) -> Seq<char> {
    match OpCode::spec_from_u8(c.code[o]) {
        Option::None => "Unknown opcode "@ + hex_digits(c.code[o] as int) + "\n"@,
        Option::Some(op) => Seq::<char>::empty(),
    }
}

/// The constant pool listing from entry `i` on.
pub open spec fn constants_text(cs: Seq<Value>, i: int) -> Seq<char>
    decreases cs.len() - i,
{
    if i < 0 || i >= cs.len() {
        Seq::<char>::empty()
    } else {
        pad_left(dec_digits(i), ' ', 4) + " "@ + spec_debug_text(cs[i]) + "\n"@
            + constants_text(cs, i + 1)
    }
}

/// The code listing from offset `o` on.
pub open spec fn code_text(c: ChunkView, o: int) -> Seq<char>
    decreases c.code.len() - o,
{
    if o < 0 || o >= c.code.len() {
        Seq::<char>::empty()
    } else {
        instr_text(c, o) + code_text(c, spec_next_offset(c, o))
    }
}

/// The unknown-opcode reports from offset `o` on.
pub open spec fn errors_text(c: ChunkView, o: int) -> Seq<char>
    decreases c.code.len() - o,
{
    if o < 0 || o >= c.code.len() {
        Seq::<char>::empty()
    } else {
        unknown_text(c, o) + errors_text(c, spec_next_offset(c, o))
    }
}

impl Chunk {
    /// Decode and render the single instruction at the given offset,
    /// appending its text to `out` (and a report to `err` on an unknown
    /// opcode), and return the offset of the next instruction: one byte
    /// further for a one-byte instruction or an unknown opcode, two for
    /// a short constant load, four for a long one.
    #[verifier::rlimit(100)]
    pub fn disassemble_instruction(&self, out: &mut String, err: &mut String, offset: usize) -> (next: usize)
        requires
            self.wf(),
            offset < self@.code.len(),
            disasm_wf(self@, offset as int),
        ensures
            next == spec_next_offset(self@, offset as int),
            offset < next <= self@.code.len(),
            disasm_wf(self@, next as int),
            final(out)@ == old(out)@ + instr_text(self@, offset as int),
            final(err)@ == old(err)@ + unknown_text(self@, offset as int),
    {
        proof {
            self.lemma_code_len();
        }
        let head = hex4_text(offset);
        out.append(head.as_str());
        out.append(" ");
        let line = self.line[offset];

        // When an instruction belongs to the same line as the previous
        // one, print a pipe instead, to make it clear they belong
        // together.
        if offset > 0 && self.line[offset - 1] == line {
            out.append("   | ");
        } else {
            let line_text = dec4_text(line);
            out.append(line_text.as_str());
            out.append(" ");
        }

        let instruction = self.code[offset];
        match OpCode::from_u8(instruction) {
            Option::Some(opcode) => match opcode {
                OpCode::Constant | OpCode::ConstantLong => {
                    let (index, next) = if matches!(opcode, OpCode::Constant) {
                        (self.code[offset + 1] as usize, offset + 2)
                    } else {
                        let index = (self.code[offset + 1] as usize) * 0x10000 + (self.code[offset
                            + 2] as usize) * 0x100 + (self.code[offset + 3] as usize);
                        (index, offset + 4)
                    };
                    out.append(opcode_name_text(opcode));
                    out.append("\t\t");
                    let index_text = dec4_text(index);
                    out.append(index_text.as_str());
                    out.append(" '");
                    let value_text = self.constants[index].display_text();
                    out.append(value_text.as_str());
                    out.append("'\n");
                    proof {
                        assert(final(out)@ =~= old(out)@ + instr_text(self@, offset as int));
                        assert(final(err)@ =~= old(err)@ + unknown_text(self@, offset as int));
                    }
                    next
                }
                _ => {
                    out.append(opcode_name_text(opcode));
                    out.append("\n");
                    proof {
                        assert(final(out)@ =~= old(out)@ + instr_text(self@, offset as int));
                        assert(final(err)@ =~= old(err)@ + unknown_text(self@, offset as int));
                    }
                    offset + 1
                }
            },
            Option::None => {
                err.append("Unknown opcode ");
                let byte_text = hex_text(instruction as usize);
                err.append(byte_text.as_str());
                err.append("\n");
                proof {
                    assert(final(out)@ =~= old(out)@ + instr_text(self@, offset as int));
                    assert(final(err)@ =~= old(err)@ + unknown_text(self@, offset as int));
                }
                offset + 1
            }
        }
    }

    /// Render the whole chunk: the constant pool, then the linearly
    /// decoded code. Disassembly never changes the chunk; unknown
    /// opcodes are reported to the error sink and decoding skips one
    /// byte.
    pub fn disassemble(&self, out: &mut String, err: &mut String)
        requires
            self.wf(),
            disasm_wf(self@, 0),
        ensures
            final(out)@ == old(out)@ + "=== constants ===\n"@ + constants_text(
                self@.constants,
                0,
            ) + "=== code ===\n"@ + code_text(self@, 0),
            final(err)@ == old(err)@ + errors_text(self@, 0),
    {
        proof {
            self.lemma_code_len();
            self.lemma_constants_len();
        }
        out.append("=== constants ===\n");
        let mut index: usize = 0;
        while index < self.constants_len()
            invariant
                self.wf(),
                index <= self@.constants.len(),
                self@.constants.len() <= usize::MAX,
                out@ + constants_text(self@.constants, index as int) == old(out)@
                    + "=== constants ===\n"@ + constants_text(self@.constants, 0),
                err@ == old(err)@,
            decreases self@.constants.len() - index,
        {
            let entry = dec4_text(index);
            out.append(entry.as_str());
            out.append(" ");
            let value_text = self.constants[index].debug_text();
            out.append(value_text.as_str());
            out.append("\n");
            proof {
                assert(out@ + constants_text(self@.constants, index as int + 1) =~= old(out)@
                    + "=== constants ===\n"@ + constants_text(self@.constants, 0));
            }
            index = index + 1;
        }

        out.append("=== code ===\n");
        let ghost mid_out = out@;
        let ghost mid_err = err@;
        let mut offset: usize = 0;
        while offset < self.len()
            invariant
                self.wf(),
                offset <= self@.code.len(),
                self@.code.len() <= usize::MAX,
                disasm_wf(self@, offset as int),
                out@ + code_text(self@, offset as int) == mid_out + code_text(self@, 0),
                err@ + errors_text(self@, offset as int) == mid_err + errors_text(self@, 0),
                mid_out == old(out)@ + "=== constants ===\n"@ + constants_text(
                    self@.constants,
                    0,
                ) + "=== code ===\n"@,
                mid_err == old(err)@,
            decreases self@.code.len() - offset,
        {
            let ghost before = offset as int;
            offset = self.disassemble_instruction(out, err, offset);
            proof {
                assert(out@ + code_text(self@, offset as int) =~= mid_out + code_text(
                    self@,
                    0,
                ));
                assert(err@ + errors_text(self@, offset as int) =~= mid_err + errors_text(
                    self@,
                    0,
                ));
            }
        }
        proof {
            assert(final(out)@ =~= old(out)@ + "=== constants ===\n"@ + constants_text(
                self@.constants,
                0,
            ) + "=== code ===\n"@ + code_text(self@, 0));
            assert(final(err)@ =~= old(err)@ + errors_text(self@, 0));
        }
    }

    /// Render the whole chunk to fresh text: the listing, and whatever
    /// unknown-opcode reports the decode produced.
    pub fn disassemble_to_string(&self) -> (texts: (String, String))
        requires
            self.wf(),
            disasm_wf(self@, 0),
        ensures
            texts.0@ == "=== constants ===\n"@ + constants_text(self@.constants, 0)
                + "=== code ===\n"@ + code_text(self@, 0),
            texts.1@ == errors_text(self@, 0),
    {
        let mut out = String::new();
        let mut err = String::new();
        self.disassemble(&mut out, &mut err);
        proof {
            assert(out@ =~= "=== constants ===\n"@ + constants_text(self@.constants, 0)
                + "=== code ===\n"@ + code_text(self@, 0));
            assert(err@ =~= errors_text(self@, 0));
        }
        (out, err)
    }

    /// The number of constants in the pool.
    pub fn constants_len(&self) -> (n: usize)
        ensures
            n == self@.constants.len(),
    {
        self.constants.len()
    }

    /// The constant pool sits in memory: its length is within `usize`.
    pub proof fn lemma_constants_len(&self)
        ensures
            self@.constants.len() <= usize::MAX,
    {
        broadcast use vstd::std_specs::vec::axiom_spec_len;

        assert(self.constants.len() == self.constants@.len());
    }
}

/// For every chunk and offset holding a known opcode, decoding advances
/// by exactly that opcode's total width; an unknown opcode advances by
/// one byte.
pub proof fn lemma_disassemble_advance(c: ChunkView, o: int)
    requires
        0 <= o < c.code.len(),
        disasm_wf(c, o),
    ensures
        (match OpCode::spec_from_u8(c.code[o]) {
            Option::Some(op) => spec_next_offset(c, o) == o + op.width(),
            Option::None => spec_next_offset(c, o) == o + 1,
        }),
{
}

} // verus!
