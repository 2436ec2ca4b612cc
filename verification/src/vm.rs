//! Virtual machine state.
//!
//! `LoxVm` interprets a chunk's bytecode against a fixed-capacity value
//! stack. The meaning of execution is given by the specification
//! interpreter `spec_run`, and `interpret` is proved to return exactly what
//! `spec_run` says. Inputs on which `spec_run` reaches a programmer error
//! (`Fatal`: unknown opcode, truncated operand, stack overflow or
//! underflow) are excluded by precondition: this VM never panics.
use crate::chunk::Chunk;
use crate::chunk::ConstantIndex;
use crate::error::LoxError;
use crate::opcode::OpCode;
use crate::util;
use crate::value::Value;
use crate::value::spec_add;
use crate::value::spec_div;
use crate::value::spec_mul;
use crate::value::spec_neg;
use crate::value::spec_sub;
use vstd::prelude::*;

verus! {

/// Capacity of the value stack.
pub const STACK_MAX: usize = 256;

/// What executing a chunk from a given state yields.
pub ghost enum ExecOutcome {
    /// Execution reached a `Return` opcode or the end of the code; the
    /// value is the stack top at that point, or `Null` if the stack was
    /// empty.
    Done(Value),
    /// Arithmetic was dispatched on a non-`Float` operand.
    TypeError,
    /// Execution hit a programmer error: an unknown opcode, an operand
    /// read past the end of the code, or stack overflow.
    Fatal,
}

/// The value execution terminates with: the stack top, or `Null` for an
/// empty stack.
pub open spec fn terminal_value(stack: Seq<Value>) -> Value {
    if stack.len() == 0 {
        Value::Null
    } else {
        stack.last()
    }
}

/// The result of a binary arithmetic opcode on two operands.
pub open spec fn spec_binop(op: OpCode, a: Value, b: Value) -> Value {
    match op {
        OpCode::Add => spec_add(a, b),
        OpCode::Subtract => spec_sub(a, b),
        OpCode::Multiply => spec_mul(a, b),
        OpCode::Divide => spec_div(a, b),
        _ => Value::Error,
    }
}

/// The specification interpreter: one step per instruction, from byte
/// offset `ip` with the given stack, until a `Return` executes or `ip`
/// reaches the end of the code.
pub open spec fn spec_run(
    code: Seq<u8>,
    constants: Seq<Value>,
    stack: Seq<Value>,
    ip: nat,
) -> ExecOutcome
    decreases code.len() - ip,
{
    if ip >= code.len() {
        ExecOutcome::Done(terminal_value(stack))
    } else {
        match OpCode::spec_from_u8(code[ip as int]) {
            Option::None => ExecOutcome::Fatal,
            Option::Some(op) => match op {
                OpCode::NoOp => spec_run(code, constants, stack, (ip + 1) as nat),
                OpCode::Return => ExecOutcome::Done(terminal_value(stack)),
                OpCode::Constant => {
                    if ip + 1 >= code.len() || stack.len() >= STACK_MAX {
                        ExecOutcome::Fatal
                    } else {
                        let index = code[ip as int + 1] as int;
                        let constant = if index < constants.len() {
                            constants[index]
                        } else {
                            Value::Null
                        };
                        spec_run(code, constants, stack.push(constant), (ip + 2) as nat)
                    }
                }
                OpCode::ConstantLong => {
                    if ip + 3 >= code.len() || stack.len() >= STACK_MAX {
                        ExecOutcome::Fatal
                    } else {
                        let index = (code[ip as int + 1] as int) * 0x10000 + (code[ip as int + 2] as int)
                            * 0x100 + (code[ip as int + 3] as int);
                        let constant = if index < constants.len() {
                            constants[index]
                        } else {
                            Value::Null
                        };
                        spec_run(code, constants, stack.push(constant), (ip + 4) as nat)
                    }
                }
                OpCode::Negate => {
                    if stack.len() == 0 {
                        ExecOutcome::Fatal
                    } else {
                        let result = spec_neg(stack.last());
                        if result is Error {
                            ExecOutcome::TypeError
                        } else {
                            spec_run(
                                code,
                                constants,
                                stack.drop_last().push(result),
                                (ip + 1) as nat,
                            )
                        }
                    }
                }
                _ => {
                    if stack.len() < 2 {
                        ExecOutcome::Fatal
                    } else {
                        let b = stack.last();
                        let a = stack[stack.len() - 2];
                        let result = spec_binop(op, a, b);
                        if result is Error {
                            ExecOutcome::TypeError
                        } else {
                            spec_run(
                                code,
                                constants,
                                stack.drop_last().drop_last().push(result),
                                (ip + 1) as nat,
                            )
                        }
                    }
                }
            },
        }
    }
}

/// The execution engine: a fixed-capacity value stack, an instruction
/// pointer, and the chunk being interpreted.
pub struct LoxVm {
    chunk: Chunk,
    ip: usize,
    /// Index to the element just past the top element in the value stack.
    top: usize,
    stack: Vec<Value>,
}

impl LoxVm {
    /// The live portion of the value stack, bottom first.
    pub closed spec fn stack_view(self) -> Seq<Value> {
        self.stack@.take(self.top as int)
    }

    /// The chunk currently owned by the VM.
    pub closed spec fn chunk_view(self) -> crate::chunk::ChunkView {
        self.chunk@
    }

    pub closed spec fn spec_ip(self) -> nat {
        self.ip as nat
    }

    /// The stack storage always holds `STACK_MAX` slots, the top cursor
    /// stays within them, and the instruction pointer stays within the
    /// code.
    pub closed spec fn wf(self) -> bool {
        &&& self.chunk.wf()
        &&& self.stack@.len() == STACK_MAX
        &&& self.top <= STACK_MAX
        &&& self.ip <= self.chunk@.code.len()
    }

    /// What executing from the VM's current state yields.
    pub open spec fn spec_outcome(self) -> ExecOutcome {
        spec_run(
            self.chunk_view().code,
            self.chunk_view().constants,
            self.stack_view(),
            self.spec_ip(),
        )
    }

    pub fn new() -> (vm: LoxVm)
        ensures
            vm.wf(),
            vm.spec_ip() == 0,
            vm.stack_view() == Seq::<Value>::empty(),
            vm.chunk_view().code.len() == 0,
    {
        let vm = LoxVm {
            chunk: Chunk::new(),
            ip: 0,
            top: 0,
            stack: util::array_init(|| Value::Null, STACK_MAX),
        };
        proof {
            assert(vm.stack_view() =~= Seq::<Value>::empty());
        }
        vm
    }

    #[inline]
    fn push(&mut self, value: Value)
        requires
            old(self).wf(),
            old(self).top < STACK_MAX,
        ensures
            final(self).wf(),
            final(self).stack_view() == old(self).stack_view().push(value),
            final(self).chunk_view() == old(self).chunk_view(),
            final(self).spec_ip() == old(self).spec_ip(),
            final(self).top == old(self).top + 1,
    {
        // The top index points just past the top element.
        self.stack.set(self.top, value);
        self.top = self.top + 1;
        proof {
            assert(self.stack_view() =~= old(self).stack_view().push(value));
        }
    }

    #[inline]
    fn pop(&mut self) -> (value: Value)
        requires
            old(self).wf(),
            old(self).top > 0,
        ensures
            final(self).wf(),
            value == old(self).stack_view().last(),
            final(self).stack_view() == old(self).stack_view().drop_last(),
            final(self).chunk_view() == old(self).chunk_view(),
            final(self).spec_ip() == old(self).spec_ip(),
            final(self).top == old(self).top - 1,
    {
        self.top = self.top - 1;
        let value = self.stack[self.top];
        proof {
            assert(self.stack_view() =~= old(self).stack_view().drop_last());
        }
        value
    }

    /// Pop tolerant of an empty stack: yields `Null` there instead.
    #[inline]
    fn try_pop(&mut self) -> (value: Value)
        requires
            old(self).wf(),
        ensures
            final(self).wf(),
            value == terminal_value(old(self).stack_view()),
    {
        if self.top >= 1 {
            self.pop()
        } else {
            Value::Null
        }
    }

    /// Read the byte at the instruction pointer and advance past it.
    #[inline(always)]
    fn get_byte(&mut self) -> (byte: u8)
        requires
            old(self).wf(),
            old(self).spec_ip() < old(self).chunk_view().code.len(),
        ensures
            final(self).wf(),
            byte == old(self).chunk_view().code[old(self).spec_ip() as int],
            final(self).spec_ip() == old(self).spec_ip() + 1,
            final(self).chunk_view() == old(self).chunk_view(),
            final(self).stack_view() == old(self).stack_view(),
            final(self).top == old(self).top,
    {
        proof {
            self.chunk.lemma_code_len();
        }
        let byte = self.chunk.get_byte(self.ip);
        self.ip = self.ip + 1;
        byte
    }

    /// Read the three bytes at the instruction pointer, in order, and
    /// advance past them.
    fn get_3bytes(&mut self) -> (bytes: (u8, u8, u8))
        requires
            old(self).wf(),
            old(self).spec_ip() + 3 <= old(self).chunk_view().code.len(),
        ensures
            final(self).wf(),
            bytes.0 == old(self).chunk_view().code[old(self).spec_ip() as int],
            bytes.1 == old(self).chunk_view().code[old(self).spec_ip() as int + 1],
            bytes.2 == old(self).chunk_view().code[old(self).spec_ip() as int + 2],
            final(self).spec_ip() == old(self).spec_ip() + 3,
            final(self).chunk_view() == old(self).chunk_view(),
            final(self).stack_view() == old(self).stack_view(),
            final(self).top == old(self).top,
    {
        proof {
            self.chunk.lemma_code_len();
        }
        let x = self.chunk.get_byte(self.ip);
        let y = self.chunk.get_byte(self.ip + 1);
        let z = self.chunk.get_byte(self.ip + 2);
        self.ip = self.ip + 3;
        (x, y, z)
    }

    /// Whether the instruction pointer is at the end of the chunk.
    fn at_end(&self) -> (r: bool)
        ensures
            r == (self.spec_ip() >= self.chunk_view().code.len()),
    {
        self.ip >= self.chunk.len()
    }

    /// Interpret a chunk's bytecode to produce a single result value.
    ///
    /// Takes ownership of the chunk, resets the instruction pointer and
    /// the stack, and runs the dispatch loop until a `Return` executes or
    /// the instruction pointer reaches the end of the code; returns the
    /// value then on top of the stack, or `Null` for an empty stack.
    /// Returns a type error exactly when the specification interpreter
    /// says arithmetic hit a non-`Float` operand.
    pub fn interpret(&mut self, chunk: Chunk) -> (result: Result<Value, LoxError>)
        requires
            old(self).wf(),
            chunk.wf(),
            !(spec_run(chunk@.code, chunk@.constants, Seq::<Value>::empty(), 0) is Fatal),
        ensures
            final(self).wf(),
            ({
                let outcome = spec_run(chunk@.code, chunk@.constants, Seq::<Value>::empty(), 0);
                match result {
                    Ok(value) => outcome == ExecOutcome::Done(value),
                    Err(e) => e == LoxError::TypeError && outcome is TypeError,
                }
            }),
    {
        self.chunk = chunk;
        self.ip = 0;
        self.top = 0;
        proof {
            assert(self.stack_view() =~= Seq::<Value>::empty());
        }
        if self.chunk.len() > 0 {
            self.run()
        } else {
            Ok(Value::Null)
        }
    }

    #[verifier::loop_isolation(false)]
    fn run(&mut self) -> (result: Result<Value, LoxError>)
        requires
            old(self).wf(),
            !(old(self).spec_outcome() is Fatal),
        ensures
            final(self).wf(),
            ({
                let outcome = old(self).spec_outcome();
                match result {
                    Ok(value) => outcome == ExecOutcome::Done(value),
                    Err(e) => e == LoxError::TypeError && outcome is TypeError,
                }
            }),
    {
        loop
            invariant
                self.wf(),
                self.spec_outcome() == old(self).spec_outcome(),
            decreases self.chunk_view().code.len() - self.spec_ip(),
        {
            if self.at_end() {
                let value = self.try_pop();
                return Ok(value);
            }
            let byte = self.get_byte();
            match OpCode::from_u8(byte) {
                Option::None => {
                    // Unknown opcodes are fatal during mandatory decode,
                    // and fatal outcomes are excluded by precondition.
                    return unreached();
                }
                Option::Some(op) => match op {
                    OpCode::NoOp => {}
                    OpCode::Return => {
                        let value = self.try_pop();
                        return Ok(value);
                    }
                    OpCode::Constant => {
                        let operand = self.get_byte();
                        let index = ConstantIndex::from_u8(operand);
                        let constant = match self.chunk.get_contant(index) {
                            Option::Some(value) => value,
                            Option::None => Value::Null,
                        };
                        self.push(constant);
                    }
                    OpCode::ConstantLong => {
                        let (x, y, z) = self.get_3bytes();
                        let index = ConstantIndex::from_parts(x, y, z);
                        let constant = match self.chunk.get_contant(index) {
                            Option::Some(value) => value,
                            Option::None => Value::Null,
                        };
                        self.push(constant);
                    }
                    OpCode::Negate => {
                        let a = self.pop();
                        match a.neg() {
                            Value::Error => {
                                return Err(LoxError::TypeError);
                            }
                            value => {
                                self.push(value);
                            }
                        }
                    }
                    OpCode::Add => {
                        let b = self.pop();
                        let a = self.pop();
                        match a.add(b) {
                            Value::Error => {
                                return Err(LoxError::TypeError);
                            }
                            value => {
                                self.push(value);
                            }
                        }
                    }
                    OpCode::Subtract => {
                        let b = self.pop();
                        let a = self.pop();
                        match a.sub(b) {
                            Value::Error => {
                                return Err(LoxError::TypeError);
                            }
                            value => {
                                self.push(value);
                            }
                        }
                    }
                    OpCode::Multiply => {
                        let b = self.pop();
                        let a = self.pop();
                        match a.mul(b) {
                            Value::Error => {
                                return Err(LoxError::TypeError);
                            }
                            value => {
                                self.push(value);
                            }
                        }
                    }
                    OpCode::Divide => {
                        let b = self.pop();
                        let a = self.pop();
                        match a.div(b) {
                            Value::Error => {
                                return Err(LoxError::TypeError);
                            }
                            value => {
                                self.push(value);
                            }
                        }
                    }
                },
            }
        }
    }
}

/// A constant written with `add_constant` and loaded back with a short
/// `Constant` instruction is produced on the stack top: executing
/// `Constant i; Return` over the extended pool, where `i` is the
/// pre-insertion count, yields exactly the added value.
pub proof fn lemma_constant_round_trip(constants: Seq<Value>, value: Value)
    requires
        constants.len() < 256,
    ensures
        ({
            let pool = constants.push(value);
            let code = seq![
                OpCode::Constant.spec_to_u8(),
                constants.len() as u8,
                OpCode::Return.spec_to_u8(),
            ];
            spec_run(code, pool, Seq::<Value>::empty(), 0) == ExecOutcome::Done(value)
        }),
{
    let pool = constants.push(value);
    let code = seq![
        OpCode::Constant.spec_to_u8(),
        constants.len() as u8,
        OpCode::Return.spec_to_u8(),
    ];
    let stack1 = Seq::<Value>::empty().push(value);
    assert(pool[constants.len() as u8 as int] == value);
    assert(spec_run(code, pool, Seq::<Value>::empty(), 0) == spec_run(code, pool, stack1, 2));
    assert(spec_run(code, pool, stack1, 2) == ExecOutcome::Done(value));
}

} // verus!
