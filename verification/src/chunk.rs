//! The bytecode container: an append-only sequence of instruction bytes, a
//! parallel line-number table (one entry per byte), and a constant pool. The
//! compiler writes a chunk; the virtual machine and the disassembler read it.

use vstd::prelude::*;

use crate::error::Error;
use crate::value::Value;

verus! {

pub const OP_CONSTANT: u8 = 0;

pub const OP_ADD: u8 = 1;

pub const OP_SUBTRACT: u8 = 2;

pub const OP_MULTIPLY: u8 = 3;

pub const OP_DIVIDE: u8 = 4;

pub const OP_NEGATE: u8 = 5;

pub const OP_RETURN: u8 = 6;

/// One instruction tag. `OpConstant` takes one trailing operand byte, a
/// zero-based index into the chunk's constant pool; all other opcodes are
/// zero-operand.
#[derive(Debug, Clone, Copy, PartialEq, Eq, Structural)]
pub enum OpCode {
    OpConstant,
    OpAdd,
    OpSubtract,
    OpMultiply,
    OpDivide,
    OpNegate,
    OpReturn,
}

/// The one-byte tag that encodes each opcode.
pub open spec fn op_byte(op: OpCode) -> u8 {
    match op {
        OpCode::OpConstant => OP_CONSTANT,
        OpCode::OpAdd => OP_ADD,
        OpCode::OpSubtract => OP_SUBTRACT,
        OpCode::OpMultiply => OP_MULTIPLY,
        OpCode::OpDivide => OP_DIVIDE,
        OpCode::OpNegate => OP_NEGATE,
        OpCode::OpReturn => OP_RETURN,
    }
}

/// The opcode that a byte decodes to.
pub open spec fn op_of_byte(value: u8) -> OpCode
    recommends
        value <= OP_RETURN,
{
    if value == OP_CONSTANT {
        OpCode::OpConstant
    } else if value == OP_ADD {
        OpCode::OpAdd
    } else if value == OP_SUBTRACT {
        OpCode::OpSubtract
    } else if value == OP_MULTIPLY {
        OpCode::OpMultiply
    } else if value == OP_DIVIDE {
        OpCode::OpDivide
    } else if value == OP_NEGATE {
        OpCode::OpNegate
    } else {
        OpCode::OpReturn
    }
}

impl OpCode {
    /// Decode a byte. A byte outside the opcode range is a distinct,
    /// reportable error, never undefined behaviour.
    pub fn try_from(value: u8) -> (r: Result<OpCode, Error>)
        ensures
            value <= OP_RETURN ==> r == Ok::<OpCode, Error>(op_of_byte(value)),
            value > OP_RETURN ==> r == Err::<OpCode, Error>(Error::InvalidOpCode(value)),
    {
        match value {
            0 => Ok(OpCode::OpConstant),
            1 => Ok(OpCode::OpAdd),
            2 => Ok(OpCode::OpSubtract),
            3 => Ok(OpCode::OpMultiply),
            4 => Ok(OpCode::OpDivide),
            5 => Ok(OpCode::OpNegate),
            6 => Ok(OpCode::OpReturn),
            _ => Err(Error::InvalidOpCode(value)),
        }
    }

    /// The byte that encodes this opcode.
    pub fn as_byte(self) -> (r: u8)
        ensures
            r == op_byte(self),
    {
        match self {
            OpCode::OpConstant => OP_CONSTANT,
            OpCode::OpAdd => OP_ADD,
            OpCode::OpSubtract => OP_SUBTRACT,
            OpCode::OpMultiply => OP_MULTIPLY,
            OpCode::OpDivide => OP_DIVIDE,
            OpCode::OpNegate => OP_NEGATE,
            OpCode::OpReturn => OP_RETURN,
        }
    }
}

/// One decoded instruction, operand included.
#[derive(Debug, Clone, Copy, PartialEq, Eq, Structural)]
pub enum Instr {
    Constant(u8),
    Add,
    Subtract,
    Multiply,
    Divide,
    Negate,
    Return,
}

/// The instruction that a zero-operand opcode byte decodes to.
pub open spec fn simple_instr(b: u8) -> Instr
    recommends
        OP_ADD <= b <= OP_RETURN,
{
    if b == OP_ADD {
        Instr::Add
    } else if b == OP_SUBTRACT {
        Instr::Subtract
    } else if b == OP_MULTIPLY {
        Instr::Multiply
    } else if b == OP_DIVIDE {
        Instr::Divide
    } else if b == OP_NEGATE {
        Instr::Negate
    } else {
        Instr::Return
    }
}

/// The byte sequence decodes cleanly into instructions: every byte in opcode
/// position is a known opcode, and every `OP_CONSTANT` has its operand byte.
pub open spec fn decodes(code: Seq<u8>) -> bool
    decreases code.len(),
{
    if code.len() == 0 {
        true
    } else if code[0] == OP_CONSTANT {
        code.len() >= 2 && decodes(code.skip(2))
    } else if OP_ADD <= code[0] <= OP_RETURN {
        decodes(code.skip(1))
    } else {
        false
    }
}

/// The instructions that a cleanly decoding byte sequence holds, in order.
pub open spec fn decoded(code: Seq<u8>) -> Seq<Instr>
    recommends
        decodes(code),
    decreases code.len(),
{
    if code.len() == 0 {
        Seq::empty()
    } else if code[0] == OP_CONSTANT {
        if code.len() >= 2 {
            seq![Instr::Constant(code[1])] + decoded(code.skip(2))
        } else {
            Seq::empty()
        }
    } else if OP_ADD <= code[0] <= OP_RETURN {
        seq![simple_instr(code[0])] + decoded(code.skip(1))
    } else {
        Seq::empty()
    }
}

/// Every constant operand indexes into a pool of `n` values.
pub open spec fn operands_in_range(instrs: Seq<Instr>, n: int) -> bool {
    forall|i: int|
        0 <= i < instrs.len() ==> (#[trigger] instrs[i] matches Instr::Constant(k) ==> k < n)
}

/// Decoding distributes over concatenation of cleanly decoding sequences.
pub proof fn lemma_decoded_append(a: Seq<u8>, b: Seq<u8>)
    requires
        decodes(a),
        decodes(b),
    ensures
        decodes(a + b),
        decoded(a + b) == decoded(a) + decoded(b),
    decreases a.len(),
{
    if a.len() == 0 {
        assert(a + b == b);
        assert(decoded(a) + decoded(b) == decoded(b));
    } else if a[0] == OP_CONSTANT {
        lemma_decoded_append(a.skip(2), b);
        assert((a + b).skip(2) == a.skip(2) + b);
        assert(decoded(a + b) == decoded(a) + decoded(b));
    } else {
        lemma_decoded_append(a.skip(1), b);
        assert((a + b).skip(1) == a.skip(1) + b);
        assert(decoded(a + b) == decoded(a) + decoded(b));
    }
}


/// Appending one zero-operand opcode appends its instruction.
pub proof fn lemma_decode_push_simple(code: Seq<u8>, b: u8)
    requires
        decodes(code),
        OP_ADD <= b <= OP_RETURN,
    ensures
        decodes(code.push(b)),
        decoded(code.push(b)) == decoded(code).push(simple_instr(b)),
{
    let one = seq![b];
    assert(one.skip(1) =~= Seq::<u8>::empty());
    assert(decodes(Seq::<u8>::empty()));
    assert(decoded(Seq::<u8>::empty()) == Seq::<Instr>::empty());
    assert(decodes(one));
    assert(decoded(one) =~= seq![simple_instr(b)]);
    lemma_decoded_append(code, one);
    assert(code.push(b) =~= code + one);
    assert(decoded(code).push(simple_instr(b)) =~= decoded(code) + decoded(one));
}

/// Appending a constant opcode and its operand byte appends one `Constant`
/// instruction.
pub proof fn lemma_decode_push_constant(code: Seq<u8>, k: u8)
    requires
        decodes(code),
    ensures
        decodes(code.push(OP_CONSTANT).push(k)),
        decoded(code.push(OP_CONSTANT).push(k)) == decoded(code).push(Instr::Constant(k)),
{
    let two = seq![OP_CONSTANT, k];
    assert(two.skip(2) =~= Seq::<u8>::empty());
    assert(decodes(Seq::<u8>::empty()));
    assert(decoded(Seq::<u8>::empty()) == Seq::<Instr>::empty());
    assert(decodes(two));
    assert(decoded(two) =~= seq![Instr::Constant(k)]);
    lemma_decoded_append(code, two);
    assert(code.push(OP_CONSTANT).push(k) =~= code + two);
    assert(decoded(code).push(Instr::Constant(k)) =~= decoded(code) + decoded(two));
}

/// `k` negation opcodes in a row.
pub open spec fn neg_bytes(k: nat) -> Seq<u8>
    decreases k,
{
    if k == 0 {
        Seq::empty()
    } else {
        seq![OP_NEGATE] + neg_bytes((k - 1) as nat)
    }
}

/// A row of negation opcodes holds exactly negation opcodes.
pub proof fn lemma_neg_bytes(k: nat)
    ensures
        neg_bytes(k).len() == k,
        forall|i: int| 0 <= i < k ==> neg_bytes(k)[i] == OP_NEGATE,
    decreases k,
{
    if k > 0 {
        lemma_neg_bytes((k - 1) as nat);
        assert forall|i: int| 0 <= i < k implies neg_bytes(k)[i] == OP_NEGATE by {
            if i == 0 {
                assert((seq![OP_NEGATE] + neg_bytes((k - 1) as nat))[0] == OP_NEGATE);
            } else {
                assert((seq![OP_NEGATE] + neg_bytes((k - 1) as nat))[i] == neg_bytes(
                    (k - 1) as nat,
                )[i - 1]);
            }
        }
    }
}

/// Appending one more negation to a constant-then-negations code shape.
pub proof fn lemma_code_push_negate(code: Seq<u8>, idx: u8, k: nat)
    ensures
        (code + seq![OP_CONSTANT, idx] + neg_bytes(k)).push(OP_NEGATE) == code + seq![
            OP_CONSTANT,
            idx,
        ] + neg_bytes((k + 1) as nat),
{
    lemma_neg_bytes(k);
    lemma_neg_bytes((k + 1) as nat);
    let a = code + seq![OP_CONSTANT, idx];
    let lhs = (a + neg_bytes(k)).push(OP_NEGATE);
    let rhs = a + neg_bytes((k + 1) as nat);
    assert(lhs.len() == rhs.len());
    assert forall|i: int| 0 <= i < lhs.len() implies lhs[i] == rhs[i] by {
        if i < a.len() + k {
            assert((a + neg_bytes(k)).push(OP_NEGATE)[i] == (a + neg_bytes(k))[i]);
        }
        if i < a.len() {
            assert((a + neg_bytes(k))[i] == a[i]);
            assert((a + neg_bytes((k + 1) as nat))[i] == a[i]);
        } else if i < a.len() + k {
            assert((a + neg_bytes(k))[i] == neg_bytes(k)[i - a.len()]);
            assert((a + neg_bytes((k + 1) as nat))[i] == neg_bytes((k + 1) as nat)[i - a.len()]);
        } else {
            assert((a + neg_bytes(k)).push(OP_NEGATE)[i] == OP_NEGATE);
            assert((a + neg_bytes((k + 1) as nat))[i] == neg_bytes((k + 1) as nat)[i - a.len()]);
        }
    }
    assert(lhs =~= rhs);
}

/// Appending the final return to a constant-then-negations code shape.
pub proof fn lemma_code_push_return(code: Seq<u8>, idx: u8, k: nat)
    ensures
        (code + seq![OP_CONSTANT, idx] + neg_bytes(k)).push(OP_RETURN) == code + seq![
            OP_CONSTANT,
            idx,
        ] + neg_bytes(k) + seq![OP_RETURN],
{
    lemma_neg_bytes(k);
    let b = code + seq![OP_CONSTANT, idx] + neg_bytes(k);
    let lhs = b.push(OP_RETURN);
    let rhs = b + seq![OP_RETURN];
    assert(lhs.len() == rhs.len());
    assert forall|i: int| 0 <= i < lhs.len() implies lhs[i] == rhs[i] by {
        if i < b.len() {
            assert(b.push(OP_RETURN)[i] == b[i]);
            assert((b + seq![OP_RETURN])[i] == b[i]);
        } else {
            assert(b.push(OP_RETURN)[i] == OP_RETURN);
            assert((b + seq![OP_RETURN])[i] == seq![OP_RETURN][0]);
        }
    }
    assert(lhs =~= rhs);
}

/// A chunk of bytecode: instruction bytes, a line number for each byte, and
/// the constant pool. Built incrementally, append-only, during compilation.
#[derive(Debug, PartialEq, Eq)]
pub struct Chunk {
    pub code: Vec<u8>,
    pub constants: Vec<Value>,
    pub lines: Vec<usize>,
}

impl Chunk {
    /// The line table runs parallel to the instruction bytes.
    pub open spec fn wf(self) -> bool {
        self.lines@.len() == self.code@.len()
    }

    pub fn new() -> (c: Chunk)
        ensures
            c.code@ == Seq::<u8>::empty(),
            c.constants@ == Seq::<Value>::empty(),
            c.lines@ == Seq::<usize>::empty(),
            c.wf(),
    {
        Chunk { code: Vec::new(), constants: Vec::new(), lines: Vec::new() }
    }

    /// Append one byte (an opcode or an operand), recording the source line
    /// it came from.
    pub fn write(&mut self, op_code: u8, line_no: usize)
        ensures
            final(self).code@ == old(self).code@.push(op_code),
            final(self).lines@ == old(self).lines@.push(line_no),
            final(self).constants@ == old(self).constants@,
    {
        self.code.push(op_code);
        self.lines.push(line_no);
    }

    /// Append a value to the constant pool and return its index.
    pub fn add_constant(&mut self, value: Value) -> (index: usize)
        ensures
            final(self).constants@ == old(self).constants@.push(value),
            index == old(self).constants@.len(),
            final(self).code@ == old(self).code@,
            final(self).lines@ == old(self).lines@,
    {
        self.constants.push(value);
        self.constants.len() - 1
    }

    /// The byte at the given index.
    pub fn get(&self, index: usize) -> (b: u8)
        requires
            index < self.code@.len(),
        ensures
            b == self.code@[index as int],
    {
        self.code[index]
    }
}

impl Default for Chunk {
    fn default() -> (c: Self)
        ensures
            c.code@ == Seq::<u8>::empty(),
            c.constants@ == Seq::<Value>::empty(),
            c.lines@ == Seq::<usize>::empty(),
    {
        Chunk::new()
    }
}

} // verus!
