//! The disassembler: a pure, read-only rendering of a chunk's instructions
//! into structured lines, one per instruction, in order. A caller that wants
//! text prints these lines; nothing here is required for correctness, and
//! nothing here can loop forever: an unknown opcode advances by one byte.

use vstd::prelude::*;

use crate::chunk::{decoded, decodes, op_of_byte, operands_in_range, Chunk, Instr, OpCode,
    OP_ADD, OP_CONSTANT, OP_RETURN};
use crate::value::Value;

verus! {

/// What one disassembled instruction shows: a zero-operand mnemonic, a
/// constant reference with its operand byte and the pooled value it points
/// at (none when the index is out of range), an unknown opcode byte, or a
/// constant opcode cut off by the end of the chunk.
#[derive(Debug, Clone, Copy, PartialEq, Eq)]
pub enum InstrInfo {
    Simple(OpCode),
    ConstantRef(u8, Option<Value>),
    Unknown(u8),
    Truncated,
}

/// One line of a disassembly: the byte offset, the source line, whether that
/// line repeats the previous instruction's (shown blank then), and the
/// instruction itself.
#[derive(Debug, Clone, Copy, PartialEq, Eq)]
pub struct InstrLine {
    pub offset: usize,
    pub line: usize,
    pub repeats_line: bool,
    pub info: InstrInfo,
}

/// The line shown for the instruction at `offset`.
pub open spec fn spec_instr_line(
    code: Seq<u8>,
    consts: Seq<Value>,
    lines: Seq<usize>,
    offset: int,
) -> InstrLine
    recommends
        0 <= offset < code.len(),
        lines.len() == code.len(),
{
    let b = code[offset];
    let info = if b == OP_CONSTANT {
        if offset + 1 < code.len() {
            InstrInfo::ConstantRef(
                code[offset + 1],
                if code[offset + 1] < consts.len() {
                    Some(consts[code[offset + 1] as int])
                } else {
                    Option::<Value>::None
                },
            )
        } else {
            InstrInfo::Truncated
        }
    } else if OP_ADD <= b <= OP_RETURN {
        InstrInfo::Simple(op_of_byte(b))
    } else {
        InstrInfo::Unknown(b)
    };
    InstrLine {
        offset: offset as usize,
        line: lines[offset],
        repeats_line: offset > 0 && lines[offset] == lines[offset - 1],
        info,
    }
}

/// How many bytes the instruction at `offset` occupies in the display: two
/// for a complete constant instruction, one for everything else.
pub open spec fn spec_instr_width(code: Seq<u8>, offset: int) -> int
    recommends
        0 <= offset < code.len(),
{
    if code[offset] == OP_CONSTANT && offset + 1 < code.len() {
        2
    } else {
        1
    }
}

/// Every instruction line from `offset` to the end of the chunk, in order.
pub open spec fn spec_disassembly(
    code: Seq<u8>,
    consts: Seq<Value>,
    lines: Seq<usize>,
    offset: int,
) -> Seq<InstrLine>
    recommends
        lines.len() == code.len(),
    decreases code.len() - offset,
{
    if offset < 0 || offset >= code.len() {
        Seq::empty()
    } else {
        seq![spec_instr_line(code, consts, lines, offset)] + spec_disassembly(
            code,
            consts,
            lines,
            offset + spec_instr_width(code, offset),
        )
    }
}

/// Decode exactly one instruction for display: its line, and the offset of
/// the next instruction. The offset must point into the chunk; the caller
/// that walks a whole chunk stops at its end, so no off-the-end notice is
/// produced here. A constant opcode cut off by the end of the chunk is shown
/// as `Truncated` and advances one byte — never past the end.
pub fn dissassemble_instruction(chunk: &Chunk, offset: usize) -> (r: (usize, InstrLine))
    requires
        chunk.wf(),
        offset < chunk.code@.len(),
    ensures
        r.1 == spec_instr_line(chunk.code@, chunk.constants@, chunk.lines@, offset as int),
        r.0 == offset + spec_instr_width(chunk.code@, offset as int),
        offset < r.0 <= chunk.code@.len() + 1,
{
    let n = chunk.code.len();
    let b = chunk.get(offset);
    let line = chunk.lines[offset];
    let repeats_line = offset > 0 && chunk.lines[offset] == chunk.lines[offset - 1];
    if b == OP_CONSTANT && offset + 1 < n {
        let operand = chunk.get(offset + 1);
        let value = if (operand as usize) < chunk.constants.len() {
            Some(chunk.constants[operand as usize])
        } else {
            None
        };
        (offset + 2, InstrLine { offset, line, repeats_line, info: InstrInfo::ConstantRef(operand, value) })
    } else if b == OP_CONSTANT {
        (offset + 1, InstrLine { offset, line, repeats_line, info: InstrInfo::Truncated })
    } else if b <= OP_RETURN {
        let op = match OpCode::try_from(b) {
            Ok(op) => op,
            Err(_) => OpCode::OpReturn,
        };
        (offset + 1, InstrLine { offset, line, repeats_line, info: InstrInfo::Simple(op) })
    } else {
        (offset + 1, InstrLine { offset, line, repeats_line, info: InstrInfo::Unknown(b) })
    }
}

/// Render every instruction of a chunk, first to last.
#[verifier::loop_isolation(false)]
pub fn dissassemble_chunk(chunk: &Chunk) -> (r: Vec<InstrLine>)
    requires
        chunk.wf(),
    ensures
        r@ == spec_disassembly(chunk.code@, chunk.constants@, chunk.lines@, 0),
{
    let mut out: Vec<InstrLine> = Vec::new();
    let mut offset: usize = 0;
    while offset < chunk.code.len()
        invariant
            offset <= chunk.code@.len() + 1,
            spec_disassembly(chunk.code@, chunk.constants@, chunk.lines@, 0) == out@
                + spec_disassembly(chunk.code@, chunk.constants@, chunk.lines@, offset as int),
        decreases chunk.code@.len() - offset,
    {
        let ghost out0 = out@;
        let ghost off0 = offset as int;
        let (next, line) = dissassemble_instruction(chunk, offset);
        out.push(line);
        offset = next;
        proof {
            assert(spec_disassembly(chunk.code@, chunk.constants@, chunk.lines@, off0) == seq![
                spec_instr_line(chunk.code@, chunk.constants@, chunk.lines@, off0),
            ] + spec_disassembly(chunk.code@, chunk.constants@, chunk.lines@, offset as int));
            assert(out@ + spec_disassembly(chunk.code@, chunk.constants@, chunk.lines@, offset as int)
                =~= out0 + spec_disassembly(chunk.code@, chunk.constants@, chunk.lines@, off0));
        }
    }
    proof {
        assert(out@ + spec_disassembly(chunk.code@, chunk.constants@, chunk.lines@, offset as int)
            =~= out@);
    }
    out
}

/// The display of one decoded instruction, its constant operand resolved in
/// the pool.
pub open spec fn instr_info_of(instr: Instr, consts: Seq<Value>) -> InstrInfo {
    match instr {
        Instr::Constant(k) => InstrInfo::ConstantRef(
            k,
            if k < consts.len() {
                Some(consts[k as int])
            } else {
                Option::<Value>::None
            },
        ),
        Instr::Add => InstrInfo::Simple(OpCode::OpAdd),
        Instr::Subtract => InstrInfo::Simple(OpCode::OpSubtract),
        Instr::Multiply => InstrInfo::Simple(OpCode::OpMultiply),
        Instr::Divide => InstrInfo::Simple(OpCode::OpDivide),
        Instr::Negate => InstrInfo::Simple(OpCode::OpNegate),
        Instr::Return => InstrInfo::Simple(OpCode::OpReturn),
    }
}

/// Disassembling a cleanly decoding chunk lists exactly its decoded
/// instructions, in order: each constant instruction shows its operand byte
/// and the pooled value it references, every other instruction its mnemonic.
/// With the compiler's guarantee that a compiled chunk decodes cleanly, this
/// is the round trip from emission to display.
pub proof fn lemma_disassembly_lists_decoded(
    code: Seq<u8>,
    consts: Seq<Value>,
    lines: Seq<usize>,
    offset: int,
)
    requires
        decodes(code.skip(offset)),
        lines.len() == code.len(),
        0 <= offset <= code.len(),
    ensures
        ({
            let shown = spec_disassembly(code, consts, lines, offset);
            let instrs = decoded(code.skip(offset));
            &&& shown.len() == instrs.len()
            &&& forall|i: int|
                0 <= i < instrs.len() ==> (#[trigger] shown[i].info) == instr_info_of(
                    instrs[i],
                    consts,
                )
        }),
    decreases code.len() - offset,
{
    let tail = code.skip(offset);
    if offset < code.len() {
        let b = code[offset];
        assert(tail[0] == b);
        if b == OP_CONSTANT {
            assert(tail.len() >= 2);
            assert(tail[1] == code[offset + 1]);
            assert(tail.skip(2) =~= code.skip(offset + 2));
            lemma_disassembly_lists_decoded(code, consts, lines, offset + 2);
            let shown = spec_disassembly(code, consts, lines, offset);
            let instrs = decoded(tail);
            let shown_rest = spec_disassembly(code, consts, lines, offset + 2);
            let instrs_rest = decoded(code.skip(offset + 2));
            assert(spec_instr_width(code, offset) == 2);
            assert(shown == seq![spec_instr_line(code, consts, lines, offset)] + shown_rest);
            assert(instrs == seq![Instr::Constant(code[offset + 1])] + instrs_rest);
            assert forall|i: int| 0 <= i < instrs.len() implies (#[trigger] shown[i].info)
                == instr_info_of(instrs[i], consts) by {
                if i == 0 {
                    assert(shown[0] == spec_instr_line(code, consts, lines, offset));
                    assert(instrs[0] == Instr::Constant(code[offset + 1]));
                } else {
                    assert(shown[i] == shown_rest[i - 1]);
                    assert(instrs[i] == instrs_rest[i - 1]);
                }
            }
        } else {
            assert(OP_ADD <= b <= OP_RETURN);
            assert(tail.skip(1) =~= code.skip(offset + 1));
            lemma_disassembly_lists_decoded(code, consts, lines, offset + 1);
            let shown = spec_disassembly(code, consts, lines, offset);
            let instrs = decoded(tail);
            let shown_rest = spec_disassembly(code, consts, lines, offset + 1);
            let instrs_rest = decoded(code.skip(offset + 1));
            assert(spec_instr_width(code, offset) == 1);
            assert(shown == seq![spec_instr_line(code, consts, lines, offset)] + shown_rest);
            assert(instrs == seq![crate::chunk::simple_instr(b)] + instrs_rest);
            assert forall|i: int| 0 <= i < instrs.len() implies (#[trigger] shown[i].info)
                == instr_info_of(instrs[i], consts) by {
                if i == 0 {
                    assert(shown[0] == spec_instr_line(code, consts, lines, offset));
                    assert(instrs[0] == crate::chunk::simple_instr(b));
                } else {
                    assert(shown[i] == shown_rest[i - 1]);
                    assert(instrs[i] == instrs_rest[i - 1]);
                }
            }
        }
    } else {
        assert(tail.len() == 0);
    }
}

} // verus!
