//! The virtual machine: a fetch-decode-execute loop over a chunk's bytes,
//! with a fixed-capacity value stack. Its whole behaviour is pinned by the
//! step semantics `spec_run`: each opcode's effect on the stack, every typed
//! failure (bad opcode, bad operand, stack overflow and underflow), and the
//! value a `Return` instruction emits.

use vstd::prelude::*;

use crate::chunk::{decoded, decodes, lemma_neg_bytes, neg_bytes, operands_in_range, Chunk,
    Instr, OpCode, OP_ADD, OP_CONSTANT, OP_DIVIDE, OP_MULTIPLY, OP_NEGATE, OP_RETURN,
    OP_SUBTRACT};
use crate::compiler::{apply2, eval_value, evals_one, lemma_sp_parse_evals, ops_bytes,
    ops_eval, push_values, source_parse, EmitOp, PREC_ASSIGNMENT};
use crate::scanner::{spec_scan, step_token, TokenType};
use crate::compiler::{compile, expression_source, literal_source, literal_source_form};
use crate::error::Error;
use crate::value::{add_values, div_values, iter_neg, mul_values, negate_value, negated,
    num_add, num_div, num_mul, num_of_decimal, num_sub, sub_values, Value};

verus! {

/// The fixed capacity of the value stack.
pub const STACK_MAX: usize = 256;

/// How a run of the machine ends: a halt with the final stack and the value
/// emitted by `Return` (none when the instruction pointer runs off the end),
/// or a typed failure.
pub enum RunModel {
    Halted(Seq<Value>, Option<Value>),
    Failed(Error),
}

/// The step semantics of the machine, from instruction pointer `ip` with the
/// given stack (bottom first):
/// - off the end of `code`: halt with no output (a defensive bound — a
///   well-formed program halts through `OP_RETURN`);
/// - `OP_CONSTANT`: push the value its operand byte indexes in the pool; a
///   missing operand byte or an out-of-range index is a runtime failure, a
///   full stack overflows;
/// - the four arithmetic opcodes: pop the right operand, then the left, push
///   the IEEE-754 result;
/// - `OP_NEGATE`: pop one value, push its negation;
/// - `OP_RETURN`: pop one value and halt, emitting it as the program's result;
/// - any other byte: an `InvalidOpCode` failure.
pub open spec fn spec_run(code: Seq<u8>, consts: Seq<Value>, stack: Seq<Value>, ip: int) -> RunModel
    recommends
        0 <= ip <= code.len(),
    decreases code.len() - ip,
{
    if ip < 0 || ip >= code.len() {
        RunModel::Halted(stack, Option::<Value>::None)
    } else {
        let b = code[ip];
        if b == OP_CONSTANT {
            if ip + 1 >= code.len() {
                RunModel::Failed(Error::RuntimeError)
            } else if consts.len() <= code[ip + 1] {
                RunModel::Failed(Error::RuntimeError)
            } else if stack.len() >= STACK_MAX {
                RunModel::Failed(Error::StackOverflow)
            } else {
                spec_run(code, consts, stack.push(consts[code[ip + 1] as int]), ip + 2)
            }
        } else if OP_ADD <= b <= OP_DIVIDE {
            if stack.len() < 2 {
                RunModel::Failed(Error::StackUnderflow)
            } else {
                let right = stack[stack.len() - 1];
                let left = stack[stack.len() - 2];
                let v = if b == OP_ADD {
                    num_add(left, right)
                } else if b == OP_SUBTRACT {
                    num_sub(left, right)
                } else if b == OP_DIVIDE {
                    num_div(left, right)
                } else {
                    num_mul(left, right)
                };
                spec_run(code, consts, stack.take(stack.len() - 2).push(v), ip + 1)
            }
        } else if b == OP_NEGATE {
            if stack.len() < 1 {
                RunModel::Failed(Error::StackUnderflow)
            } else {
                spec_run(
                    code,
                    consts,
                    stack.take(stack.len() - 1).push(negated(stack[stack.len() - 1])),
                    ip + 1,
                )
            }
        } else if b == OP_RETURN {
            if stack.len() < 1 {
                RunModel::Failed(Error::StackUnderflow)
            } else {
                RunModel::Halted(stack.take(stack.len() - 1), Some(stack[stack.len() - 1]))
            }
        } else {
            RunModel::Failed(Error::InvalidOpCode(b))
        }
    }
}

/// The machine's execution state: the fixed-capacity stack and the index one
/// past its live top. A chunk is only borrowed, for the duration of one run.
pub struct VM {
    pub stack: Vec<Value>,
    pub stack_top: usize,
}

impl VM {
    /// The stack holds exactly its capacity in slots, and the top index stays
    /// within it.
    pub open spec fn wf(self) -> bool {
        self.stack@.len() == STACK_MAX && self.stack_top <= STACK_MAX
    }

    /// The live stack contents, bottom first.
    pub open spec fn stack_model(self) -> Seq<Value> {
        self.stack@.take(self.stack_top as int)
    }

    pub fn new() -> (vm: VM)
        ensures
            vm.wf(),
            vm.stack_model() == Seq::<Value>::empty(),
    {
        let vm = VM { stack: vec![0u64; 256], stack_top: 0 };
        assert(vm.stack_model() =~= Seq::<Value>::empty());
        vm
    }

    /// Empty the stack.
    pub fn reset(&mut self)
        requires
            old(self).wf(),
        ensures
            final(self).wf(),
            final(self).stack_model() == Seq::<Value>::empty(),
    {
        self.stack_top = 0;
        assert(self.stack_model() =~= Seq::<Value>::empty());
    }

    /// Push a value. Pushing beyond the fixed capacity is a typed
    /// `StackOverflow` with the machine unchanged, never a write out of
    /// bounds.
    pub fn push(&mut self, value: Value) -> (r: Result<(), Error>)
        requires
            old(self).wf(),
        ensures
            final(self).wf(),
            old(self).stack_model().len() < STACK_MAX ==> r == Ok::<(), Error>(())
                && final(self).stack_model() == old(self).stack_model().push(value),
            old(self).stack_model().len() >= STACK_MAX ==> r == Err::<(), Error>(
                Error::StackOverflow,
            ) && *final(self) == *old(self),
    {
        if self.stack_top >= STACK_MAX {
            return Err(Error::StackOverflow);
        }
        self.stack[self.stack_top] = value;
        self.stack_top = self.stack_top + 1;
        assert(self.stack_model() =~= old(self).stack_model().push(value));
        Ok(())
    }

    /// Pop a value. Popping an empty stack is a typed `StackUnderflow` with
    /// the machine unchanged, never a read out of bounds.
    pub fn pop(&mut self) -> (r: Result<Value, Error>)
        requires
            old(self).wf(),
        ensures
            final(self).wf(),
            old(self).stack_model().len() == 0 ==> r == Err::<Value, Error>(Error::StackUnderflow)
                && *final(self) == *old(self),
            old(self).stack_model().len() > 0 ==> r == Ok::<Value, Error>(
                old(self).stack_model().last(),
            ) && final(self).stack_model() == old(self).stack_model().drop_last(),
    {
        if self.stack_top == 0 {
            return Err(Error::StackUnderflow);
        }
        self.stack_top = self.stack_top - 1;
        assert(self.stack_model() =~= old(self).stack_model().drop_last());
        Ok(self.stack[self.stack_top])
    }

    /// Execute a chunk from its first byte. The result and the final stack
    /// are exactly what the step semantics give for the starting stack.
    #[verifier::loop_isolation(false)]
    pub fn run(&mut self, chunk: &Chunk) -> (r: Result<Option<Value>, Error>)
        requires
            old(self).wf(),
        ensures
            final(self).wf(),
            match spec_run(chunk.code@, chunk.constants@, old(self).stack_model(), 0) {
                RunModel::Halted(s, out) => r == Ok::<Option<Value>, Error>(out)
                    && final(self).stack_model() == s,
                RunModel::Failed(e) => r == Err::<Option<Value>, Error>(e),
            },
    {
        let ghost orig = spec_run(chunk.code@, chunk.constants@, old(self).stack_model(), 0);
        let mut ip: usize = 0;
        loop
            invariant
                self.wf(),
                ip <= chunk.code@.len(),
                spec_run(chunk.code@, chunk.constants@, self.stack_model(), ip as int) == orig,
            decreases chunk.code@.len() - ip,
        {
            if ip >= chunk.code.len() {
                return Ok(None);
            }
            let ghost pre_stack = self.stack_model();
            let ghost pre_ip = ip as int;
            let instruction = chunk.get(ip);
            ip = ip + 1;
            let op = match OpCode::try_from(instruction) {
                Ok(op) => op,
                Err(e) => {
                    return Err(e);
                },
            };
            match op {
                OpCode::OpConstant => {
                    if ip >= chunk.code.len() {
                        return Err(Error::RuntimeError);
                    }
                    let index = chunk.get(ip);
                    ip = ip + 1;
                    if (index as usize) >= chunk.constants.len() {
                        return Err(Error::RuntimeError);
                    }
                    let constant = chunk.constants[index as usize];
                    match self.push(constant) {
                        Ok(_) => {},
                        Err(e) => {
                            return Err(e);
                        },
                    }
                },
                OpCode::OpAdd => {
                    let right = match self.pop() {
                        Ok(v) => v,
                        Err(e) => {
                            return Err(e);
                        },
                    };
                    let left = match self.pop() {
                        Ok(v) => v,
                        Err(e) => {
                            return Err(e);
                        },
                    };
                    let v = add_values(left, right);
                    match self.push(v) {
                        Ok(_) => {
                            proof {
                                assert(self.stack_model() =~= pre_stack.take(
                                    pre_stack.len() - 2,
                                ).push(v));
                            }
                        },
                        Err(e) => {
                            return Err(e);
                        },
                    }
                },
                OpCode::OpSubtract => {
                    let right = match self.pop() {
                        Ok(v) => v,
                        Err(e) => {
                            return Err(e);
                        },
                    };
                    let left = match self.pop() {
                        Ok(v) => v,
                        Err(e) => {
                            return Err(e);
                        },
                    };
                    let v = sub_values(left, right);
                    match self.push(v) {
                        Ok(_) => {
                            proof {
                                assert(self.stack_model() =~= pre_stack.take(
                                    pre_stack.len() - 2,
                                ).push(v));
                            }
                        },
                        Err(e) => {
                            return Err(e);
                        },
                    }
                },
                OpCode::OpMultiply => {
                    let right = match self.pop() {
                        Ok(v) => v,
                        Err(e) => {
                            return Err(e);
                        },
                    };
                    let left = match self.pop() {
                        Ok(v) => v,
                        Err(e) => {
                            return Err(e);
                        },
                    };
                    let v = mul_values(left, right);
                    match self.push(v) {
                        Ok(_) => {
                            proof {
                                assert(self.stack_model() =~= pre_stack.take(
                                    pre_stack.len() - 2,
                                ).push(v));
                            }
                        },
                        Err(e) => {
                            return Err(e);
                        },
                    }
                },
                OpCode::OpDivide => {
                    let right = match self.pop() {
                        Ok(v) => v,
                        Err(e) => {
                            return Err(e);
                        },
                    };
                    let left = match self.pop() {
                        Ok(v) => v,
                        Err(e) => {
                            return Err(e);
                        },
                    };
                    let v = div_values(left, right);
                    match self.push(v) {
                        Ok(_) => {
                            proof {
                                assert(self.stack_model() =~= pre_stack.take(
                                    pre_stack.len() - 2,
                                ).push(v));
                            }
                        },
                        Err(e) => {
                            return Err(e);
                        },
                    }
                },
                OpCode::OpNegate => {
                    let value = match self.pop() {
                        Ok(v) => v,
                        Err(e) => {
                            return Err(e);
                        },
                    };
                    let v = negate_value(value);
                    match self.push(v) {
                        Ok(_) => {
                            proof {
                                assert(self.stack_model() =~= pre_stack.take(
                                    pre_stack.len() - 1,
                                ).push(v));
                            }
                        },
                        Err(e) => {
                            return Err(e);
                        },
                    }
                },
                OpCode::OpReturn => {
                    let value = match self.pop() {
                        Ok(v) => v,
                        Err(e) => {
                            return Err(e);
                        },
                    };
                    return Ok(Some(value));
                },
            }
        }
    }

    /// Compile the source text and run the resulting chunk: the convenience
    /// entry point that chains the whole pipeline. A compile error comes
    /// back exactly when the source is not one well-formed expression, and
    /// nothing runs then. Every well-formed expression whose literals fit in
    /// the stack's remaining room runs to completion: the emitted result is
    /// exactly the expression's value — the left-to-right, precedence-driven
    /// evaluation the parse model fixes over the IEEE-754 operations — and
    /// the stack is left as it was. In particular, a source that is one
    /// numeric literal under unary minus and parentheses yields that
    /// literal's value under those negations.
    pub fn interpret(&mut self, source: &str) -> (r: Result<Option<Value>, Error>)
        requires
            old(self).wf(),
            source@.len() + 1 < usize::MAX,
        ensures
            final(self).wf(),
            r matches Err(e) ==> e == Error::CompileError || e == Error::StackOverflow || e
                == Error::StackUnderflow,
            (r == Err::<Option<Value>, Error>(Error::CompileError)) <==> !expression_source(
                source@,
            ),
            expression_source(source@) ==> (source_parse(source@) matches Some(
                (v, c2, l2, ops),
            ) && (match spec_run(
                ops_bytes(ops, 0) + seq![OP_RETURN],
                push_values(ops),
                old(self).stack_model(),
                0,
            ) {
                RunModel::Halted(st, out) => r == Ok::<Option<Value>, Error>(out)
                    && final(self).stack_model() == st,
                RunModel::Failed(e) => r == Err::<Option<Value>, Error>(e),
            })),
            r == Err::<Option<Value>, Error>(Error::CompileError) ==> final(self).stack_model()
                == old(self).stack_model(),
            (source_parse(source@) matches Some((v, c2, l2, ops)) && v.ty == TokenType::EOF
                && push_values(ops).len() <= 256 && old(self).stack_model().len() + push_values(
                ops,
            ).len() <= STACK_MAX) ==> (source_parse(source@) matches Some((v2, c2b, l2b, opsb))
                && r == Ok::<Option<Value>, Error>(Some(eval_value(opsb)))
                && final(self).stack_model() == old(self).stack_model()),
            (literal_source(source@) && old(self).stack_model().len() < STACK_MAX) ==> (
            literal_source_form(source@) matches Some((k, lex, stop)) && r == Ok::<
                Option<Value>,
                Error,
            >(Some(iter_neg(k, num_of_decimal(lex)))) && final(self).stack_model() == old(
                self,
            ).stack_model()),
    {
        let chunk = match compile(source) {
            Ok(chunk) => chunk,
            Err(e) => {
                return Err(e);
            },
        };
        proof {
            assert(chunk.code@.skip(0) =~= chunk.code@);
            lemma_wf_code_never_invalid(chunk.code@, chunk.constants@, self.stack_model(), 0);
            if literal_source(source@) && old(self).stack_model().len() < STACK_MAX {
                match literal_source_form(source@) {
                    Some((k, lex, stop)) => {
                        lemma_run_literal_chunk(num_of_decimal(lex), self.stack_model(), k);
                    },
                    None => {},
                }
            }
            match source_parse(source@) {
                Some((v, c2, l2, ops)) => {
                    if v.ty == TokenType::EOF && push_values(ops).len() <= 256 && old(
                        self,
                    ).stack_model().len() + push_values(ops).len() <= STACK_MAX {
                        let st0 = spec_scan(source@, 0, 1);
                        lemma_sp_parse_evals(
                            step_token(st0),
                            source@,
                            st0.next,
                            st0.line,
                            PREC_ASSIGNMENT,
                        );
                        lemma_run_expression(ops, self.stack_model());
                    }
                },
                None => {},
            }
        }
        self.run(&chunk)
    }
}

/// Bytecode that decodes cleanly, with every constant operand pointing into
/// the pool, never trips the machine's defensive decoding checks: a run of
/// such code from any instruction boundary ends in a halt or in a
/// stack-discipline failure, never in an invalid opcode or a malformed
/// constant. The compiler only builds such chunks, so those two checks can
/// never trigger on compiled code.
pub proof fn lemma_wf_code_never_invalid(
    code: Seq<u8>,
    consts: Seq<Value>,
    stack: Seq<Value>,
    ip: int,
)
    requires
        0 <= ip <= code.len(),
        decodes(code.skip(ip)),
        operands_in_range(decoded(code.skip(ip)), consts.len() as int),
    ensures
        spec_run(code, consts, stack, ip) matches RunModel::Failed(e) ==> e
            == Error::StackOverflow || e == Error::StackUnderflow,
    decreases code.len() - ip,
{
    let tail = code.skip(ip);
    if ip < code.len() {
        let b = code[ip];
        assert(tail[0] == b);
        if b == OP_CONSTANT {
            assert(tail.len() >= 2 && decodes(tail.skip(2)));
            assert(tail[1] == code[ip + 1]);
            let rest = decoded(tail.skip(2));
            assert(decoded(tail) == seq![Instr::Constant(tail[1])] + rest);
            assert(decoded(tail)[0] == Instr::Constant(tail[1])) by {
                assert((seq![Instr::Constant(tail[1])] + rest)[0] == Instr::Constant(tail[1]));
            }
            assert(code[ip + 1] < consts.len());
            if stack.len() < STACK_MAX {
                assert(tail.skip(2) =~= code.skip(ip + 2));
                assert(operands_in_range(decoded(code.skip(ip + 2)), consts.len() as int)) by {
                    assert forall|i: int|
                        0 <= i < rest.len() implies (#[trigger] rest[i] matches Instr::Constant(k)
                        ==> k < consts.len() as int) by {
                        assert(rest[i] == (seq![Instr::Constant(tail[1])] + rest)[i + 1]);
                    }
                }
                lemma_wf_code_never_invalid(
                    code,
                    consts,
                    stack.push(consts[code[ip + 1] as int]),
                    ip + 2,
                );
            }
        } else {
            assert(OP_ADD <= b <= OP_RETURN);
            assert(decodes(tail.skip(1)));
            let rest = decoded(tail.skip(1));
            assert(decoded(tail) == seq![crate::chunk::simple_instr(b)] + rest);
            assert(tail.skip(1) =~= code.skip(ip + 1));
            assert(operands_in_range(decoded(code.skip(ip + 1)), consts.len() as int)) by {
                assert forall|i: int|
                    0 <= i < rest.len() implies (#[trigger] rest[i] matches Instr::Constant(k)
                    ==> k < consts.len() as int) by {
                    assert(rest[i] == (seq![crate::chunk::simple_instr(b)] + rest)[i + 1]);
                }
            }
            if OP_ADD <= b <= OP_DIVIDE {
                if stack.len() >= 2 {
                    let right = stack[stack.len() - 1];
                    let left = stack[stack.len() - 2];
                    let v = if b == OP_ADD {
                        num_add(left, right)
                    } else if b == OP_SUBTRACT {
                        num_sub(left, right)
                    } else if b == OP_DIVIDE {
                        num_div(left, right)
                    } else {
                        num_mul(left, right)
                    };
                    lemma_wf_code_never_invalid(
                        code,
                        consts,
                        stack.take(stack.len() - 2).push(v),
                        ip + 1,
                    );
                }
            } else if b == OP_NEGATE {
                if stack.len() >= 1 {
                    lemma_wf_code_never_invalid(
                        code,
                        consts,
                        stack.take(stack.len() - 1).push(negated(stack[stack.len() - 1])),
                        ip + 1,
                    );
                }
            }
        }
    }
}

/// From a stack whose top is `w`, a run of `k` negation opcodes followed by
/// a return emits `w` negated `k` times and leaves the rest of the stack as
/// it was.
proof fn lemma_run_neg_suffix(
    code: Seq<u8>,
    consts: Seq<Value>,
    stack: Seq<Value>,
    w: Value,
    i: int,
    k: nat,
)
    requires
        0 <= i,
        code.len() == i + k + 1,
        forall|j: int| i <= j < i + k ==> code[j] == OP_NEGATE,
        code[i + k] == OP_RETURN,
    ensures
        spec_run(code, consts, stack.push(w), i) == RunModel::Halted(stack, Some(iter_neg(k, w))),
    decreases k,
{
    let st = stack.push(w);
    assert(st.len() == stack.len() + 1);
    assert(st[st.len() - 1] == w);
    assert(st.take(st.len() - 1) =~= stack);
    if k == 0 {
        assert(code[i] == OP_RETURN);
        assert(spec_run(code, consts, st, i) == RunModel::Halted(
            st.take(st.len() - 1),
            Some(st[st.len() - 1]),
        ));
    } else {
        assert(code[i] == OP_NEGATE);
        assert(spec_run(code, consts, st, i) == spec_run(
            code,
            consts,
            st.take(st.len() - 1).push(negated(st[st.len() - 1])),
            i + 1,
        ));
        assert(st.take(st.len() - 1).push(negated(st[st.len() - 1])) == stack.push(negated(w)));
        lemma_run_neg_suffix(code, consts, stack, negated(w), i + 1, (k - 1) as nat);
    }
}

/// Running the bytes of an emission tracks its evaluation: from any stack
/// with room, the machine steps from the start of the emission's byte
/// segment to its end, leaving exactly the stack the evaluation leaves.
proof fn lemma_run_ops(
    ops: Seq<EmitOp>,
    code: Seq<u8>,
    consts: Seq<Value>,
    stack: Seq<Value>,
    ip: int,
    base: int,
)
    requires
        0 <= ip,
        0 <= base,
        ip + ops_bytes(ops, base).len() <= code.len(),
        code.subrange(ip, ip + ops_bytes(ops, base).len()) == ops_bytes(ops, base),
        base + push_values(ops).len() <= consts.len(),
        consts.subrange(base, base + push_values(ops).len()) == push_values(ops),
        base + push_values(ops).len() <= 256,
        ops_eval(ops, stack) is Some,
        stack.len() + push_values(ops).len() <= STACK_MAX,
    ensures
        ops_eval(ops, stack) matches Some(st2) && spec_run(code, consts, stack, ip) == spec_run(
            code,
            consts,
            st2,
            ip + ops_bytes(ops, base).len(),
        ),
    decreases ops.len(),
{
    if ops.len() > 0 {
        let rest = ops.drop_first();
        let whole = ops_bytes(ops, base);
        let seg = code.subrange(ip, ip + whole.len());
        match ops[0] {
            EmitOp::Push(v) => {
                let hd = seq![OP_CONSTANT, base as u8];
                let tl = ops_bytes(rest, base + 1);
                assert(whole == hd + tl);
                assert(whole.len() == 2 + tl.len());
                assert(code[ip] == seg[0] && seg[0] == (hd + tl)[0] && (hd + tl)[0] == hd[0]);
                assert(code[ip + 1] == seg[1] && seg[1] == (hd + tl)[1] && (hd + tl)[1] == hd[1]);
                assert(push_values(ops) == seq![v] + push_values(rest));
                assert(consts[base] == consts.subrange(base, base + push_values(ops).len())[0]);
                assert((seq![v] + push_values(rest))[0] == v);
                assert((base as u8) as int == base);
                assert(code.subrange(ip + 2, ip + whole.len()) =~= tl) by {
                    assert forall|i: int| 0 <= i < tl.len() implies code.subrange(
                        ip + 2,
                        ip + whole.len(),
                    )[i] == tl[i] by {
                        assert(code.subrange(ip + 2, ip + whole.len())[i] == code[ip + 2 + i]);
                        assert(code[ip + 2 + i] == seg[2 + i]);
                        assert(seg[2 + i] == (hd + tl)[2 + i]);
                        assert((hd + tl)[2 + i] == tl[i]);
                    }
                }
                assert(consts.subrange(base + 1, base + 1 + push_values(rest).len())
                    =~= push_values(rest)) by {
                    assert forall|i: int| 0 <= i < push_values(rest).len() implies consts.subrange(
                        base + 1,
                        base + 1 + push_values(rest).len(),
                    )[i] == push_values(rest)[i] by {
                        assert(consts.subrange(
                            base + 1,
                            base + 1 + push_values(rest).len(),
                        )[i] == consts[base + 1 + i]);
                        assert(consts[base + 1 + i] == consts.subrange(
                            base,
                            base + push_values(ops).len(),
                        )[1 + i]);
                        assert((seq![v] + push_values(rest))[1 + i] == push_values(rest)[i]);
                    }
                }
                lemma_run_ops(rest, code, consts, stack.push(v), ip + 2, base + 1);
            },
            EmitOp::Negate => {
                let hd = seq![OP_NEGATE];
                let tl = ops_bytes(rest, base);
                assert(whole == hd + tl);
                assert(whole.len() == 1 + tl.len());
                assert(code[ip] == seg[0] && seg[0] == (hd + tl)[0] && (hd + tl)[0] == hd[0]);
                assert(stack.len() >= 1);
                assert(push_values(ops) =~= push_values(rest));
                assert(code.subrange(ip + 1, ip + whole.len()) =~= tl) by {
                    assert forall|i: int| 0 <= i < tl.len() implies code.subrange(
                        ip + 1,
                        ip + whole.len(),
                    )[i] == tl[i] by {
                        assert(code.subrange(ip + 1, ip + whole.len())[i] == code[ip + 1 + i]);
                        assert(code[ip + 1 + i] == seg[1 + i]);
                        assert(seg[1 + i] == (hd + tl)[1 + i]);
                        assert((hd + tl)[1 + i] == tl[i]);
                    }
                }
                lemma_run_ops(
                    rest,
                    code,
                    consts,
                    stack.take(stack.len() - 1).push(negated(stack.last())),
                    ip + 1,
                    base,
                );
            },
            _ => {
                let b = match ops[0] {
                    EmitOp::Add => OP_ADD,
                    EmitOp::Subtract => OP_SUBTRACT,
                    EmitOp::Multiply => OP_MULTIPLY,
                    EmitOp::Divide => OP_DIVIDE,
                    _ => OP_ADD,
                };
                let hd = seq![b];
                let tl = ops_bytes(rest, base);
                assert(whole == hd + tl);
                assert(whole.len() == 1 + tl.len());
                assert(code[ip] == seg[0] && seg[0] == (hd + tl)[0] && (hd + tl)[0] == hd[0]);
                assert(stack.len() >= 2);
                assert(push_values(ops) =~= push_values(rest));
                assert(code.subrange(ip + 1, ip + whole.len()) =~= tl) by {
                    assert forall|i: int| 0 <= i < tl.len() implies code.subrange(
                        ip + 1,
                        ip + whole.len(),
                    )[i] == tl[i] by {
                        assert(code.subrange(ip + 1, ip + whole.len())[i] == code[ip + 1 + i]);
                        assert(code[ip + 1 + i] == seg[1 + i]);
                        assert(seg[1 + i] == (hd + tl)[1 + i]);
                        assert((hd + tl)[1 + i] == tl[i]);
                    }
                }
                lemma_run_ops(
                    rest,
                    code,
                    consts,
                    stack.take(stack.len() - 2).push(
                        apply2(ops[0], stack[stack.len() - 2], stack.last()),
                    ),
                    ip + 1,
                    base,
                );
            },
        }
    }
}

/// Running the exact chunk the compiler emits for one expression — the
/// emission's bytes and then a return — halts with the expression's value
/// and leaves the stack as it was, whenever the stack has room for the
/// expression's literals. Together with the compiler's emission contract,
/// a compiled expression always runs to completion.
pub proof fn lemma_run_expression(ops: Seq<EmitOp>, stack: Seq<Value>)
    requires
        evals_one(ops),
        push_values(ops).len() <= 256,
        stack.len() + push_values(ops).len() <= STACK_MAX,
    ensures
        spec_run(
            ops_bytes(ops, 0) + seq![OP_RETURN],
            push_values(ops),
            stack,
            0,
        ) == RunModel::Halted(stack, Some(eval_value(ops))),
{
    let body = ops_bytes(ops, 0);
    let code = body + seq![OP_RETURN];
    let consts = push_values(ops);
    assert(code.subrange(0, body.len() as int) =~= body) by {
        assert forall|i: int| 0 <= i < body.len() implies code.subrange(
            0,
            body.len() as int,
        )[i] == body[i] by {
            assert(code.subrange(0, body.len() as int)[i] == code[i]);
            assert((body + seq![OP_RETURN])[i] == body[i]);
        }
    }
    assert(consts.subrange(0, push_values(ops).len() as int) =~= consts);
    assert(ops_eval(ops, stack) == Some(stack.push(eval_value(ops))));
    lemma_run_ops(ops, code, consts, stack, 0, 0);
    let st2 = stack.push(eval_value(ops));
    assert(code[body.len() as int] == seq![OP_RETURN][0]);
    assert(st2.len() >= 1);
    assert(spec_run(code, consts, st2, body.len() as int) == RunModel::Halted(
        st2.take(st2.len() - 1),
        Some(st2[st2.len() - 1]),
    ));
    assert(st2.take(st2.len() - 1) =~= stack);
    assert(st2[st2.len() - 1] == eval_value(ops));
}

/// Running the chunk compiled for one literal form — a constant instruction
/// referencing the literal's pooled value, one negation per unary minus,
/// then a return — from any stack with room emits exactly the literal's
/// value under those negations, and leaves the stack as it was: together
/// with the compiler's contract, interpreting a numeric literal, however
/// signed and parenthesized, yields that literal's value.
pub proof fn lemma_run_literal_chunk(v: Value, stack: Seq<Value>, k: nat)
    requires
        stack.len() < STACK_MAX,
    ensures
        spec_run(
            seq![OP_CONSTANT, 0u8] + neg_bytes(k) + seq![OP_RETURN],
            seq![v],
            stack,
            0,
        ) == RunModel::Halted(stack, Some(iter_neg(k, v))),
{
    lemma_neg_bytes(k);
    let head = seq![OP_CONSTANT, 0u8];
    let code = head + neg_bytes(k) + seq![OP_RETURN];
    let consts = seq![v];
    assert((head + neg_bytes(k)).len() == k + 2);
    assert(code.len() == k + 3);
    assert(code[0] == OP_CONSTANT) by {
        assert((head + neg_bytes(k))[0] == head[0]);
        assert(code[0] == (head + neg_bytes(k))[0]);
    }
    assert(code[1] == 0u8) by {
        assert((head + neg_bytes(k))[1] == head[1]);
        assert(code[1] == (head + neg_bytes(k))[1]);
    }
    assert forall|j: int| 2 <= j < 2 + k implies code[j] == OP_NEGATE by {
        assert(code[j] == (head + neg_bytes(k))[j]);
        assert((head + neg_bytes(k))[j] == neg_bytes(k)[j - 2]);
    }
    assert(code[2 + k as int] == OP_RETURN) by {
        assert(code[2 + k as int] == seq![OP_RETURN][0]);
    }
    assert(consts.len() == 1 && consts[0] == v);
    assert(spec_run(code, consts, stack, 0) == spec_run(code, consts, stack.push(v), 2));
    lemma_run_neg_suffix(code, consts, stack, v, 2, k);
}

impl Default for VM {
    fn default() -> (vm: Self)
        ensures
            vm.wf(),
            vm.stack_model() == Seq::<Value>::empty(),
    {
        VM::new()
    }
}

} // verus!
