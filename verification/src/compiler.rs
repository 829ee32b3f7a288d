//! The compiler: a single-pass, recursive-descent parser with precedence
//! climbing that emits bytecode into a chunk as it recognizes each production
//! — no intermediate tree. It keeps exactly two tokens of state, `previous`
//! and `current`, records every diagnostic instead of stopping at the first,
//! and succeeds only when no error was recorded and the source ends where the
//! expression does.

use vstd::prelude::*;
use vstd::string::StringExecFns;

use crate::chunk::{decoded, decodes, lemma_code_push_negate, lemma_code_push_return,
    lemma_decode_push_constant, lemma_decode_push_simple, neg_bytes, operands_in_range, Chunk,
    Instr, OP_ADD, OP_CONSTANT, OP_DIVIDE, OP_MULTIPLY, OP_NEGATE, OP_RETURN, OP_SUBTRACT};
use crate::error::Error;
use crate::scanner::{lemma_no_errors_means_ok, lemma_scan_to_next_first_error,
    lemma_scan_to_next_ok, lemma_spec_scan_bounds, spec_scan, spec_scan_to_next, step_token,
    ScanStep, Scanner, Token, TokenType};
use crate::value::{is_numeral, negated, num_add, num_div, num_mul, num_of_decimal,
    num_sub, parse_number, Value};

verus! {

pub const PREC_NONE: u8 = 0;

pub const PREC_ASSIGNMENT: u8 = 1;

pub const PREC_TERM: u8 = 6;

pub const PREC_FACTOR: u8 = 7;

pub const PREC_UNARY: u8 = 8;

/// Where a diagnostic points: at the end of input, at a lexeme's span, at an
/// offending character, or nowhere in particular.
#[derive(Debug, Clone, Copy, PartialEq, Eq, Structural)]
pub enum DiagAt {
    AtEnd,
    Lexeme(usize, usize),
    Character(char),
    Nowhere,
}

/// One recorded diagnostic: the line it concerns, where it points, and its
/// message.
#[derive(Debug, PartialEq, Eq)]
pub struct Diagnostic {
    pub line: usize,
    pub at: DiagAt,
    pub message: String,
}

/// The infix binding strength of a token kind: additive operators bind at
/// term strength, multiplicative ones at factor strength; every other kind
/// has no infix rule.
pub open spec fn spec_infix_prec(ty: TokenType) -> u8 {
    match ty {
        TokenType::Plus => PREC_TERM,
        TokenType::Minus => PREC_TERM,
        TokenType::Star => PREC_FACTOR,
        TokenType::Slash => PREC_FACTOR,
        _ => PREC_NONE,
    }
}

fn infix_precedence(ty: TokenType) -> (r: u8)
    ensures
        r == spec_infix_prec(ty),
{
    match ty {
        TokenType::Plus => PREC_TERM,
        TokenType::Minus => PREC_TERM,
        TokenType::Star => PREC_FACTOR,
        TokenType::Slash => PREC_FACTOR,
        _ => PREC_NONE,
    }
}

/// The compiler's state: the chunk being built, one token of lookahead
/// (`current`) plus the token just consumed (`previous`), the error flag, and
/// the diagnostics recorded so far.
pub struct Compiler {
    pub chunk: Chunk,
    pub current: Option<Token>,
    pub previous: Option<Token>,
    pub has_errors: bool,
    pub diagnostics: Vec<Diagnostic>,
}

/// The start of the token under consideration.
pub open spec fn cur_start(c: Compiler) -> int {
    match c.current {
        Some(t) => t.start as int,
        None => 0,
    }
}

/// A token the compiler holds lies behind the scanner's position, and keeps
/// the facts its kind guarantees: end-of-input is the empty span at the very
/// end, every other kind spans at least one character, and a number token
/// spans a well-shaped numeral.
pub open spec fn token_ok(t: Token, s: Seq<char>, scur: int) -> bool {
    &&& t.start + t.length <= scur
    &&& scur <= s.len()
    &&& (t.ty == TokenType::EOF ==> t.start == s.len() && t.length == 0)
    &&& (t.ty != TokenType::EOF ==> t.length >= 1)
    &&& (t.ty == TokenType::Number ==> is_numeral(
        s.subrange(t.start as int, t.start + t.length),
    ))
}

/// The chunk under construction stays cleanly decodable, with every constant
/// operand pointing into the pool.
pub open spec fn chunk_ok(c: Chunk) -> bool {
    &&& c.wf()
    &&& decodes(c.code@)
    &&& operands_in_range(decoded(c.code@), c.constants@.len() as int)
}

/// The joint invariant of a compiler and the scanner that feeds it. The
/// error flag stands exactly when a diagnostic was recorded: no error is
/// ever swallowed, and no failure is unexplained.
pub open spec fn cs_ok(c: Compiler, s: Scanner) -> bool {
    &&& s.wf()
    &&& chunk_ok(c.chunk)
    &&& (c.current matches Some(t) ==> token_ok(t, s.input@, s.current as int))
    &&& (c.previous matches Some(t) ==> token_ok(t, s.input@, s.current as int))
    &&& (c.has_errors <==> c.diagnostics@.len() > 0)
    &&& (c.has_errors || c.chunk.constants@.len() <= 256)
}

/// The diagnostic recorded for one scan error.
pub open spec fn scan_error_diag(d: Diagnostic, e: Error) -> bool {
    e matches Error::ScanError(c, l) ==> d.line == l && d.at == DiagAt::Character(c) && d.message@
        == "Unexpected character."@
}

impl Compiler {
    fn new() -> (c: Compiler)
        ensures
            c.chunk.code@ == Seq::<u8>::empty(),
            c.chunk.constants@ == Seq::<crate::value::Value>::empty(),
            c.chunk.lines@ == Seq::<usize>::empty(),
            c.current is None,
            c.previous is None,
            !c.has_errors,
            c.diagnostics@ == Seq::<Diagnostic>::empty(),
            chunk_ok(c.chunk),
    {
        let c = Compiler {
            chunk: Chunk::new(),
            current: None,
            previous: None,
            has_errors: false,
            diagnostics: Vec::new(),
        };
        proof {
            assert(decodes(c.chunk.code@));
        }
        c
    }

    /// Shift `current` into `previous` and pull the next token from the
    /// scanner, folding every scan error met on the way into the diagnostics.
    #[verifier::loop_isolation(false)]
    fn advance(&mut self, scanner: &mut Scanner)
        requires
            cs_ok(*old(self), *old(scanner)),
        ensures
            cs_ok(*final(self), *final(scanner)),
            final(scanner).input@ == old(scanner).input@,
            final(self).chunk == old(self).chunk,
            final(self).previous == old(self).current,
            ({
                let (st, errs) = spec_scan_to_next(
                    old(scanner).input@,
                    old(scanner).current as int,
                    old(scanner).line as int,
                );
                &&& final(scanner).current == st.next
                &&& final(scanner).line == st.line
                &&& (st.result matches Ok((ty, length, tline)) && final(self).current == Some(
                    Token {
                        ty,
                        start: st.start as usize,
                        length: length as usize,
                        line: tline as usize,
                    },
                ))
                &&& final(self).has_errors == (old(self).has_errors || errs.len() > 0)
                &&& final(self).diagnostics@.len() == old(self).diagnostics@.len() + errs.len()
                &&& final(self).diagnostics@.take(old(self).diagnostics@.len() as int) == old(self).diagnostics@
                &&& forall|i: int|
                    0 <= i < errs.len() ==> scan_error_diag(
                        #[trigger] final(self).diagnostics@[old(self).diagnostics@.len() + i],
                        errs[i],
                    )
            }),
            cur_start(*final(self)) >= old(scanner).current,
    {
        proof {
            lemma_scan_to_next_ok(
                scanner.input@,
                scanner.current as int,
                scanner.line as int,
            );
        }
        self.previous = self.current;
        let (token, errs) = scanner.scan_to_next();
        let ghost errs_model = errs@;
        let ghost diags0 = self.diagnostics@;
        if errs.len() > 0 {
            self.has_errors = true;
        }
        let mut i: usize = 0;
        while i < errs.len()
            invariant
                i <= errs.len(),
                errs@ == errs_model,
                self.diagnostics@.len() == diags0.len() + i,
                self.diagnostics@.take(diags0.len() as int) == diags0,
                forall|k: int|
                    0 <= k < i ==> scan_error_diag(
                        #[trigger] self.diagnostics@[diags0.len() + k],
                        errs_model[k],
                    ),
                self.chunk == old(self).chunk,
                self.current == old(self).current,
                self.previous == old(self).current,
                self.has_errors == (old(self).has_errors || errs_model.len() > 0),
            decreases errs@.len() - i,
        {
            let ghost diags_pre = self.diagnostics@;
            match &errs[i] {
                Error::ScanError(c, l) => {
                    self.diagnostics.push(
                        Diagnostic {
                            line: *l,
                            at: DiagAt::Character(*c),
                            message: String::from_str("Unexpected character."),
                        },
                    );
                    proof {
                        assert(self.diagnostics@.take(diags0.len() as int) =~= diags0);
                        assert forall|k: int| 0 <= k < i + 1 implies scan_error_diag(
                            #[trigger] self.diagnostics@[diags0.len() + k],
                            errs_model[k],
                        ) by {
                            if k < i {
                                assert(self.diagnostics@[diags0.len() + k] == diags_pre[diags0.len()
                                    + k]);
                            }
                        }
                    }
                },
                _ => {
                    proof {
                        assert(errs_model[i as int] is ScanError);
                        assert(false);
                    }
                },
            }
            i = i + 1;
        }
        self.current = token;
    }

    /// Record a diagnostic against a token: at the end of input for the
    /// terminal token, at the token's lexeme otherwise.
    fn error_at(&mut self, token: Option<Token>, message: &str)
        ensures
            final(self).chunk == old(self).chunk,
            final(self).current == old(self).current,
            final(self).previous == old(self).previous,
            final(self).has_errors,
            final(self).diagnostics@.len() == old(self).diagnostics@.len() + 1,
            final(self).diagnostics@.take(old(self).diagnostics@.len() as int) == old(self).diagnostics@,
            ({
                let d = final(self).diagnostics@.last();
                &&& d.message@ == message@
                &&& (match token {
                    Some(t) => d.line == t.line && d.at == (if t.ty == TokenType::EOF {
                        DiagAt::AtEnd
                    } else {
                        DiagAt::Lexeme(t.start, t.length)
                    }),
                    None => d.line == 0 && d.at == DiagAt::Nowhere,
                })
            }),
    {
        let line = match token {
            Some(t) => t.line,
            None => 0,
        };
        let at = match token {
            Some(t) => {
                if t.ty == TokenType::EOF {
                    DiagAt::AtEnd
                } else {
                    DiagAt::Lexeme(t.start, t.length)
                }
            },
            None => DiagAt::Nowhere,
        };
        self.has_errors = true;
        self.diagnostics.push(Diagnostic { line, at, message: String::from_str(message) });
        proof {
            assert(self.diagnostics@.take(old(self).diagnostics@.len() as int) =~= old(self).diagnostics@);
        }
    }

    /// Record a diagnostic against the token just consumed.
    fn error_at_current(&mut self, message: &str)
        ensures
            final(self).chunk == old(self).chunk,
            final(self).current == old(self).current,
            final(self).previous == old(self).previous,
            final(self).has_errors,
            final(self).diagnostics@.len() == old(self).diagnostics@.len() + 1,
            final(self).diagnostics@.take(old(self).diagnostics@.len() as int) == old(self).diagnostics@,
    {
        let token = self.previous;
        self.error_at(token, message);
    }
}

/// The characters a token spans.
#[verifier::loop_isolation(false)]
fn lexeme_chars(scanner: &Scanner, start: usize, length: usize) -> (r: Vec<char>)
    requires
        start + length <= scanner.input@.len(),
    ensures
        r@ == scanner.input@.subrange(start as int, start + length),
{
    let total = scanner.input.len();
    let mut out: Vec<char> = Vec::new();
    let mut i: usize = 0;
    while i < length
        invariant
            i <= length,
            total == scanner.input@.len(),
            start + length <= scanner.input@.len(),
            out@ == scanner.input@.subrange(start as int, start + i),
        decreases length - i,
    {
        out.push(scanner.input[start + i]);
        proof {
            assert(out@ =~= scanner.input@.subrange(start as int, start + i + 1));
        }
        i = i + 1;
    }
    proof {
        assert(out@ =~= scanner.input@.subrange(start as int, start + length));
    }
    out
}

/// The token under consideration, where there is one.
pub open spec fn cur_token(c: Compiler) -> Token {
    match c.current {
        Some(t) => t,
        None => Token { ty: TokenType::EOF, start: 0, length: 0, line: 0 },
    }
}

/// How the token under consideration — with the scanner standing just past
/// it at `(cur, line)` — reads as one numeric literal under any nesting of
/// unary minus and parentheses: the count of negations applied, the
/// literal's span, and the scan step of the first token after the whole
/// form.
pub open spec fn literal_form_from(t: Token, s: Seq<char>, cur: int, line: int) -> Option<
    (nat, Seq<char>, ScanStep),
>
    decreases s.len() - cur,
{
    if t.ty == TokenType::Number {
        Some(
            (0 as nat, s.subrange(t.start as int, t.start + t.length), spec_scan(s, cur, line)),
        )
    } else if t.ty == TokenType::Minus {
        let st = spec_scan(s, cur, line);
        if st.result is Ok && cur < st.next && st.next <= s.len() {
            match literal_form_from(step_token(st), s, st.next, st.line) {
                Some((k, lex, stop)) => Some(((k + 1) as nat, lex, stop)),
                None => None,
            }
        } else {
            None
        }
    } else if t.ty == TokenType::LeftParen {
        let st = spec_scan(s, cur, line);
        if st.result is Ok && cur < st.next && st.next <= s.len() {
            match literal_form_from(step_token(st), s, st.next, st.line) {
                Some((k, lex, stop)) => match stop.result {
                    Ok((tys, ls, tls)) => if tys == TokenType::RightParen {
                        Some((k, lex, spec_scan(s, stop.next, stop.line)))
                    } else {
                        None
                    },
                    Err(e) => None,
                },
                None => None,
            }
        } else {
            None
        }
    } else {
        None
    }
}

/// The form is there and what follows it has no infix rule, so parsing stops
/// right after it.
pub open spec fn form_stops(form: Option<(nat, Seq<char>, ScanStep)>) -> bool {
    form matches Some((k, lex, stop)) && stop.result matches Ok((tys, ls, tls))
        && spec_infix_prec(tys) == PREC_NONE
}

/// What emitting for one literal form does: one constant instruction
/// referencing a newly pooled value, then one negation per minus, no error;
/// the token under consideration afterward is the one right after the form,
/// with the scanner standing just past it.
pub open spec fn form_emission(
    pre_c: Compiler,
    pre_s: Scanner,
    post_c: Compiler,
    post_s: Scanner,
    k: nat,
    lex: Seq<char>,
    stop: ScanStep,
) -> bool {
    &&& !post_c.has_errors
    &&& post_c.chunk.code@ == pre_c.chunk.code@ + seq![
        OP_CONSTANT,
        (pre_c.chunk.constants@.len() as u8),
    ] + neg_bytes(k)
    &&& post_c.chunk.constants@ == pre_c.chunk.constants@.push(num_of_decimal(lex))
    &&& (stop.result matches Ok((tys, ls, tls)) ==> (post_c.current matches Some(t2) && t2.ty
        == tys))
    &&& post_s.current == stop.next
    &&& post_s.line == stop.line
}

/// The token just consumed, where there is one.
pub open spec fn prev_token(c: Compiler) -> Token {
    match c.previous {
        Some(t) => t,
        None => Token { ty: TokenType::EOF, start: 0, length: 0, line: 0 },
    }
}

/// One abstract operation the compiler emits: push a pooled literal value,
/// or apply an operator to the value stack.
pub enum EmitOp {
    Push(u64),
    Add,
    Subtract,
    Multiply,
    Divide,
    Negate,
}

/// The operation a binary operator token emits.
pub open spec fn op_emit(ty: TokenType) -> EmitOp {
    match ty {
        TokenType::Plus => EmitOp::Add,
        TokenType::Minus => EmitOp::Subtract,
        TokenType::Star => EmitOp::Multiply,
        TokenType::Slash => EmitOp::Divide,
        _ => EmitOp::Add,
    }
}

/// The values an emission pools, in pool order.
pub open spec fn push_values(ops: Seq<EmitOp>) -> Seq<Value>
    decreases ops.len(),
{
    if ops.len() == 0 {
        Seq::empty()
    } else {
        (match ops[0] {
            EmitOp::Push(v) => seq![v],
            _ => Seq::<Value>::empty(),
        }) + push_values(ops.drop_first())
    }
}

/// The bytes an emission writes, its constant operands indexed from `base`.
pub open spec fn ops_bytes(ops: Seq<EmitOp>, base: int) -> Seq<u8>
    recommends
        0 <= base,
        base + push_values(ops).len() <= 256,
    decreases ops.len(),
{
    if ops.len() == 0 {
        Seq::empty()
    } else {
        (match ops[0] {
            EmitOp::Push(v) => seq![OP_CONSTANT, base as u8],
            EmitOp::Add => seq![OP_ADD],
            EmitOp::Subtract => seq![OP_SUBTRACT],
            EmitOp::Multiply => seq![OP_MULTIPLY],
            EmitOp::Divide => seq![OP_DIVIDE],
            EmitOp::Negate => seq![OP_NEGATE],
        }) + ops_bytes(
            ops.drop_first(),
            base + (match ops[0] {
                EmitOp::Push(v) => 1int,
                _ => 0int,
            }),
        )
    }
}

/// What one operation alone pools and writes.
pub proof fn lemma_ops_one(op: EmitOp, base: int)
    ensures
        push_values(seq![op]) == (match op {
            EmitOp::Push(v) => seq![v],
            _ => Seq::<Value>::empty(),
        }),
        ops_bytes(seq![op], base) == (match op {
            EmitOp::Push(v) => seq![OP_CONSTANT, base as u8],
            EmitOp::Add => seq![OP_ADD],
            EmitOp::Subtract => seq![OP_SUBTRACT],
            EmitOp::Multiply => seq![OP_MULTIPLY],
            EmitOp::Divide => seq![OP_DIVIDE],
            EmitOp::Negate => seq![OP_NEGATE],
        }),
{
    assert(seq![op].drop_first() =~= Seq::<EmitOp>::empty());
    assert(push_values(Seq::<EmitOp>::empty()) == Seq::<Value>::empty());
    assert(ops_bytes(Seq::<EmitOp>::empty(), base + 1) == Seq::<u8>::empty());
    assert(ops_bytes(Seq::<EmitOp>::empty(), base) == Seq::<u8>::empty());
    assert(push_values(seq![op]) =~= (match op {
        EmitOp::Push(v) => seq![v],
        _ => Seq::<Value>::empty(),
    }));
    assert(ops_bytes(seq![op], base) =~= (match op {
        EmitOp::Push(v) => seq![OP_CONSTANT, base as u8],
        EmitOp::Add => seq![OP_ADD],
        EmitOp::Subtract => seq![OP_SUBTRACT],
        EmitOp::Multiply => seq![OP_MULTIPLY],
        EmitOp::Divide => seq![OP_DIVIDE],
        EmitOp::Negate => seq![OP_NEGATE],
    }));
}

/// Emissions concatenate: the pooled values concatenate, and the bytes
/// concatenate with the second part's operand indices advanced by the first
/// part's pushes.
pub proof fn lemma_ops_append(a: Seq<EmitOp>, b: Seq<EmitOp>, base: int)
    ensures
        push_values(a + b) == push_values(a) + push_values(b),
        ops_bytes(a + b, base) == ops_bytes(a, base) + ops_bytes(
            b,
            base + push_values(a).len(),
        ),
    decreases a.len(),
{
    if a.len() == 0 {
        assert(a + b =~= b);
        assert(push_values(a) + push_values(b) =~= push_values(b));
        assert(ops_bytes(a, base) + ops_bytes(b, base) =~= ops_bytes(b, base));
    } else {
        let d = match a[0] {
            EmitOp::Push(v) => 1int,
            _ => 0int,
        };
        lemma_ops_append(a.drop_first(), b, base + d);
        assert((a + b).drop_first() =~= a.drop_first() + b);
        assert((a + b)[0] == a[0]);
        assert(push_values(a).len() == (match a[0] {
            EmitOp::Push(v) => 1int,
            _ => 0int,
        }) + push_values(a.drop_first()).len());
        assert(push_values(a + b) =~= push_values(a) + push_values(b));
        assert(ops_bytes(a + b, base) =~= ops_bytes(a, base) + ops_bytes(
            b,
            base + push_values(a).len(),
        ));
    }
}

/// A prefix of an emission pools no more values than the whole.
pub proof fn lemma_pv_prefix(tot: Seq<EmitOp>, k: int)
    requires
        0 <= k <= tot.len(),
    ensures
        push_values(tot.take(k)).len() <= push_values(tot).len(),
{
    assert(tot =~= tot.take(k) + tot.skip(k));
    lemma_ops_append(tot.take(k), tot.skip(k), 0);
}

/// Appending one byte is concatenation with a one-byte sequence.
pub proof fn lemma_push_byte(x: Seq<u8>, b: u8)
    ensures
        x.push(b) == x + seq![b],
{
    assert(x.push(b) =~= x + seq![b]);
}

/// The IEEE-754 result a binary operation computes from its two operands.
pub open spec fn apply2(op: EmitOp, a: u64, b: u64) -> u64 {
    match op {
        EmitOp::Add => num_add(a, b),
        EmitOp::Subtract => num_sub(a, b),
        EmitOp::Multiply => num_mul(a, b),
        EmitOp::Divide => num_div(a, b),
        _ => a,
    }
}

/// Running an emission on a value stack: a push pushes its value, a negation
/// replaces the top with its negation, a binary operation pops the right
/// operand, then the left, and pushes the result; `None` where the stack
/// runs short.
pub open spec fn ops_eval(ops: Seq<EmitOp>, stack: Seq<u64>) -> Option<Seq<u64>>
    decreases ops.len(),
{
    if ops.len() == 0 {
        Some(stack)
    } else {
        match ops[0] {
            EmitOp::Push(v) => ops_eval(ops.drop_first(), stack.push(v)),
            EmitOp::Negate => if stack.len() >= 1 {
                ops_eval(
                    ops.drop_first(),
                    stack.take(stack.len() - 1).push(negated(stack.last())),
                )
            } else {
                Option::<Seq<u64>>::None
            },
            _ => if stack.len() >= 2 {
                ops_eval(
                    ops.drop_first(),
                    stack.take(stack.len() - 2).push(
                        apply2(ops[0], stack[stack.len() - 2], stack.last()),
                    ),
                )
            } else {
                Option::<Seq<u64>>::None
            },
        }
    }
}

/// The value a well-formed emission computes.
pub open spec fn eval_value(ops: Seq<EmitOp>) -> u64 {
    match ops_eval(ops, Seq::empty()) {
        Some(st) => st.last(),
        None => 0,
    }
}

/// An emission that, on every stack, runs to completion and leaves exactly
/// its value on top of what was there. The parser only ever emits such
/// sequences.
pub open spec fn evals_one(ops: Seq<EmitOp>) -> bool {
    forall|stack: Seq<u64>|
        #![trigger ops_eval(ops, stack)]
        ops_eval(ops, stack) == Some(stack.push(eval_value(ops)))
}

/// Evaluation splits over concatenation: run the first part, then the second
/// on what it left.
pub proof fn lemma_ops_eval_append(a: Seq<EmitOp>, b: Seq<EmitOp>, stack: Seq<u64>)
    ensures
        ops_eval(a + b, stack) == (match ops_eval(a, stack) {
            Some(mid) => ops_eval(b, mid),
            None => Option::<Seq<u64>>::None,
        }),
    decreases a.len(),
{
    if a.len() == 0 {
        assert(a + b =~= b);
    } else {
        assert((a + b).drop_first() =~= a.drop_first() + b);
        assert((a + b)[0] == a[0]);
        match a[0] {
            EmitOp::Push(v) => {
                lemma_ops_eval_append(a.drop_first(), b, stack.push(v));
            },
            EmitOp::Negate => {
                if stack.len() >= 1 {
                    lemma_ops_eval_append(
                        a.drop_first(),
                        b,
                        stack.take(stack.len() - 1).push(negated(stack.last())),
                    );
                }
            },
            _ => {
                if stack.len() >= 2 {
                    lemma_ops_eval_append(
                        a.drop_first(),
                        b,
                        stack.take(stack.len() - 2).push(
                            apply2(a[0], stack[stack.len() - 2], stack.last()),
                        ),
                    );
                }
            },
        }
    }
}

/// The spec-level parser, folding part: from the token `v` under
/// consideration (the scanner standing just past it at `(cur, line)`),
/// fold in every binary operator that binds at least as strongly as
/// `min_prec`, appending each right operand's emission and then the
/// operator to the accumulator `acc`. `Some` carries the token under
/// consideration afterward, the scanner position and line past it, and the
/// whole emission; `None` means the parse goes wrong here.
pub open spec fn sp_infix(
    v: Token,
    s: Seq<char>,
    cur: int,
    line: int,
    min_prec: u8,
    acc: Seq<EmitOp>,
) -> Option<(Token, int, int, Seq<EmitOp>)>
    decreases s.len() - cur, 0int,
{
    if spec_infix_prec(v.ty) < min_prec {
        Some((v, cur, line, acc))
    } else {
        let st = spec_scan(s, cur, line);
        if st.result is Ok && cur < st.next && st.next <= s.len() {
            match sp_parse(
                step_token(st),
                s,
                st.next,
                st.line,
                (spec_infix_prec(v.ty) + 1) as u8,
            ) {
                Some((v2, c2, l2, rhs)) => {
                    if cur < c2 && c2 <= s.len() {
                        sp_infix(v2, s, c2, l2, min_prec, acc + rhs + seq![op_emit(v.ty)])
                    } else {
                        None
                    }
                },
                None => None,
            }
        } else {
            None
        }
    }
}

/// The spec-level parser: parse one expression at `min_prec`, starting from
/// the head token `t` with the scanner standing just past it. A number
/// emits a push of its pooled value and folds what follows; a unary minus
/// parses its operand at unary strength, emits the negation, and folds; an
/// opening parenthesis parses a full inner expression, demands the closing
/// parenthesis, and folds, emitting nothing of its own; any other head has
/// no prefix rule and the parse goes wrong.
pub open spec fn sp_parse(t: Token, s: Seq<char>, cur: int, line: int, min_prec: u8) -> Option<
    (Token, int, int, Seq<EmitOp>),
>
    decreases s.len() - cur, 1int,
{
    if t.ty == TokenType::Number {
        let st = spec_scan(s, cur, line);
        if st.result is Ok && cur <= st.next && st.next <= s.len() {
            sp_infix(
                step_token(st),
                s,
                st.next,
                st.line,
                min_prec,
                seq![EmitOp::Push(num_of_decimal(s.subrange(t.start as int, t.start + t.length)))],
            )
        } else {
            None
        }
    } else if t.ty == TokenType::Minus {
        let st = spec_scan(s, cur, line);
        if st.result is Ok && cur < st.next && st.next <= s.len() {
            match sp_parse(step_token(st), s, st.next, st.line, PREC_UNARY) {
                Some((v, c2, l2, inner)) => {
                    if cur < c2 && c2 <= s.len() {
                        sp_infix(v, s, c2, l2, min_prec, inner + seq![EmitOp::Negate])
                    } else {
                        None
                    }
                },
                None => None,
            }
        } else {
            None
        }
    } else if t.ty == TokenType::LeftParen {
        let st = spec_scan(s, cur, line);
        if st.result is Ok && cur < st.next && st.next <= s.len() {
            match sp_parse(step_token(st), s, st.next, st.line, PREC_ASSIGNMENT) {
                Some((v, c2, l2, inner)) => {
                    if v.ty == TokenType::RightParen {
                        let st2 = spec_scan(s, c2, l2);
                        if st2.result is Ok && cur < st2.next && st2.next <= s.len() {
                            sp_infix(step_token(st2), s, st2.next, st2.line, min_prec, inner)
                        } else {
                            None
                        }
                    } else {
                        None
                    }
                },
                None => None,
            }
        } else {
            None
        }
    } else {
        None
    }
}

/// The fold only appends to what it was handed: its result emission begins
/// with the accumulator.
pub proof fn lemma_sp_infix_extends(
    v: Token,
    s: Seq<char>,
    cur: int,
    line: int,
    min_prec: u8,
    acc: Seq<EmitOp>,
)
    ensures
        sp_infix(v, s, cur, line, min_prec, acc) matches Some((v2, c2, l2, tot)) ==> tot.len()
            >= acc.len() && tot.take(acc.len() as int) == acc,
    decreases s.len() - cur,
{
    if spec_infix_prec(v.ty) >= min_prec {
        let st = spec_scan(s, cur, line);
        if st.result is Ok && cur < st.next && st.next <= s.len() {
            match sp_parse(
                step_token(st),
                s,
                st.next,
                st.line,
                (spec_infix_prec(v.ty) + 1) as u8,
            ) {
                Some((v2, c2, l2, rhs)) => {
                    if cur < c2 && c2 <= s.len() {
                        let acc2 = acc + rhs + seq![op_emit(v.ty)];
                        lemma_sp_infix_extends(v2, s, c2, l2, min_prec, acc2);
                        match sp_infix(v2, s, c2, l2, min_prec, acc2) {
                            Some((v3, c3, l3, tot)) => {
                                assert forall|i: int| 0 <= i < acc.len() implies tot[i]
                                    == acc[i] by {
                                    assert(tot.take(acc2.len() as int)[i] == tot[i]);
                                    assert(acc2[i] == (acc + rhs)[i]);
                                    assert((acc + rhs)[i] == acc[i]);
                                }
                                assert(tot.take(acc.len() as int) =~= acc);
                            },
                            None => {},
                        }
                    }
                },
                None => {},
            }
        }
    }
}

/// One push evaluates to its value.
pub proof fn lemma_evals_one_push(v: u64)
    ensures
        evals_one(seq![EmitOp::Push(v)]),
        eval_value(seq![EmitOp::Push(v)]) == v,
{
    let one = seq![EmitOp::Push(v)];
    assert(one.drop_first() =~= Seq::<EmitOp>::empty());
    assert(ops_eval(Seq::<EmitOp>::empty(), Seq::<u64>::empty().push(v)) == Some(
        Seq::<u64>::empty().push(v),
    ));
    assert(ops_eval(one, Seq::empty()) == Some(Seq::<u64>::empty().push(v)));
    assert(Seq::<u64>::empty().push(v).last() == v);
    assert forall|stack: Seq<u64>| #![trigger ops_eval(one, stack)] ops_eval(one, stack) == Some(
        stack.push(eval_value(one)),
    ) by {
        assert(ops_eval(Seq::<EmitOp>::empty(), stack.push(v)) == Some(stack.push(v)));
        assert(ops_eval(one, stack) == ops_eval(Seq::<EmitOp>::empty(), stack.push(v)));
    }
}

/// Appending a negation negates the value an emission computes: unary minus
/// applies to its own operand alone, before anything that follows.
pub proof fn lemma_evals_one_negate(a: Seq<EmitOp>)
    requires
        evals_one(a),
    ensures
        evals_one(a + seq![EmitOp::Negate]),
        eval_value(a + seq![EmitOp::Negate]) == negated(eval_value(a)),
{
    let whole = a + seq![EmitOp::Negate];
    let va = eval_value(a);
    assert(seq![EmitOp::Negate].drop_first() =~= Seq::<EmitOp>::empty());
    assert forall|stack: Seq<u64>| #![trigger ops_eval(whole, stack)] ops_eval(whole, stack)
        == Some(stack.push(negated(va))) by {
        lemma_ops_eval_append(a, seq![EmitOp::Negate], stack);
        assert(ops_eval(a, stack) == Some(stack.push(va)));
        let mid = stack.push(va);
        assert(mid.len() >= 1);
        assert(mid.last() == va);
        assert(mid.take(mid.len() - 1) =~= stack);
        assert(ops_eval(Seq::<EmitOp>::empty(), stack.push(negated(va))) == Some(
            stack.push(negated(va)),
        ));
        assert(ops_eval(seq![EmitOp::Negate], mid) == ops_eval(
            Seq::<EmitOp>::empty(),
            stack.push(negated(va)),
        ));
    }
    assert(ops_eval(whole, Seq::empty()) == Some(Seq::<u64>::empty().push(negated(va))));
    assert(Seq::<u64>::empty().push(negated(va)).last() == negated(va));
}

/// Appending a binary operation combines the values of the two emissions
/// before it, the left one as the first operand: evaluation is strictly
/// left to right, which is what makes the parser's fold left-associative.
pub proof fn lemma_evals_one_bin(a: Seq<EmitOp>, b: Seq<EmitOp>, op: EmitOp)
    requires
        evals_one(a),
        evals_one(b),
        !(op is Push),
        !(op is Negate),
    ensures
        evals_one(a + b + seq![op]),
        eval_value(a + b + seq![op]) == apply2(op, eval_value(a), eval_value(b)),
{
    let whole = a + b + seq![op];
    let va = eval_value(a);
    let vb = eval_value(b);
    let r = apply2(op, va, vb);
    assert(seq![op].drop_first() =~= Seq::<EmitOp>::empty());
    assert forall|stack: Seq<u64>| #![trigger ops_eval(whole, stack)] ops_eval(whole, stack)
        == Some(stack.push(r)) by {
        assert(whole =~= (a + b) + seq![op]);
        lemma_ops_eval_append(a + b, seq![op], stack);
        lemma_ops_eval_append(a, b, stack);
        assert(ops_eval(a, stack) == Some(stack.push(va)));
        assert(ops_eval(b, stack.push(va)) == Some(stack.push(va).push(vb)));
        let mid = stack.push(va).push(vb);
        assert(mid.len() >= 2);
        assert(mid.last() == vb);
        assert(mid[mid.len() - 2] == va);
        assert(mid.take(mid.len() - 2) =~= stack);
        assert(ops_eval(Seq::<EmitOp>::empty(), stack.push(r)) == Some(stack.push(r)));
        assert(ops_eval(seq![op], mid) == ops_eval(Seq::<EmitOp>::empty(), stack.push(r)));
    }
    assert(ops_eval(whole, Seq::empty()) == Some(Seq::<u64>::empty().push(r)));
    assert(Seq::<u64>::empty().push(r).last() == r);
}

/// Whatever emission the parser's fold yields evaluates to one value,
/// provided the accumulator it extends does.
proof fn lemma_sp_infix_evals(
    v: Token,
    s: Seq<char>,
    cur: int,
    line: int,
    min_prec: u8,
    acc: Seq<EmitOp>,
)
    requires
        evals_one(acc),
    ensures
        sp_infix(v, s, cur, line, min_prec, acc) matches Some((v2, c2, l2, tot)) ==> evals_one(
            tot,
        ),
    decreases s.len() - cur, 0int,
{
    if spec_infix_prec(v.ty) >= min_prec {
        let st = spec_scan(s, cur, line);
        if st.result is Ok && cur < st.next && st.next <= s.len() {
            match sp_parse(
                step_token(st),
                s,
                st.next,
                st.line,
                (spec_infix_prec(v.ty) + 1) as u8,
            ) {
                Some((v2, c2, l2, rhs)) => {
                    if cur < c2 && c2 <= s.len() {
                        lemma_sp_parse_evals(
                            step_token(st),
                            s,
                            st.next,
                            st.line,
                            (spec_infix_prec(v.ty) + 1) as u8,
                        );
                        lemma_evals_one_bin(acc, rhs, op_emit(v.ty));
                        lemma_sp_infix_evals(
                            v2,
                            s,
                            c2,
                            l2,
                            min_prec,
                            acc + rhs + seq![op_emit(v.ty)],
                        );
                    }
                },
                None => {},
            }
        }
    }
}

/// Whatever emission the parser yields for one expression evaluates to one
/// value on every stack.
pub proof fn lemma_sp_parse_evals(t: Token, s: Seq<char>, cur: int, line: int, min_prec: u8)
    ensures
        sp_parse(t, s, cur, line, min_prec) matches Some((v, c2, l2, ops)) ==> evals_one(ops),
    decreases s.len() - cur, 1int,
{
    if t.ty == TokenType::Number {
        let st = spec_scan(s, cur, line);
        if st.result is Ok && cur <= st.next && st.next <= s.len() {
            lemma_evals_one_push(
                num_of_decimal(s.subrange(t.start as int, t.start + t.length)),
            );
            lemma_sp_infix_evals(
                step_token(st),
                s,
                st.next,
                st.line,
                min_prec,
                seq![
                    EmitOp::Push(
                        num_of_decimal(s.subrange(t.start as int, t.start + t.length)),
                    ),
                ],
            );
        }
    } else if t.ty == TokenType::Minus {
        let st = spec_scan(s, cur, line);
        if st.result is Ok && cur < st.next && st.next <= s.len() {
            match sp_parse(step_token(st), s, st.next, st.line, PREC_UNARY) {
                Some((v, c2, l2, inner)) => {
                    if cur < c2 && c2 <= s.len() {
                        lemma_sp_parse_evals(step_token(st), s, st.next, st.line, PREC_UNARY);
                        lemma_evals_one_negate(inner);
                        lemma_sp_infix_evals(
                            v,
                            s,
                            c2,
                            l2,
                            min_prec,
                            inner + seq![EmitOp::Negate],
                        );
                    }
                },
                None => {},
            }
        }
    } else if t.ty == TokenType::LeftParen {
        let st = spec_scan(s, cur, line);
        if st.result is Ok && cur < st.next && st.next <= s.len() {
            match sp_parse(step_token(st), s, st.next, st.line, PREC_ASSIGNMENT) {
                Some((v, c2, l2, inner)) => {
                    if v.ty == TokenType::RightParen {
                        let st2 = spec_scan(s, c2, l2);
                        if st2.result is Ok && cur < st2.next && st2.next <= s.len() {
                            lemma_sp_parse_evals(
                                step_token(st),
                                s,
                                st.next,
                                st.line,
                                PREC_ASSIGNMENT,
                            );
                            lemma_sp_infix_evals(
                                step_token(st2),
                                s,
                                st2.next,
                                st2.line,
                                min_prec,
                                inner,
                            );
                        }
                    }
                },
                None => {},
            }
        }
    }
}

/// What a successful parse of the model does to the compiler: no error, the
/// predicted token under consideration and scanner state, and exactly the
/// predicted emission — its bytes appended to the code with operand indices
/// continuing the pool, and its pooled values appended to the pool in order.
pub open spec fn parse_outcome(
    pre_c: Compiler,
    pre_s: Scanner,
    post_c: Compiler,
    post_s: Scanner,
    v: Token,
    c2: int,
    l2: int,
    ops: Seq<EmitOp>,
) -> bool {
    &&& !post_c.has_errors
    &&& post_c.current == Some(v)
    &&& post_s.current == c2
    &&& post_s.line == l2
    &&& post_c.chunk.code@ == pre_c.chunk.code@ + ops_bytes(
        ops,
        pre_c.chunk.constants@.len() as int,
    )
    &&& post_c.chunk.constants@ == pre_c.chunk.constants@ + push_values(ops)
}

impl Compiler {
    /// Shift to the next token exactly when the one under consideration has
    /// the expected kind; record the given diagnostic otherwise.
    fn consume(&mut self, ty: TokenType, scanner: &mut Scanner, message: &str)
        requires
            cs_ok(*old(self), *old(scanner)),
            old(self).current is Some,
        ensures
            cs_ok(*final(self), *final(scanner)),
            final(scanner).input@ == old(scanner).input@,
            final(self).chunk == old(self).chunk,
            final(self).current is Some,
            old(self).has_errors ==> final(self).has_errors,
            final(self).diagnostics@.len() >= old(self).diagnostics@.len(),
            final(self).diagnostics@.take(old(self).diagnostics@.len() as int) == old(self).diagnostics@,
            cur_start(*final(self)) >= cur_start(*old(self)),
            final(scanner).current >= old(scanner).current,
            ({
                let (st, errs) = spec_scan_to_next(
                    old(scanner).input@,
                    old(scanner).current as int,
                    old(scanner).line as int,
                );
                &&& (cur_token(*old(self)).ty == ty ==> final(self).previous == old(self).current
                    && final(self).has_errors == (old(self).has_errors || errs.len() > 0)
                    && final(scanner).current == st.next && final(scanner).line == st.line && (
                st.result matches Ok((ty2, length, tline)) && final(self).current == Some(
                    Token {
                        ty: ty2,
                        start: st.start as usize,
                        length: length as usize,
                        line: tline as usize,
                    },
                )))
                &&& (cur_token(*old(self)).ty != ty ==> *final(scanner) == *old(scanner) && final(self).current == old(self).current && final(self).previous == old(self).previous
                    && final(self).has_errors)
            }),
    {
        proof {
            lemma_scan_to_next_ok(scanner.input@, scanner.current as int, scanner.line as int);
        }
        let expected = match self.current {
            Some(t) => t.ty == ty,
            None => false,
        };
        if expected {
            self.advance(scanner);
        } else {
            self.error_at_current(message);
        }
    }

    /// Emit the code for the numeric literal just consumed: pool its value
    /// and reference it with a constant instruction. More constants than one
    /// operand byte can index is a compile-time error.
    fn number(&mut self, scanner: &Scanner)
        requires
            cs_ok(*old(self), *scanner),
            old(self).previous matches Some(t) && t.ty == TokenType::Number,
        ensures
            cs_ok(*final(self), *scanner),
            final(self).current == old(self).current,
            final(self).previous == old(self).previous,
            old(self).has_errors ==> final(self).has_errors,
            final(self).diagnostics@.len() >= old(self).diagnostics@.len(),
            final(self).diagnostics@.take(old(self).diagnostics@.len() as int) == old(self).diagnostics@,
            ({
                let t = match old(self).previous {
                    Some(t) => t,
                    None => Token { ty: TokenType::EOF, start: 0, length: 0, line: 0 },
                };
                let lex = scanner.input@.subrange(t.start as int, t.start + t.length);
                &&& final(self).chunk.constants@ == old(self).chunk.constants@.push(
                    num_of_decimal(lex),
                )
                &&& (old(self).chunk.constants@.len() < 256 ==> final(self).has_errors == old(self).has_errors && final(self).chunk.code@ == old(self).chunk.code@ + seq![
                    OP_CONSTANT,
                    (old(self).chunk.constants@.len() as u8),
                ] && decoded(final(self).chunk.code@) == decoded(old(self).chunk.code@).push(
                    Instr::Constant(old(self).chunk.constants@.len() as u8),
                ))
                &&& (old(self).chunk.constants@.len() >= 256 ==> final(self).has_errors && final(self).chunk.code@ == old(self).chunk.code@)
            }),
    {
        let t = self.previous.unwrap();
        let lex = lexeme_chars(scanner, t.start, t.length);
        let value = parse_number(lex.as_slice());
        let index = self.chunk.add_constant(value);
        if index > 255 {
            let prev = self.previous;
            self.error_at(prev, "Too many constants in one chunk.");
        } else {
            let line = t.line;
            let ghost code0 = self.chunk.code@;
            self.chunk.write(OP_CONSTANT, line);
            self.chunk.write(index as u8, line);
            proof {
                lemma_decode_push_constant(code0, index as u8);
                assert(self.chunk.code@ =~= code0 + seq![OP_CONSTANT, (index as u8)]);
                assert(self.chunk.code@ =~= code0.push(OP_CONSTANT).push(index as u8));
                assert(operands_in_range(
                    decoded(self.chunk.code@),
                    self.chunk.constants@.len() as int,
                )) by {
                    assert(decoded(self.chunk.code@) == decoded(code0).push(
                        Instr::Constant(index as u8),
                    ));
                    assert forall|i: int|
                        0 <= i < decoded(self.chunk.code@).len() implies (#[trigger] decoded(
                        self.chunk.code@,
                    )[i] matches Instr::Constant(k) ==> k
                        < self.chunk.constants@.len() as int) by {
                        if i < decoded(code0).len() {
                            assert(decoded(self.chunk.code@)[i] == decoded(code0)[i]);
                        } else {
                            assert(decoded(self.chunk.code@)[i] == Instr::Constant(index as u8));
                        }
                    }
                }
            }
        }
    }

    /// Parse a parenthesized expression: nothing is emitted for the pair of
    /// parentheses, and the closing one must be there.
    fn grouping(&mut self, scanner: &mut Scanner)
        requires
            cs_ok(*old(self), *old(scanner)),
            old(self).current is Some,
        ensures
            cs_ok(*final(self), *final(scanner)),
            final(scanner).input@ == old(scanner).input@,
            final(self).current is Some,
            old(self).has_errors ==> final(self).has_errors,
            final(self).diagnostics@.len() >= old(self).diagnostics@.len(),
            final(self).diagnostics@.take(old(self).diagnostics@.len() as int) == old(self).diagnostics@,
            cur_start(*final(self)) >= cur_start(*old(self)),
            ({
                let inner = literal_form_from(
                    cur_token(*old(self)),
                    old(scanner).input@,
                    old(scanner).current as int,
                    old(scanner).line as int,
                );
                let s0 = old(scanner).input@;
                (inner matches Some((k, lex, stop1)) && stop1.result matches Ok((tys1, ls1, tls1))
                    && tys1 == TokenType::RightParen && form_stops(
                    Some((k, lex, spec_scan(s0, stop1.next, stop1.line))),
                ) && !old(self).has_errors && old(self).chunk.constants@.len() < 256) ==> (
                inner matches Some((k2, lex2, stop1b)) && form_emission(
                    *old(self),
                    *old(scanner),
                    *final(self),
                    *final(scanner),
                    k2,
                    lex2,
                    spec_scan(s0, stop1b.next, stop1b.line),
                ))
            }),
            ({
                let m = sp_parse(
                    cur_token(*old(self)),
                    old(scanner).input@,
                    old(scanner).current as int,
                    old(scanner).line as int,
                    PREC_ASSIGNMENT,
                );
                let s0 = old(scanner).input@;
                (m matches Some((v, c2, l2, ops)) && v.ty == TokenType::RightParen && spec_scan(
                    s0,
                    c2,
                    l2,
                ).result is Ok && !old(self).has_errors && old(self).chunk.constants@.len()
                    + push_values(ops).len() <= 256) ==> (m matches Some((v2, c2b, l2b, opsb))
                    && ({
                    let st2 = spec_scan(s0, c2b, l2b);
                    &&& !final(self).has_errors
                    &&& final(self).current == Some(step_token(st2))
                    &&& final(scanner).current == st2.next
                    &&& final(scanner).line == st2.line
                    &&& final(self).chunk.code@ == old(self).chunk.code@ + ops_bytes(
                        opsb,
                        old(self).chunk.constants@.len() as int,
                    )
                    &&& final(self).chunk.constants@ == old(self).chunk.constants@
                        + push_values(opsb)
                }))
            }),
            final(scanner).current >= old(scanner).current,
            ({
                let m = sp_parse(
                    cur_token(*old(self)),
                    old(scanner).input@,
                    old(scanner).current as int,
                    old(scanner).line as int,
                    PREC_ASSIGNMENT,
                );
                let s0 = old(scanner).input@;
                !final(self).has_errors ==> (m matches Some((v, c2, l2, ops)) && v.ty
                    == TokenType::RightParen && ({
                    let st2 = spec_scan(s0, c2, l2);
                    &&& st2.result is Ok
                    &&& final(self).current == Some(step_token(st2))
                    &&& final(scanner).current == st2.next
                    &&& final(scanner).line == st2.line
                    &&& final(self).chunk.code@ == old(self).chunk.code@ + ops_bytes(
                        ops,
                        old(self).chunk.constants@.len() as int,
                    )
                    &&& final(self).chunk.constants@ == old(self).chunk.constants@
                        + push_values(ops)
                }))
            }),
        decreases old(scanner).input@.len() - cur_start(*old(self)), 3int,
    {
        self.expression(scanner);
        let ghost inner = literal_form_from(
            cur_token(*old(self)),
            old(scanner).input@,
            old(scanner).current as int,
            old(scanner).line as int,
        );
        proof {
            let m = sp_parse(
                cur_token(*old(self)),
                old(scanner).input@,
                old(scanner).current as int,
                old(scanner).line as int,
                PREC_ASSIGNMENT,
            );
            match m {
                Some((v, c2, l2, ops)) => {
                    if v.ty == TokenType::RightParen && spec_scan(
                        old(scanner).input@,
                        c2,
                        l2,
                    ).result is Ok && !old(self).has_errors && old(self).chunk.constants@.len()
                        + push_values(ops).len() <= 256 {
                        assert(spec_scan_to_next(scanner.input@, c2, l2) == (
                            spec_scan(scanner.input@, c2, l2),
                            Seq::<Error>::empty(),
                        ));
                    }
                },
                None => {},
            }
            match inner {
                Some((k, lex, stop1)) => {
                    match stop1.result {
                        Ok((tys1, ls1, tls1)) => {
                            if tys1 == TokenType::RightParen && form_stops(
                                Some(
                                    (
                                        k,
                                        lex,
                                        spec_scan(old(scanner).input@, stop1.next, stop1.line),
                                    ),
                                ),
                            ) && !old(self).has_errors && old(self).chunk.constants@.len()
                                < 256 {
                                assert(spec_infix_prec(TokenType::RightParen) == PREC_NONE);
                                assert(form_stops(inner));
                                assert(spec_scan_to_next(scanner.input@, stop1.next, stop1.line)
                                    == (
                                    spec_scan(scanner.input@, stop1.next, stop1.line),
                                    Seq::<Error>::empty(),
                                ));
                            }
                        },
                        Err(e) => {},
                    }
                },
                None => {},
            }
        }
        let ghost pre_consume_s = *scanner;
        self.consume(TokenType::RightParen, scanner, "Expect ')' after expression.");
        proof {
            if !self.has_errors {
                lemma_no_errors_means_ok(
                    pre_consume_s.input@,
                    pre_consume_s.current as int,
                    pre_consume_s.line as int,
                );
            }
        }
    }

    /// Parse the operand of a unary minus, then emit the negation. The
    /// operator was just consumed.
    fn unary(&mut self, scanner: &mut Scanner)
        requires
            cs_ok(*old(self), *old(scanner)),
            old(self).current is Some,
            old(self).previous matches Some(t) && t.ty == TokenType::Minus,
        ensures
            cs_ok(*final(self), *final(scanner)),
            final(scanner).input@ == old(scanner).input@,
            final(self).current is Some,
            old(self).has_errors ==> final(self).has_errors,
            final(self).diagnostics@.len() >= old(self).diagnostics@.len(),
            final(self).diagnostics@.take(old(self).diagnostics@.len() as int) == old(self).diagnostics@,
            cur_start(*final(self)) >= cur_start(*old(self)),
            ({
                let form = literal_form_from(
                    cur_token(*old(self)),
                    old(scanner).input@,
                    old(scanner).current as int,
                    old(scanner).line as int,
                );
                (form_stops(form) && !old(self).has_errors && old(self).chunk.constants@.len()
                    < 256) ==> (form matches Some((k, lex, stop)) && form_emission(
                    *old(self),
                    *old(scanner),
                    *final(self),
                    *final(scanner),
                    (k + 1) as nat,
                    lex,
                    stop,
                ))
            }),
            ({
                let m = sp_parse(
                    cur_token(*old(self)),
                    old(scanner).input@,
                    old(scanner).current as int,
                    old(scanner).line as int,
                    PREC_UNARY,
                );
                (m matches Some((v, c2, l2, ops)) && !old(self).has_errors && old(
                    self,
                ).chunk.constants@.len() + push_values(ops).len() <= 256) ==> (m matches Some(
                    (v2, c2b, l2b, opsb),
                ) && parse_outcome(
                    *old(self),
                    *old(scanner),
                    *final(self),
                    *final(scanner),
                    v2,
                    c2b,
                    l2b,
                    opsb + seq![EmitOp::Negate],
                ))
            }),
            final(scanner).current >= old(scanner).current,
            ({
                let m = sp_parse(
                    cur_token(*old(self)),
                    old(scanner).input@,
                    old(scanner).current as int,
                    old(scanner).line as int,
                    PREC_UNARY,
                );
                !final(self).has_errors ==> (m matches Some((v, c2, l2, ops)) && parse_outcome(
                    *old(self),
                    *old(scanner),
                    *final(self),
                    *final(scanner),
                    v,
                    c2,
                    l2,
                    ops + seq![EmitOp::Negate],
                ))
            }),
        decreases old(scanner).input@.len() - cur_start(*old(self)), 2int,
    {
        let line = self.previous.unwrap().line;
        self.parse_precedence(scanner, PREC_UNARY);
        let ghost code0 = self.chunk.code@;
        self.chunk.write(OP_NEGATE, line);
        proof {
            lemma_decode_push_simple(code0, OP_NEGATE);
            lemma_operands_push_simple(code0, OP_NEGATE, self.chunk.constants@.len() as int);
            let base = old(self).chunk.constants@.len() as int;
            match sp_parse(
                cur_token(*old(self)),
                old(scanner).input@,
                old(scanner).current as int,
                old(scanner).line as int,
                PREC_UNARY,
            ) {
                Some((v, c2, l2, inner)) => {
                    lemma_ops_append(inner, seq![EmitOp::Negate], base);
                    lemma_ops_one(EmitOp::Negate, base + push_values(inner).len());
                    lemma_push_byte(old(self).chunk.code@ + ops_bytes(inner, base), OP_NEGATE);
                    assert(old(self).chunk.code@ + (ops_bytes(inner, base) + seq![OP_NEGATE])
                        =~= old(self).chunk.code@ + ops_bytes(inner, base) + seq![OP_NEGATE]);
                    assert(old(self).chunk.constants@ + (push_values(inner)
                        + Seq::<Value>::empty()) =~= old(self).chunk.constants@ + push_values(
                        inner,
                    ));
                },
                None => {},
            }
            let form = literal_form_from(
                cur_token(*old(self)),
                old(scanner).input@,
                old(scanner).current as int,
                old(scanner).line as int,
            );
            if form_stops(form) && !old(self).has_errors && old(self).chunk.constants@.len()
                < 256 {
                match form {
                    Some((k, lex, stop)) => {
                        lemma_code_push_negate(
                            old(self).chunk.code@,
                            old(self).chunk.constants@.len() as u8,
                            k,
                        );
                    },
                    None => {},
                }
            }
        }
    }

    /// Parse the right operand of the binary operator just consumed, at one
    /// level above the operator's own precedence (left associativity), then
    /// emit the operator.
    fn binary(&mut self, scanner: &mut Scanner)
        requires
            cs_ok(*old(self), *old(scanner)),
            old(self).current is Some,
            old(self).previous matches Some(t) && (t.ty == TokenType::Plus || t.ty
                == TokenType::Minus || t.ty == TokenType::Star || t.ty == TokenType::Slash),
        ensures
            cs_ok(*final(self), *final(scanner)),
            final(scanner).input@ == old(scanner).input@,
            final(self).current is Some,
            old(self).has_errors ==> final(self).has_errors,
            final(self).diagnostics@.len() >= old(self).diagnostics@.len(),
            final(self).diagnostics@.take(old(self).diagnostics@.len() as int) == old(self).diagnostics@,
            cur_start(*final(self)) >= cur_start(*old(self)),
            ({
                let m = sp_parse(
                    cur_token(*old(self)),
                    old(scanner).input@,
                    old(scanner).current as int,
                    old(scanner).line as int,
                    (spec_infix_prec(prev_token(*old(self)).ty) + 1) as u8,
                );
                (m matches Some((v, c2, l2, ops)) && !old(self).has_errors && old(
                    self,
                ).chunk.constants@.len() + push_values(ops).len() <= 256) ==> (m matches Some(
                    (v2, c2b, l2b, opsb),
                ) && parse_outcome(
                    *old(self),
                    *old(scanner),
                    *final(self),
                    *final(scanner),
                    v2,
                    c2b,
                    l2b,
                    opsb + seq![op_emit(prev_token(*old(self)).ty)],
                ))
            }),
            final(scanner).current >= old(scanner).current,
            ({
                let m = sp_parse(
                    cur_token(*old(self)),
                    old(scanner).input@,
                    old(scanner).current as int,
                    old(scanner).line as int,
                    (spec_infix_prec(prev_token(*old(self)).ty) + 1) as u8,
                );
                !final(self).has_errors ==> (m matches Some((v, c2, l2, ops)) && parse_outcome(
                    *old(self),
                    *old(scanner),
                    *final(self),
                    *final(scanner),
                    v,
                    c2,
                    l2,
                    ops + seq![op_emit(prev_token(*old(self)).ty)],
                ))
            }),
        decreases old(scanner).input@.len() - cur_start(*old(self)), 2int,
    {
        let op = self.previous.unwrap();
        let prec = infix_precedence(op.ty);
        self.parse_precedence(scanner, prec + 1);
        let ghost code0 = self.chunk.code@;
        let byte = match op.ty {
            TokenType::Plus => OP_ADD,
            TokenType::Minus => OP_SUBTRACT,
            TokenType::Star => OP_MULTIPLY,
            TokenType::Slash => OP_DIVIDE,
            _ => OP_ADD,
        };
        self.chunk.write(byte, op.line);
        proof {
            lemma_decode_push_simple(code0, byte);
            lemma_operands_push_simple(code0, byte, self.chunk.constants@.len() as int);
            let base = old(self).chunk.constants@.len() as int;
            match sp_parse(
                cur_token(*old(self)),
                old(scanner).input@,
                old(scanner).current as int,
                old(scanner).line as int,
                (spec_infix_prec(prev_token(*old(self)).ty) + 1) as u8,
            ) {
                Some((v, c2, l2, rhs)) => {
                    lemma_ops_append(rhs, seq![op_emit(op.ty)], base);
                    lemma_ops_one(op_emit(op.ty), base + push_values(rhs).len());
                    assert(seq![byte] == ops_bytes(
                        seq![op_emit(op.ty)],
                        base + push_values(rhs).len(),
                    ));
                    lemma_push_byte(old(self).chunk.code@ + ops_bytes(rhs, base), byte);
                    assert(old(self).chunk.code@ + (ops_bytes(rhs, base) + seq![byte]) =~= old(
                        self,
                    ).chunk.code@ + ops_bytes(rhs, base) + seq![byte]);
                    assert(old(self).chunk.constants@ + (push_values(rhs)
                        + Seq::<Value>::empty()) =~= old(self).chunk.constants@ + push_values(
                        rhs,
                    ));
                },
                None => {},
            }
        }
    }

    /// Parse one expression.
    fn expression(&mut self, scanner: &mut Scanner)
        requires
            cs_ok(*old(self), *old(scanner)),
            old(self).current is Some,
        ensures
            cs_ok(*final(self), *final(scanner)),
            final(scanner).input@ == old(scanner).input@,
            final(self).current is Some,
            old(self).has_errors ==> final(self).has_errors,
            final(self).diagnostics@.len() >= old(self).diagnostics@.len(),
            final(self).diagnostics@.take(old(self).diagnostics@.len() as int) == old(self).diagnostics@,
            cur_start(*final(self)) >= cur_start(*old(self)),
            ({
                let form = literal_form_from(
                    cur_token(*old(self)),
                    old(scanner).input@,
                    old(scanner).current as int,
                    old(scanner).line as int,
                );
                (form_stops(form) && !old(self).has_errors && old(self).chunk.constants@.len()
                    < 256) ==> (form matches Some((k, lex, stop)) && form_emission(
                    *old(self),
                    *old(scanner),
                    *final(self),
                    *final(scanner),
                    k,
                    lex,
                    stop,
                ))
            }),
            ({
                let m = sp_parse(
                    cur_token(*old(self)),
                    old(scanner).input@,
                    old(scanner).current as int,
                    old(scanner).line as int,
                    PREC_ASSIGNMENT,
                );
                (m matches Some((v, c2, l2, ops)) && !old(self).has_errors && old(
                    self,
                ).chunk.constants@.len() + push_values(ops).len() <= 256) ==> (m matches Some(
                    (v2, c2b, l2b, opsb),
                ) && parse_outcome(
                    *old(self),
                    *old(scanner),
                    *final(self),
                    *final(scanner),
                    v2,
                    c2b,
                    l2b,
                    opsb,
                ))
            }),
            final(scanner).current >= old(scanner).current,
            ({
                let m = sp_parse(
                    cur_token(*old(self)),
                    old(scanner).input@,
                    old(scanner).current as int,
                    old(scanner).line as int,
                    PREC_ASSIGNMENT,
                );
                !final(self).has_errors ==> (m matches Some((v, c2, l2, ops)) && parse_outcome(
                    *old(self),
                    *old(scanner),
                    *final(self),
                    *final(scanner),
                    v,
                    c2,
                    l2,
                    ops,
                ))
            }),
        decreases old(scanner).input@.len() - cur_start(*old(self)), 2int,
    {
        self.parse_precedence(scanner, PREC_ASSIGNMENT);
    }

    /// Fold in every infix operator that binds at least as strongly as
    /// `min_prec`, keeping the running emission aligned with the spec-level
    /// fold that `m_entry` fixes.
    #[verifier::loop_isolation(false)]
    #[verifier::rlimit(100)]
    fn infix_fold(
        &mut self,
        scanner: &mut Scanner,
        min_prec: u8,
        Ghost(m_entry): Ghost<Option<(Token, int, int, Seq<EmitOp>)>>,
        Ghost(entry_c): Ghost<Compiler>,
        Ghost(acc0): Ghost<Seq<EmitOp>>,
        Ghost(fwd): Ghost<bool>,
    )
        requires
            cs_ok(*old(self), *old(scanner)),
            old(self).current is Some,
            min_prec >= PREC_ASSIGNMENT,
            entry_c.has_errors ==> old(self).has_errors,
            fwd ==> (m_entry matches Some((v, c2, l2, ops)) && !entry_c.has_errors
                && entry_c.chunk.constants@.len() + push_values(ops).len() <= 256),
            fwd ==> !old(self).has_errors,
            !old(self).has_errors ==> (m_entry == sp_infix(
                cur_token(*old(self)),
                old(scanner).input@,
                old(scanner).current as int,
                old(scanner).line as int,
                min_prec,
                acc0,
            ) && old(self).chunk.code@ == entry_c.chunk.code@ + ops_bytes(
                acc0,
                entry_c.chunk.constants@.len() as int,
            ) && old(self).chunk.constants@ == entry_c.chunk.constants@ + push_values(acc0)),
        ensures
            cs_ok(*final(self), *final(scanner)),
            final(scanner).input@ == old(scanner).input@,
            final(self).current is Some,
            old(self).has_errors ==> final(self).has_errors,
            final(self).diagnostics@.len() >= old(self).diagnostics@.len(),
            final(self).diagnostics@.take(old(self).diagnostics@.len() as int) == old(self).diagnostics@,
            cur_start(*final(self)) >= cur_start(*old(self)),
            final(scanner).current >= old(scanner).current,
            spec_infix_prec(cur_token(*old(self)).ty) < min_prec ==> (*final(self) == *old(self)
                && *final(scanner) == *old(scanner)),
            fwd ==> !final(self).has_errors,
            !final(self).has_errors ==> (m_entry matches Some((v, c2, l2, ops))
                && final(self).current == Some(v) && final(scanner).current == c2
                && final(scanner).line == l2
                && final(self).chunk.code@ == entry_c.chunk.code@ + ops_bytes(
                ops,
                entry_c.chunk.constants@.len() as int,
            ) && final(self).chunk.constants@ == entry_c.chunk.constants@ + push_values(ops)),
        decreases old(scanner).input@.len() - cur_start(*old(self)), 0int,
    {
        let ghost mut acc: Seq<EmitOp> = acc0;
        let ghost mid_c = *self;
        let ghost mid_s = *scanner;
        while infix_precedence(self.current.unwrap().ty) >= min_prec
            invariant
                cs_ok(*self, *scanner),
                scanner.input@ == old(scanner).input@,
                self.current is Some,
                mid_c.has_errors ==> self.has_errors,
                self.diagnostics@.len() >= old(self).diagnostics@.len(),
                self.diagnostics@.take(old(self).diagnostics@.len() as int) == old(self).diagnostics@,
                cur_start(*self) >= cur_start(mid_c),
                cur_start(mid_c) >= cur_start(*old(self)),
                spec_infix_prec(cur_token(mid_c).ty) < min_prec ==> (*self == mid_c && *scanner
                    == mid_s),
                scanner.current >= old(scanner).current,
                fwd ==> !self.has_errors,
                !self.has_errors ==> (m_entry == sp_infix(
                    cur_token(*self),
                    scanner.input@,
                    scanner.current as int,
                    scanner.line as int,
                    min_prec,
                    acc,
                ) && self.chunk.code@ == entry_c.chunk.code@ + ops_bytes(
                    acc,
                    entry_c.chunk.constants@.len() as int,
                ) && self.chunk.constants@ == entry_c.chunk.constants@ + push_values(acc)),
            decreases scanner.input@.len() - cur_start(*self),
        {
            let cur = self.current.unwrap();
            let ghost iter_c = *self;
            let ghost iter_s = *scanner;
            let ghost acc0 = acc;
            proof {
                if fwd {
                    let st = spec_scan(iter_s.input@, iter_s.current as int, iter_s.line as int);
                    assert(st.result is Ok);
                    assert(spec_scan_to_next(
                        iter_s.input@,
                        iter_s.current as int,
                        iter_s.line as int,
                    ) == (st, Seq::<Error>::empty()));
                }
            }
            self.advance(scanner);
            self.binary(scanner);
            proof {
                if fwd {
                    let st = spec_scan(iter_s.input@, iter_s.current as int, iter_s.line as int);
                    let m_b = sp_parse(
                        step_token(st),
                        iter_s.input@,
                        st.next,
                        st.line,
                        (spec_infix_prec(cur.ty) + 1) as u8,
                    );
                    match m_b {
                        Some((v2, c2, l2, rhs)) => {
                            let acc2 = acc0 + rhs + seq![op_emit(cur.ty)];
                            lemma_sp_infix_extends(
                                v2,
                                iter_s.input@,
                                c2,
                                l2,
                                min_prec,
                                acc2,
                            );
                            match sp_infix(v2, iter_s.input@, c2, l2, min_prec, acc2) {
                                Some((v4, c4, l4, tot)) => {
                                    lemma_pv_prefix(tot, acc2.len() as int);
                                    lemma_ops_append(acc0, rhs, 0);
                                    lemma_ops_append(acc0 + rhs, seq![op_emit(cur.ty)], 0);
                                    lemma_ops_one(op_emit(cur.ty), 0);
                                    assert(iter_c.chunk.constants@.len() + push_values(
                                        rhs,
                                    ).len() <= 256);
                                },
                                None => {},
                            }
                        },
                        None => {},
                    }
                    assert(!self.has_errors);
                }
                if !self.has_errors {
                    lemma_no_errors_means_ok(
                        iter_s.input@,
                        iter_s.current as int,
                        iter_s.line as int,
                    );
                    lemma_spec_scan_bounds(
                        iter_s.input@,
                        iter_s.current as int,
                        iter_s.line as int,
                    );
                    let st = spec_scan(iter_s.input@, iter_s.current as int, iter_s.line as int);
                    let m_b = sp_parse(
                        step_token(st),
                        iter_s.input@,
                        st.next,
                        st.line,
                        (spec_infix_prec(cur.ty) + 1) as u8,
                    );
                    match m_b {
                        Some((v2, c2, l2, rhs)) => {
                            lemma_ops_append(
                                acc0,
                                rhs + seq![op_emit(cur.ty)],
                                entry_c.chunk.constants@.len() as int,
                            );
                            lemma_ops_append(
                                rhs,
                                seq![op_emit(cur.ty)],
                                entry_c.chunk.constants@.len() as int + push_values(acc0).len(),
                            );
                            lemma_ops_one(
                                op_emit(cur.ty),
                                entry_c.chunk.constants@.len() as int + push_values(acc0).len() + push_values(
                                    rhs,
                                ).len(),
                            );
                            assert(acc0 + rhs + seq![op_emit(cur.ty)] =~= acc0 + (rhs + seq![
                                op_emit(cur.ty),
                            ]));
                            acc = acc0 + rhs + seq![op_emit(cur.ty)];
                        },
                        None => {},
                    }
                }
            }
        }
        proof {
            if !self.has_errors {
                assert(sp_infix(
                    cur_token(*self),
                    scanner.input@,
                    scanner.current as int,
                    scanner.line as int,
                    min_prec,
                    acc,
                ) == Some(
                    (cur_token(*self), scanner.current as int, scanner.line as int, acc),
                ));
            }
        }
    }

    /// The precedence-climbing core: parse a prefix production for the token
    /// under consideration, then fold in every infix operator that binds at
    /// least as strongly as `min_prec`.
    #[verifier::loop_isolation(false)]
    #[verifier::rlimit(100)]
    #[verifier::spinoff_prover]
    fn parse_precedence(&mut self, scanner: &mut Scanner, min_prec: u8)
        requires
            cs_ok(*old(self), *old(scanner)),
            old(self).current is Some,
            min_prec >= PREC_ASSIGNMENT,
        ensures
            cs_ok(*final(self), *final(scanner)),
            final(scanner).input@ == old(scanner).input@,
            final(self).current is Some,
            old(self).has_errors ==> final(self).has_errors,
            final(self).diagnostics@.len() >= old(self).diagnostics@.len(),
            final(self).diagnostics@.take(old(self).diagnostics@.len() as int) == old(self).diagnostics@,
            cur_start(*final(self)) >= cur_start(*old(self)),
            ({
                let form = literal_form_from(
                    cur_token(*old(self)),
                    old(scanner).input@,
                    old(scanner).current as int,
                    old(scanner).line as int,
                );
                (form_stops(form) && !old(self).has_errors && old(self).chunk.constants@.len()
                    < 256) ==> (form matches Some((k, lex, stop)) && form_emission(
                    *old(self),
                    *old(scanner),
                    *final(self),
                    *final(scanner),
                    k,
                    lex,
                    stop,
                ))
            }),
            ({
                let m = sp_parse(
                    cur_token(*old(self)),
                    old(scanner).input@,
                    old(scanner).current as int,
                    old(scanner).line as int,
                    min_prec,
                );
                (m matches Some((v, c2, l2, ops)) && !old(self).has_errors && old(
                    self,
                ).chunk.constants@.len() + push_values(ops).len() <= 256) ==> (m matches Some(
                    (v2, c2b, l2b, opsb),
                ) && parse_outcome(
                    *old(self),
                    *old(scanner),
                    *final(self),
                    *final(scanner),
                    v2,
                    c2b,
                    l2b,
                    opsb,
                ))
            }),
            final(scanner).current >= old(scanner).current,
            ({
                let m = sp_parse(
                    cur_token(*old(self)),
                    old(scanner).input@,
                    old(scanner).current as int,
                    old(scanner).line as int,
                    min_prec,
                );
                !final(self).has_errors ==> (m matches Some((v, c2, l2, ops)) && parse_outcome(
                    *old(self),
                    *old(scanner),
                    *final(self),
                    *final(scanner),
                    v,
                    c2,
                    l2,
                    ops,
                ))
            }),
        decreases old(scanner).input@.len() - cur_start(*old(self)), 1int,
    {
        let ghost entry_c = *self;
        let ghost entry_s = *scanner;
        let ghost m_entry = sp_parse(
            cur_token(entry_c),
            entry_s.input@,
            entry_s.current as int,
            entry_s.line as int,
            min_prec,
        );
        let ghost entry_consts = entry_c.chunk.constants@.len();
        let ghost omt = match m_entry {
            Some((v, c2, l2, ops)) => ops,
            None => Seq::<EmitOp>::empty(),
        };
        let ghost fwd = m_entry is Some && !entry_c.has_errors && entry_consts + push_values(
            omt,
        ).len() <= 256;
        let ghost mut acc: Seq<EmitOp> = Seq::empty();
        proof {
            lemma_scan_to_next_ok(scanner.input@, scanner.current as int, scanner.line as int);
            lemma_spec_scan_bounds(scanner.input@, scanner.current as int, scanner.line as int);
        }
        self.advance(scanner);
        let prev = self.previous.unwrap();
        match prev.ty {
            TokenType::Number => {
                self.number(scanner);
                proof {
                    let st = spec_scan(
                        entry_s.input@,
                        entry_s.current as int,
                        entry_s.line as int,
                    );
                    let op0 = EmitOp::Push(
                        num_of_decimal(
                            entry_s.input@.subrange(prev.start as int, prev.start + prev.length),
                        ),
                    );
                    acc = seq![op0];
                    lemma_ops_one(op0, entry_consts as int);
                    if fwd {
                        assert(st.result is Ok);
                        assert(spec_scan_to_next(
                            entry_s.input@,
                            entry_s.current as int,
                            entry_s.line as int,
                        ) == (st, Seq::<Error>::empty()));
                        lemma_sp_infix_extends(
                            step_token(st),
                            entry_s.input@,
                            st.next,
                            st.line,
                            min_prec,
                            acc,
                        );
                        lemma_pv_prefix(omt, acc.len() as int);
                        assert(!self.has_errors);
                    }
                    if !self.has_errors {
                        lemma_no_errors_means_ok(
                            entry_s.input@,
                            entry_s.current as int,
                            entry_s.line as int,
                        );
                        assert(self.chunk.code@ == entry_c.chunk.code@ + ops_bytes(
                            acc,
                            entry_consts as int,
                        ));
                        assert(self.chunk.constants@ == entry_c.chunk.constants@ + push_values(
                            acc,
                        ));
                        assert(m_entry == sp_infix(
                            cur_token(*self),
                            scanner.input@,
                            scanner.current as int,
                            scanner.line as int,
                            min_prec,
                            acc,
                        ));
                    }
                }
            },
            TokenType::LeftParen => {
                let ghost pre_c2 = *self;
                let ghost pre_s2 = *scanner;
                self.grouping(scanner);
                proof {
                    let st = spec_scan(
                        entry_s.input@,
                        entry_s.current as int,
                        entry_s.line as int,
                    );
                    let m_g = sp_parse(
                        cur_token(pre_c2),
                        pre_s2.input@,
                        pre_s2.current as int,
                        pre_s2.line as int,
                        PREC_ASSIGNMENT,
                    );
                    match m_g {
                        Some((v, c2, l2, inner)) => {
                            acc = inner;
                        },
                        None => {},
                    }
                    if fwd {
                        assert(st.result is Ok);
                        assert(spec_scan_to_next(
                            entry_s.input@,
                            entry_s.current as int,
                            entry_s.line as int,
                        ) == (st, Seq::<Error>::empty()));
                        match m_g {
                            Some((v, c2, l2, inner)) => {
                                let st2 = spec_scan(pre_s2.input@, c2, l2);
                                lemma_sp_infix_extends(
                                    step_token(st2),
                                    pre_s2.input@,
                                    st2.next,
                                    st2.line,
                                    min_prec,
                                    inner,
                                );
                                lemma_pv_prefix(omt, inner.len() as int);
                            },
                            None => {},
                        }
                        assert(!self.has_errors);
                    }
                    if !self.has_errors {
                        lemma_no_errors_means_ok(
                            entry_s.input@,
                            entry_s.current as int,
                            entry_s.line as int,
                        );
                        assert(self.chunk.code@ == entry_c.chunk.code@ + ops_bytes(
                            acc,
                            entry_consts as int,
                        ));
                        assert(self.chunk.constants@ == entry_c.chunk.constants@ + push_values(
                            acc,
                        ));
                        assert(m_entry == sp_infix(
                            cur_token(*self),
                            scanner.input@,
                            scanner.current as int,
                            scanner.line as int,
                            min_prec,
                            acc,
                        ));
                    }
                }
            },
            TokenType::Minus => {
                let ghost pre_c2 = *self;
                let ghost pre_s2 = *scanner;
                self.unary(scanner);
                proof {
                    let st = spec_scan(
                        entry_s.input@,
                        entry_s.current as int,
                        entry_s.line as int,
                    );
                    let m_u = sp_parse(
                        cur_token(pre_c2),
                        pre_s2.input@,
                        pre_s2.current as int,
                        pre_s2.line as int,
                        PREC_UNARY,
                    );
                    match m_u {
                        Some((v, c2, l2, inner)) => {
                            acc = inner + seq![EmitOp::Negate];
                            lemma_ops_append(inner, seq![EmitOp::Negate], entry_consts as int);
                            lemma_ops_one(
                                EmitOp::Negate,
                                entry_consts as int + push_values(inner).len(),
                            );
                        },
                        None => {},
                    }
                    if fwd {
                        assert(st.result is Ok);
                        assert(spec_scan_to_next(
                            entry_s.input@,
                            entry_s.current as int,
                            entry_s.line as int,
                        ) == (st, Seq::<Error>::empty()));
                        match m_u {
                            Some((v, c2, l2, inner)) => {
                                lemma_sp_infix_extends(
                                    v,
                                    pre_s2.input@,
                                    c2,
                                    l2,
                                    min_prec,
                                    inner + seq![EmitOp::Negate],
                                );
                                lemma_pv_prefix(omt, (inner.len() + 1) as int);
                            },
                            None => {},
                        }
                        assert(!self.has_errors);
                    }
                    if !self.has_errors {
                        lemma_no_errors_means_ok(
                            entry_s.input@,
                            entry_s.current as int,
                            entry_s.line as int,
                        );
                        assert(self.chunk.code@ == entry_c.chunk.code@ + ops_bytes(
                            acc,
                            entry_consts as int,
                        ));
                        assert(self.chunk.constants@ == entry_c.chunk.constants@ + push_values(
                            acc,
                        ));
                        assert(m_entry == sp_infix(
                            cur_token(*self),
                            scanner.input@,
                            scanner.current as int,
                            scanner.line as int,
                            min_prec,
                            acc,
                        ));
                    }
                }
            },
            _ => {
                let at = self.previous;
                self.error_at(at, "Expect expression.");
                return ;
            },
        }
        let ghost form_entry = literal_form_from(
            cur_token(entry_c),
            entry_s.input@,
            entry_s.current as int,
            entry_s.line as int,
        );
        let ghost form_cond = form_stops(form_entry) && !entry_c.has_errors
            && entry_c.chunk.constants@.len() < 256;
        proof {
            if form_cond {
                match form_entry {
                    Some((k, lex, stop)) => {
                        if cur_token(entry_c).ty == TokenType::Number {
                            assert(spec_scan_to_next(
                                entry_s.input@,
                                entry_s.current as int,
                                entry_s.line as int,
                            ) == (stop, Seq::<Error>::empty()));
                            assert(neg_bytes(0) =~= Seq::<u8>::empty());
                            assert(self.chunk.code@ =~= entry_c.chunk.code@ + seq![
                                OP_CONSTANT,
                                (entry_c.chunk.constants@.len() as u8),
                            ] + neg_bytes(0));
                            assert(form_emission(entry_c, entry_s, *self, *scanner, k, lex, stop));
                        } else {
                            let st = spec_scan(
                                entry_s.input@,
                                entry_s.current as int,
                                entry_s.line as int,
                            );
                            assert(spec_scan_to_next(
                                entry_s.input@,
                                entry_s.current as int,
                                entry_s.line as int,
                            ) == (st, Seq::<Error>::empty()));
                            assert(form_emission(entry_c, entry_s, *self, *scanner, k, lex, stop));
                        }
                    },
                    None => {},
                }
            }
        }
        self.infix_fold(scanner, min_prec, Ghost(m_entry), Ghost(entry_c), Ghost(acc), Ghost(fwd));
    }
}

/// Pushing a zero-operand instruction keeps every constant operand in range.
proof fn lemma_operands_push_simple(code: Seq<u8>, b: u8, n: int)
    requires
        decodes(code),
        OP_ADD <= b <= OP_RETURN,
        operands_in_range(decoded(code), n),
    ensures
        operands_in_range(decoded(code.push(b)), n),
{
    lemma_decode_push_simple(code, b);
    let after = decoded(code.push(b));
    assert forall|i: int|
        0 <= i < after.len() implies (#[trigger] after[i] matches Instr::Constant(k) ==> k
        < n) by {
        if i < decoded(code).len() {
            assert(after[i] == decoded(code)[i]);
        } else {
            assert(after[i] == crate::chunk::simple_instr(b));
        }
    }
}

/// The source text reads, after its first token, as exactly one numeric
/// literal under any nesting of unary minus and parentheses.
pub open spec fn literal_source_form(s: Seq<char>) -> Option<(nat, Seq<char>, ScanStep)> {
    let st0 = spec_scan(s, 0, 1);
    if st0.result is Ok {
        literal_form_from(step_token(st0), s, st0.next, st0.line)
    } else {
        None
    }
}

/// The whole source text is one such literal form and nothing else: the
/// token after the form is the terminal end-of-input token.
pub open spec fn literal_source(s: Seq<char>) -> bool {
    literal_source_form(s) matches Some((k, lex, stop)) && stop.result matches Ok(
        (tys, ls, tls),
    ) && tys == TokenType::EOF
}

/// How the whole source text parses as one expression: the first token
/// begins it, and the model follows the grammar from there.
pub open spec fn source_parse(s: Seq<char>) -> Option<(Token, int, int, Seq<EmitOp>)> {
    let st0 = spec_scan(s, 0, 1);
    if st0.result is Ok {
        sp_parse(step_token(st0), s, st0.next, st0.line, PREC_ASSIGNMENT)
    } else {
        None
    }
}

/// The source text is one whole well-formed expression — it parses to the
/// terminal end-of-input token — pooling at most the 256 constants one
/// operand byte can index.
pub open spec fn expression_source(s: Seq<char>) -> bool {
    source_parse(s) matches Some((v, c2, l2, ops)) && v.ty == TokenType::EOF && push_values(
        ops,
    ).len() <= 256
}

/// Compile one expression into a fresh chunk, handing back every diagnostic
/// recorded on the way so that a caller can report them. Compilation
/// succeeds exactly on the well-formed expressions: the sources whose tokens
/// parse, by the grammar `sp_parse`, to the end of input, pooling at most
/// the 256 constants one operand byte can index. On success there are no
/// diagnostics and the chunk decodes cleanly, every constant operand points
/// into its pool, and the code ends with a return instruction; on failure
/// the error is a compile error, never any other kind, and at least one
/// diagnostic explains it. A source that is one numeric literal under any
/// nesting of unary minus and parentheses compiles to precisely the constant
/// instruction, its negations, and a return, with the literal's value as the
/// whole pool.
pub fn compile_with_diagnostics(source: &str) -> (r: (Result<Chunk, Error>, Vec<Diagnostic>))
    requires
        source@.len() + 1 < usize::MAX,
    ensures
        expression_source(source@) ==> r.0 is Ok,
        r.0 is Ok ==> expression_source(source@),
        r.0 matches Ok(c) ==> (source_parse(source@) matches Some((v, c2, l2, ops)) && c.code@
            == ops_bytes(ops, 0) + seq![OP_RETURN] && c.constants@ == push_values(ops)),
        r.0 matches Err(e) ==> e == Error::CompileError && r.1@.len() > 0,
        r.0 matches Ok(c) ==> r.1@.len() == 0,
        ({
            let st = spec_scan(source@, 0, 1);
            st.result matches Err((c, l)) ==> r.1@.len() >= 1 && r.1@[0].line == l as usize
                && r.1@[0].at == DiagAt::Character(c) && r.1@[0].message@
                == "Unexpected character."@
        }),
        r.0 matches Ok(c) ==> c.wf() && decodes(c.code@) && operands_in_range(
            decoded(c.code@),
            c.constants@.len() as int,
        ) && decoded(c.code@).len() >= 1 && decoded(c.code@).last() == Instr::Return,
        literal_source(source@) ==> (r.0 matches Ok(c) && (literal_source_form(source@) matches Some(
            (k, lex, stop),
        ) ==> c.code@ == seq![OP_CONSTANT, 0u8] + neg_bytes(k) + seq![OP_RETURN] && c.constants@
            == seq![num_of_decimal(lex)])),
{
    let text = String::from_str(source);
    let mut scanner = Scanner::new(text);
    let mut compiler = Compiler::new();
    proof {
        lemma_scan_to_next_ok(scanner.input@, scanner.current as int, scanner.line as int);
    }
    compiler.advance(&mut scanner);
    proof {
        if literal_source(source@) || expression_source(source@) {
            let st0 = spec_scan(source@, 0, 1);
            assert(spec_scan_to_next(source@, 0, 1) == (st0, Seq::<Error>::empty()));
            assert(compiler.current == Some(step_token(st0)));
            assert(spec_infix_prec(TokenType::EOF) == PREC_NONE);
        }
        if !compiler.has_errors {
            lemma_no_errors_means_ok(source@, 0, 1);
        }
        lemma_scan_to_next_first_error(source@, 0, 1);
    }
    let ghost diags1 = compiler.diagnostics@;
    compiler.expression(&mut scanner);
    let ghost diags2 = compiler.diagnostics@;
    proof {
        if literal_source(source@) || expression_source(source@) {
            assert(cur_token(compiler).ty == TokenType::EOF);
            assert(scanner.current == scanner.input@.len());
            assert(spec_scan_to_next(
                scanner.input@,
                scanner.current as int,
                scanner.line as int,
            ) == (
                spec_scan(scanner.input@, scanner.current as int, scanner.line as int),
                Seq::<Error>::empty(),
            ));
        }
    }
    compiler.consume(TokenType::EOF, &mut scanner, "Expect end of expression");
    proof {
        let st0 = spec_scan(source@, 0, 1);
        match st0.result {
            Ok(t) => {},
            Err(e) => {
                let (c, l) = e;
                assert(diags1.len() >= 1);
                assert(scan_error_diag(diags1[0], Error::ScanError(c, l as usize)));
                assert forall|i: int|
                    0 <= i < diags1.len() implies compiler.diagnostics@[i] == diags1[i] by {
                    assert(compiler.diagnostics@.take(diags2.len() as int)[i]
                        == compiler.diagnostics@[i]);
                    assert(diags2.take(diags1.len() as int)[i] == diags2[i]);
                }
            },
        }
    }
    if compiler.has_errors {
        (Err(Error::CompileError), compiler.diagnostics)
    } else {
        let line = match compiler.previous {
            Some(t) => t.line,
            None => 0,
        };
        let ghost code0 = compiler.chunk.code@;
        compiler.chunk.write(OP_RETURN, line);
        proof {
            lemma_decode_push_simple(code0, OP_RETURN);
            lemma_operands_push_simple(code0, OP_RETURN, compiler.chunk.constants@.len() as int);
            match source_parse(source@) {
                Some((v, c2, l2, ops)) => {
                    if !compiler.has_errors {
                        lemma_push_byte(Seq::<u8>::empty() + ops_bytes(ops, 0), OP_RETURN);
                        assert(Seq::<u8>::empty() + ops_bytes(ops, 0) =~= ops_bytes(ops, 0));
                        assert(Seq::<u8>::empty() + ops_bytes(ops, 0) + seq![OP_RETURN]
                            =~= ops_bytes(ops, 0) + seq![OP_RETURN]);
                        assert(Seq::<Value>::empty() + push_values(ops) =~= push_values(ops));
                    }
                },
                None => {},
            }
            if literal_source(source@) {
                match literal_source_form(source@) {
                    Some((k, lex, stop)) => {
                        lemma_code_push_return(Seq::<u8>::empty(), 0u8, k);
                        assert(Seq::<u8>::empty() + seq![OP_CONSTANT, 0u8] =~= seq![
                            OP_CONSTANT,
                            0u8,
                        ]);
                        assert(compiler.chunk.code@ == Seq::<u8>::empty() + seq![
                            OP_CONSTANT,
                            0u8,
                        ] + neg_bytes(k) + seq![OP_RETURN]);
                        assert(compiler.chunk.code@ == seq![OP_CONSTANT, 0u8] + neg_bytes(k)
                            + seq![OP_RETURN]);
                        assert(compiler.chunk.constants@ =~= seq![num_of_decimal(lex)]);
                    },
                    None => {},
                }
            }
        }
        (Ok(compiler.chunk), compiler.diagnostics)
    }
}

/// Compile one expression into a fresh chunk; the diagnostics are dropped
/// here, so callers that report them use `compile_with_diagnostics`, whose
/// contract this function shares.
pub fn compile(source: &str) -> (r: Result<Chunk, Error>)
    requires
        source@.len() + 1 < usize::MAX,
    ensures
        expression_source(source@) ==> r is Ok,
        r is Ok ==> expression_source(source@),
        r matches Ok(c) ==> (source_parse(source@) matches Some((v, c2, l2, ops)) && c.code@
            == ops_bytes(ops, 0) + seq![OP_RETURN] && c.constants@ == push_values(ops)),
        r matches Err(e) ==> e == Error::CompileError,
        r matches Ok(c) ==> c.wf() && decodes(c.code@) && operands_in_range(
            decoded(c.code@),
            c.constants@.len() as int,
        ) && decoded(c.code@).len() >= 1 && decoded(c.code@).last() == Instr::Return,
        literal_source(source@) ==> (r matches Ok(c) && (literal_source_form(source@) matches Some(
            (k, lex, stop),
        ) ==> c.code@ == seq![OP_CONSTANT, 0u8] + neg_bytes(k) + seq![OP_RETURN] && c.constants@
            == seq![num_of_decimal(lex)])),
{
    let (result, _diagnostics) = compile_with_diagnostics(source);
    result
}

} // verus!
