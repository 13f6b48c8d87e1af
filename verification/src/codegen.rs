//! Single-pass code generation: walking the syntax tree and driving an
//! [`emitter::Emitter`] to produce the final text artifact.

pub mod emitter;
pub mod llvm;

use vstd::prelude::*;
use vstd::string::StringExecFns;

use crate::parser::{
    Block, BlockV, Expression, ExpressionV, Lhs, LhsV, Program, ProgramV, Rhs, RhsV, Statement,
    StatementV, Statements, StatementsV,
};
use crate::token::str_eq;
use emitter::{
    AbsOp, EMIT_LIMIT, Emitter, abs_ops, lemma_abs_ops_push, lemma_wf_push_begin,
    lemma_wf_push_end, lemma_wf_push_simple, transcript_wf,
};

verus! {

/// An error produced by code generation.
#[derive(Debug, PartialEq)]
pub enum CodegenError {
    /// An assignment names a variable other than the one reserved pointer
    /// variable.
    InvalidVariableName { name: String },
    /// A call names a function other than the two I/O primitives.
    InvalidFunctionName { name: String },
    /// A syntactically valid construct that code generation does not
    /// support.
    NotImplemented,
}

/// The mathematical model of [`CodegenError`].
pub enum CodegenErrorV {
    InvalidVariableName(Seq<char>),
    InvalidFunctionName(Seq<char>),
    NotImplemented,
}

impl View for CodegenError {
    type V = CodegenErrorV;

    open spec fn view(&self) -> CodegenErrorV {
        match self {
            CodegenError::InvalidVariableName { name } => CodegenErrorV::InvalidVariableName(
                name@,
            ),
            CodegenError::InvalidFunctionName { name } => CodegenErrorV::InvalidFunctionName(
                name@,
            ),
            CodegenError::NotImplemented => CodegenErrorV::NotImplemented,
        }
    }
}

/// The characters of the reserved pointer variable's name.
pub open spec fn ptr_chars() -> Seq<char> {
    seq!['p', 't', 'r']
}

/// The characters of the input primitive's name.
pub open spec fn getchar_chars() -> Seq<char> {
    seq!['g', 'e', 't', 'c', 'h', 'a', 'r']
}

/// The characters of the output primitive's name.
pub open spec fn putchar_chars() -> Seq<char> {
    seq!['p', 'u', 't', 'c', 'h', 'a', 'r']
}

/// Negation at the 32-bit boundary: the one value with no 32-bit negation
/// wraps to itself, as the reference backend's arithmetic does.
pub open spec fn neg32(n: int) -> int {
    if n == -0x8000_0000 {
        n
    } else {
        -n
    }
}

/// Lowers one expression to its operation, or to the error that rejects
/// it: pointer moves and cell updates must name the reserved pointer
/// variable, calls must name one of the two I/O primitives, and a bare
/// reference has no supported lowering.
pub open spec fn sgen_expression(e: ExpressionV) -> Result<AbsOp, CodegenErrorV> {
    match e {
        ExpressionV::AssignAdd(LhsV::Pointer(p), RhsV::Number(n)) => if p == ptr_chars() {
            Ok(AbsOp::MovePtr(n))
        } else {
            Err(CodegenErrorV::InvalidVariableName(p))
        },
        ExpressionV::AssignSub(LhsV::Pointer(p), RhsV::Number(n)) => if p == ptr_chars() {
            Ok(AbsOp::MovePtr(neg32(n)))
        } else {
            Err(CodegenErrorV::InvalidVariableName(p))
        },
        ExpressionV::AssignAdd(LhsV::Dereference(p), RhsV::Number(n)) => if p == ptr_chars() {
            Ok(AbsOp::AddCell(n))
        } else {
            Err(CodegenErrorV::InvalidVariableName(p))
        },
        ExpressionV::AssignSub(LhsV::Dereference(p), RhsV::Number(n)) => if p == ptr_chars() {
            Ok(AbsOp::AddCell(neg32(n)))
        } else {
            Err(CodegenErrorV::InvalidVariableName(p))
        },
        ExpressionV::FunctionCall(LhsV::Pointer(f)) => if f == getchar_chars() {
            Ok(AbsOp::CallGetchar)
        } else if f == putchar_chars() {
            Ok(AbsOp::CallPutchar)
        } else {
            Err(CodegenErrorV::InvalidFunctionName(f))
        },
        _ => Err(CodegenErrorV::NotImplemented),
    }
}

/// Lowers a while statement: the condition must be a dereference of the
/// reserved pointer variable; the body's operations are framed by a loop
/// begin and, when the body lowers completely, a loop end.
pub open spec fn sgen_while(cond: ExpressionV, body: BlockV) -> (Seq<AbsOp>, Option<
    CodegenErrorV,
>)
    decreases body, 1int,
{
    match cond {
        ExpressionV::Lhs(LhsV::Dereference(p)) => if p != ptr_chars() {
            (Seq::empty(), Some(CodegenErrorV::InvalidVariableName(p)))
        } else {
            let body_out = sgen_block(body);
            match body_out.1 {
                Some(e) => (seq![AbsOp::LoopBegin] + body_out.0, Some(e)),
                None => (seq![AbsOp::LoopBegin] + body_out.0 + seq![AbsOp::LoopEnd], None),
            }
        },
        _ => (Seq::empty(), Some(CodegenErrorV::NotImplemented)),
    }
}

/// Lowers one statement: the operations emitted before the first failure,
/// and that failure if there is one.
pub open spec fn sgen_statement(st: StatementV) -> (Seq<AbsOp>, Option<CodegenErrorV>)
    decreases st, 0int,
{
    match st {
        StatementV::Expression(e) => match sgen_expression(e) {
            Ok(op) => (seq![op], None),
            Err(er) => (Seq::empty(), Some(er)),
        },
        StatementV::Block(b) => sgen_block(*b),
        StatementV::While(cond, body) => sgen_while(cond, *body),
    }
}

/// Lowers a statement chain in source order, stopping at the first failure.
pub open spec fn sgen_statements(ss: StatementsV) -> (Seq<AbsOp>, Option<CodegenErrorV>)
    decreases ss, 0int,
{
    match ss {
        StatementsV::Statement(s) => sgen_statement(s),
        StatementsV::Statements(prev, s) => {
            let first = sgen_statements(*prev);
            match first.1 {
                Some(e) => (first.0, Some(e)),
                None => {
                    let second = sgen_statement(s);
                    (first.0 + second.0, second.1)
                },
            }
        },
    }
}

/// Lowers a block: its statement chain.
pub open spec fn sgen_block(b: BlockV) -> (Seq<AbsOp>, Option<CodegenErrorV>)
    decreases b, 0int,
{
    match b {
        BlockV::Statements(ss) => sgen_statements(ss),
    }
}

/// Lowers a program: its statement chain.
pub open spec fn sgen_program(p: ProgramV) -> (Seq<AbsOp>, Option<CodegenErrorV>) {
    match p {
        ProgramV::Statements(ss) => sgen_statements(ss),
    }
}

/// An upper bound on the operations a statement can emit.
pub open spec fn statement_op_bound(st: StatementV) -> int
    decreases st, 0int,
{
    match st {
        StatementV::Expression(_) => 1,
        StatementV::Block(b) => block_op_bound(*b),
        StatementV::While(_, body) => 2 + block_op_bound(*body),
    }
}

/// An upper bound on the operations a statement chain can emit.
pub open spec fn statements_op_bound(ss: StatementsV) -> int
    decreases ss, 0int,
{
    match ss {
        StatementsV::Statement(s) => statement_op_bound(s),
        StatementsV::Statements(prev, s) => statements_op_bound(*prev) + statement_op_bound(s),
    }
}

/// An upper bound on the operations a block can emit.
pub open spec fn block_op_bound(b: BlockV) -> int
    decreases b, 0int,
{
    match b {
        BlockV::Statements(ss) => statements_op_bound(ss),
    }
}

/// An upper bound on the operations a program can emit.
pub open spec fn program_op_bound(p: ProgramV) -> int {
    match p {
        ProgramV::Statements(ss) => statements_op_bound(ss),
    }
}

/// The lowering of a statement emits no more operations than its bound.
pub proof fn lemma_statement_ops_bound(st: StatementV)
    ensures
        0 <= sgen_statement(st).0.len() <= statement_op_bound(st),
        statement_op_bound(st) >= 1,
    decreases st, 1int,
{
    match st {
        StatementV::Expression(_) => {},
        StatementV::Block(b) => {
            lemma_block_ops_bound(*b);
        },
        StatementV::While(cond, body) => {
            lemma_block_ops_bound(*body);
        },
    }
}

/// The lowering of a statement chain emits no more operations than its
/// bound.
pub proof fn lemma_statements_ops_bound(ss: StatementsV)
    ensures
        0 <= sgen_statements(ss).0.len() <= statements_op_bound(ss),
        statements_op_bound(ss) >= 1,
    decreases ss, 1int,
{
    match ss {
        StatementsV::Statement(s) => {
            lemma_statement_ops_bound(s);
        },
        StatementsV::Statements(prev, s) => {
            lemma_statements_ops_bound(*prev);
            lemma_statement_ops_bound(s);
        },
    }
}

/// The lowering of a block emits no more operations than its bound.
pub proof fn lemma_block_ops_bound(b: BlockV)
    ensures
        0 <= sgen_block(b).0.len() <= block_op_bound(b),
        block_op_bound(b) >= 1,
    decreases b, 1int,
{
    match b {
        BlockV::Statements(ss) => {
            lemma_statements_ops_bound(ss);
        },
    }
}

/// Name validation: lowering an assignment whose target names any variable
/// other than the reserved pointer variable fails with
/// `InvalidVariableName` and emits no operation at all.
pub proof fn lemma_bad_name_rejected(name: Seq<char>, n: int)
    requires
        name != ptr_chars(),
    ensures
        sgen_expression(ExpressionV::AssignAdd(LhsV::Pointer(name), RhsV::Number(n))) == Err::<
            AbsOp,
            CodegenErrorV,
        >(CodegenErrorV::InvalidVariableName(name)),
        sgen_statement(
            StatementV::Expression(
                ExpressionV::AssignAdd(LhsV::Pointer(name), RhsV::Number(n)),
            ),
        ) == (Seq::<AbsOp>::empty(), Some(CodegenErrorV::InvalidVariableName(name))),
{
}

/// Function-call validation: a call statement lowers to exactly one I/O
/// operation, matching the name, when it names `getchar` or `putchar`; a
/// call to any other name fails with `InvalidFunctionName` and emits no
/// operation at all.
pub proof fn lemma_call_validation(name: Seq<char>)
    ensures
        name == getchar_chars() ==> sgen_expression(ExpressionV::FunctionCall(LhsV::Pointer(name)))
            == Ok::<AbsOp, CodegenErrorV>(AbsOp::CallGetchar),
        name == putchar_chars() ==> sgen_expression(ExpressionV::FunctionCall(LhsV::Pointer(name)))
            == Ok::<AbsOp, CodegenErrorV>(AbsOp::CallPutchar),
        name != getchar_chars() && name != putchar_chars() ==> sgen_expression(
            ExpressionV::FunctionCall(LhsV::Pointer(name)),
        ) == Err::<AbsOp, CodegenErrorV>(CodegenErrorV::InvalidFunctionName(name)),
        name == getchar_chars() ==> sgen_statement(
            StatementV::Expression(ExpressionV::FunctionCall(LhsV::Pointer(name))),
        ) == (seq![AbsOp::CallGetchar], Option::<CodegenErrorV>::None),
        name == putchar_chars() ==> sgen_statement(
            StatementV::Expression(ExpressionV::FunctionCall(LhsV::Pointer(name))),
        ) == (seq![AbsOp::CallPutchar], Option::<CodegenErrorV>::None),
        name != getchar_chars() && name != putchar_chars() ==> sgen_statement(
            StatementV::Expression(ExpressionV::FunctionCall(LhsV::Pointer(name))),
        ) == (Seq::<AbsOp>::empty(), Some(CodegenErrorV::InvalidFunctionName(name))),
{
    assert(getchar_chars()[0] != putchar_chars()[0]);
}

/// Lowers a pointer move: the name must be the reserved pointer variable.
fn move_ptr<E: Emitter>(emitter: &mut E, ptr_name: &str, offset: i32) -> (r: Result<
    String,
    CodegenError,
>)
    requires
        old(emitter).inv(),
        transcript_wf(old(emitter).ops(), old(emitter).next_label()),
        old(emitter).ops().len() + 1 <= EMIT_LIMIT,
    ensures
        final(emitter).inv(),
        transcript_wf(final(emitter).ops(), final(emitter).next_label()),
        final(emitter).next_label() == old(emitter).next_label(),
        match r {
            Ok(s) => ptr_name@ == ptr_chars() && final(emitter).ops() == old(emitter).ops().push(
                emitter::EmitOp::MovePtr(offset as int),
            ) && final(emitter).out() == old(emitter).out() + s@,
            Err(e) => ptr_name@ != ptr_chars() && e@ == CodegenErrorV::InvalidVariableName(
                ptr_name@,
            ) && *final(emitter) == *old(emitter),
        },
{
    proof {
        reveal_strlit("ptr");
        assert("ptr"@ =~= ptr_chars());
    }
    if !str_eq(ptr_name, "ptr") {
        Err(CodegenError::InvalidVariableName { name: String::from_str(ptr_name) })
    } else {
        let s = emitter.emit_move_ptr(offset);
        proof {
            lemma_wf_push_simple(
                old(emitter).ops(),
                old(emitter).next_label(),
                emitter::EmitOp::MovePtr(offset as int),
            );
        }
        Ok(s)
    }
}

/// Lowers a cell update: the name must be the reserved pointer variable.
fn add<E: Emitter>(emitter: &mut E, ptr_name: &str, n: i32) -> (r: Result<String, CodegenError>)
    requires
        old(emitter).inv(),
        transcript_wf(old(emitter).ops(), old(emitter).next_label()),
        old(emitter).ops().len() + 1 <= EMIT_LIMIT,
    ensures
        final(emitter).inv(),
        transcript_wf(final(emitter).ops(), final(emitter).next_label()),
        final(emitter).next_label() == old(emitter).next_label(),
        match r {
            Ok(s) => ptr_name@ == ptr_chars() && final(emitter).ops() == old(emitter).ops().push(
                emitter::EmitOp::AddCell(n as int),
            ) && final(emitter).out() == old(emitter).out() + s@,
            Err(e) => ptr_name@ != ptr_chars() && e@ == CodegenErrorV::InvalidVariableName(
                ptr_name@,
            ) && *final(emitter) == *old(emitter),
        },
{
    proof {
        reveal_strlit("ptr");
        assert("ptr"@ =~= ptr_chars());
    }
    if !str_eq(ptr_name, "ptr") {
        Err(CodegenError::InvalidVariableName { name: String::from_str(ptr_name) })
    } else {
        let s = emitter.emit_add(n);
        proof {
            lemma_wf_push_simple(
                old(emitter).ops(),
                old(emitter).next_label(),
                emitter::EmitOp::AddCell(n as int),
            );
        }
        Ok(s)
    }
}

/// Lowers a call: only the two I/O primitives exist.
fn function_call<E: Emitter>(emitter: &mut E, funcname: &str) -> (r: Result<String, CodegenError>)
    requires
        old(emitter).inv(),
        transcript_wf(old(emitter).ops(), old(emitter).next_label()),
        old(emitter).ops().len() + 1 <= EMIT_LIMIT,
    ensures
        final(emitter).inv(),
        transcript_wf(final(emitter).ops(), final(emitter).next_label()),
        final(emitter).next_label() == old(emitter).next_label(),
        match r {
            Ok(s) => (funcname@ == getchar_chars() || funcname@ == putchar_chars())
                && final(emitter).ops() == old(emitter).ops().push(
                if funcname@ == getchar_chars() {
                    emitter::EmitOp::CallGetchar
                } else {
                    emitter::EmitOp::CallPutchar
                },
            ) && final(emitter).out() == old(emitter).out() + s@,
            Err(e) => funcname@ != getchar_chars() && funcname@ != putchar_chars() && e@
                == CodegenErrorV::InvalidFunctionName(funcname@) && *final(emitter) == *old(emitter),
        },
{
    proof {
        reveal_strlit("getchar");
        reveal_strlit("putchar");
        assert("getchar"@ =~= getchar_chars());
        assert("putchar"@ =~= putchar_chars());
    }
    if str_eq(funcname, "getchar") {
        let s = emitter.emit_call_getchar();
        proof {
            lemma_wf_push_simple(
                old(emitter).ops(),
                old(emitter).next_label(),
                emitter::EmitOp::CallGetchar,
            );
        }
        Ok(s)
    } else if str_eq(funcname, "putchar") {
        let s = emitter.emit_call_putchar();
        proof {
            lemma_wf_push_simple(
                old(emitter).ops(),
                old(emitter).next_label(),
                emitter::EmitOp::CallPutchar,
            );
        }
        Ok(s)
    } else {
        Err(CodegenError::InvalidFunctionName { name: String::from_str(funcname) })
    }
}

/// Lowers one expression, emitting its operation or rejecting it without
/// emitting anything.
fn expression<E: Emitter>(emitter: &mut E, tree: &Expression) -> (r: Result<String, CodegenError>)
    requires
        old(emitter).inv(),
        transcript_wf(old(emitter).ops(), old(emitter).next_label()),
        old(emitter).ops().len() + 1 <= EMIT_LIMIT,
    ensures
        final(emitter).inv(),
        transcript_wf(final(emitter).ops(), final(emitter).next_label()),
        final(emitter).next_label() == old(emitter).next_label(),
        emitter::open_labels(final(emitter).ops()) == emitter::open_labels(old(emitter).ops()),
        r is Ok ==> final(emitter).ops().len() == old(emitter).ops().len() + 1,
        r is Err ==> final(emitter).ops().len() == old(emitter).ops().len(),
        match r {
            Ok(s) => (sgen_expression(tree@) matches Ok(op) && abs_ops(final(emitter).ops())
                == abs_ops(old(emitter).ops()).push(op)) && final(emitter).out() == old(
                emitter,
            ).out() + s@,
            Err(e) => sgen_expression(tree@) == Err::<AbsOp, CodegenErrorV>(e@) && *final(emitter)
                == *old(emitter),
        },
{
    let r = match tree {
        Expression::AssignAdd(Lhs::Pointer(p), Rhs::Number(n)) => move_ptr(
            emitter,
            p.as_str(),
            *n,
        ),
        Expression::AssignSub(Lhs::Pointer(p), Rhs::Number(n)) => {
            let off = if *n == i32::MIN {
                *n
            } else {
                -*n
            };
            move_ptr(emitter, p.as_str(), off)
        },
        Expression::AssignAdd(Lhs::Dereference(p), Rhs::Number(n)) => crate::codegen::add(
            emitter,
            p.as_str(),
            *n,
        ),
        Expression::AssignSub(Lhs::Dereference(p), Rhs::Number(n)) => {
            let off = if *n == i32::MIN {
                *n
            } else {
                -*n
            };
            crate::codegen::add(emitter, p.as_str(), off)
        },
        Expression::FunctionCall(Lhs::Pointer(p)) => function_call(emitter, p.as_str()),
        _ => Err(CodegenError::NotImplemented),
    };
    proof {
        if r is Ok {
            let op = final(emitter).ops().last();
            lemma_abs_ops_push(old(emitter).ops(), op);
            lemma_wf_push_simple(old(emitter).ops(), old(emitter).next_label(), op);
        }
    }
    r
}

/// Lowers a while statement: validates the condition, then frames the body
/// between a fresh loop begin and its matching loop end.
fn while_s<E: Emitter>(emitter: &mut E, cond: &Expression, body: &Block) -> (r: Result<
    String,
    CodegenError,
>)
    requires
        old(emitter).inv(),
        transcript_wf(old(emitter).ops(), old(emitter).next_label()),
        old(emitter).ops().len() + 2 + block_op_bound(body@) <= EMIT_LIMIT,
    ensures
        final(emitter).inv(),
        transcript_wf(final(emitter).ops(), final(emitter).next_label()),
        final(emitter).next_label() >= old(emitter).next_label(),
        abs_ops(final(emitter).ops()) == abs_ops(old(emitter).ops()) + sgen_while(
            cond@,
            body@,
        ).0,
        final(emitter).ops().len() == old(emitter).ops().len() + sgen_while(cond@, body@).0.len(),
        r is Ok ==> emitter::open_labels(final(emitter).ops()) == emitter::open_labels(
            old(emitter).ops(),
        ),
        match r {
            Ok(s) => sgen_while(cond@, body@).1 is None && final(emitter).out() == old(
                emitter,
            ).out() + s@,
            Err(e) => sgen_while(cond@, body@).1 == Some(e@),
        },
    decreases body, 2int,
{
    match cond {
        Expression::Lhs(Lhs::Dereference(p)) => {
            proof {
                reveal_strlit("ptr");
                assert("ptr"@ =~= ptr_chars());
            }
            if !str_eq(p.as_str(), "ptr") {
                proof {
                    assert(abs_ops(old(emitter).ops()) + Seq::<AbsOp>::empty() =~= abs_ops(
                        old(emitter).ops(),
                    ));
                }
                Err(CodegenError::InvalidVariableName { name: p.clone() })
            } else {
                let ghost l = old(emitter).next_label();
                proof {
                    lemma_block_ops_bound(body@);
                }
                let header = emitter.emit_loop_begin();
                proof {
                    lemma_wf_push_begin(old(emitter).ops(), l, emitter.next_label());
                    lemma_abs_ops_push(old(emitter).ops(), emitter::EmitOp::LoopBegin(l));
                }
                let ghost ops1 = emitter.ops();
                let ghost out1 = emitter.out();
                match block(emitter, body) {
                    Ok(body_s) => {
                        let ghost ops2 = emitter.ops();
                        let ghost out2 = emitter.out();
                        proof {
                            assert(emitter::open_labels(ops2) == emitter::open_labels(ops1));
                            assert(emitter::open_labels(ops1) == emitter::open_labels(
                                old(emitter).ops(),
                            ).push(l));
                            assert(emitter::open_labels(ops2).len() > 0);
                            assert(emitter::open_labels(ops2).last() == l);
                        }
                        let footer = emitter.emit_loop_end();
                        proof {
                            lemma_wf_push_end(ops2, emitter.next_label());
                            lemma_abs_ops_push(ops2, emitter::EmitOp::LoopEnd(l));
                            assert(emitter::open_labels(emitter.ops()) =~= emitter::open_labels(
                                old(emitter).ops(),
                            ));
                            assert(abs_ops(emitter.ops()) =~= abs_ops(old(emitter).ops()) + (
                            seq![AbsOp::LoopBegin] + sgen_block(body@).0 + seq![AbsOp::LoopEnd]));
                            assert(emitter.out() =~= old(emitter).out() + (header@ + body_s@
                                + footer@));
                        }
                        let text = header.concat(body_s.as_str()).concat(footer.as_str());
                        proof {
                            assert(text@ == header@ + body_s@ + footer@);
                        }
                        Ok(text)
                    },
                    Err(e) => {
                        proof {
                            assert(abs_ops(emitter.ops()) =~= abs_ops(old(emitter).ops()) + (
                            seq![AbsOp::LoopBegin] + sgen_block(body@).0));
                        }
                        Err(e)
                    },
                }
            }
        },
        _ => {
            proof {
                assert(abs_ops(old(emitter).ops()) + Seq::<AbsOp>::empty() =~= abs_ops(
                    old(emitter).ops(),
                ));
            }
            Err(CodegenError::NotImplemented)
        },
    }
}

/// Lowers one statement.
fn statement<E: Emitter>(emitter: &mut E, tree: &Statement) -> (r: Result<String, CodegenError>)
    requires
        old(emitter).inv(),
        transcript_wf(old(emitter).ops(), old(emitter).next_label()),
        old(emitter).ops().len() + statement_op_bound(tree@) <= EMIT_LIMIT,
    ensures
        final(emitter).inv(),
        transcript_wf(final(emitter).ops(), final(emitter).next_label()),
        final(emitter).next_label() >= old(emitter).next_label(),
        abs_ops(final(emitter).ops()) == abs_ops(old(emitter).ops()) + sgen_statement(tree@).0,
        final(emitter).ops().len() == old(emitter).ops().len() + sgen_statement(tree@).0.len(),
        r is Ok ==> emitter::open_labels(final(emitter).ops()) == emitter::open_labels(
            old(emitter).ops(),
        ),
        match r {
            Ok(s) => sgen_statement(tree@).1 is None && final(emitter).out() == old(
                emitter,
            ).out() + s@,
            Err(e) => sgen_statement(tree@).1 == Some(e@),
        },
    decreases tree, 1int,
{
    match tree {
        Statement::Expression(e) => {
            let r = expression(emitter, e);
            proof {
                match r {
                    Ok(_) => {
                        if let Ok(op) = sgen_expression(e@) {
                            assert(abs_ops(old(emitter).ops()).push(op) =~= abs_ops(
                                old(emitter).ops(),
                            ) + seq![op]);
                        }
                    },
                    Err(_) => {
                        assert(abs_ops(old(emitter).ops()) + Seq::<AbsOp>::empty() =~= abs_ops(
                            old(emitter).ops(),
                        ));
                    },
                }
            }
            r
        },
        Statement::Block(b) => block(emitter, b),
        Statement::While(e, b) => while_s(emitter, e, b),
    }
}

/// Lowers a statement chain in source order, concatenating the fragments.
fn statements<E: Emitter>(emitter: &mut E, tree: &Statements) -> (r: Result<String, CodegenError>)
    requires
        old(emitter).inv(),
        transcript_wf(old(emitter).ops(), old(emitter).next_label()),
        old(emitter).ops().len() + statements_op_bound(tree@) <= EMIT_LIMIT,
    ensures
        final(emitter).inv(),
        transcript_wf(final(emitter).ops(), final(emitter).next_label()),
        final(emitter).next_label() >= old(emitter).next_label(),
        abs_ops(final(emitter).ops()) == abs_ops(old(emitter).ops()) + sgen_statements(tree@).0,
        final(emitter).ops().len() == old(emitter).ops().len() + sgen_statements(tree@).0.len(),
        r is Ok ==> emitter::open_labels(final(emitter).ops()) == emitter::open_labels(
            old(emitter).ops(),
        ),
        match r {
            Ok(s) => sgen_statements(tree@).1 is None && final(emitter).out() == old(
                emitter,
            ).out() + s@,
            Err(e) => sgen_statements(tree@).1 == Some(e@),
        },
    decreases tree, 0int,
{
    match tree {
        Statements::Statement(s) => statement(emitter, s),
        Statements::Statements(ss, s) => {
            proof {
                lemma_statements_ops_bound(ss@);
                lemma_statement_ops_bound(s@);
            }
            match statements(emitter, ss) {
                Ok(s0) => {
                    proof {
                        lemma_statements_ops_bound(ss@);
                        lemma_statement_ops_bound(s@);
                    }
                    let ghost mid = emitter.ops();
                    let ghost out_mid = emitter.out();
                    match statement(emitter, s) {
                        Ok(s1) => {
                            proof {
                                assert(abs_ops(emitter.ops()) =~= abs_ops(old(emitter).ops()) + (
                                sgen_statements(ss@).0 + sgen_statement(s@).0));
                                assert(emitter.out() =~= old(emitter).out() + (s0@ + s1@));
                            }
                            let text = s0.concat(s1.as_str());
                            Ok(text)
                        },
                        Err(e) => {
                            proof {
                                assert(abs_ops(emitter.ops()) =~= abs_ops(old(emitter).ops()) + (
                                sgen_statements(ss@).0 + sgen_statement(s@).0));
                            }
                            Err(e)
                        },
                    }
                },
                Err(e) => Err(e),
            }
        },
    }
}

/// Lowers a block: its statement chain.
fn block<E: Emitter>(emitter: &mut E, tree: &Block) -> (r: Result<String, CodegenError>)
    requires
        old(emitter).inv(),
        transcript_wf(old(emitter).ops(), old(emitter).next_label()),
        old(emitter).ops().len() + block_op_bound(tree@) <= EMIT_LIMIT,
    ensures
        final(emitter).inv(),
        transcript_wf(final(emitter).ops(), final(emitter).next_label()),
        final(emitter).next_label() >= old(emitter).next_label(),
        abs_ops(final(emitter).ops()) == abs_ops(old(emitter).ops()) + sgen_block(tree@).0,
        final(emitter).ops().len() == old(emitter).ops().len() + sgen_block(tree@).0.len(),
        r is Ok ==> emitter::open_labels(final(emitter).ops()) == emitter::open_labels(
            old(emitter).ops(),
        ),
        match r {
            Ok(s) => sgen_block(tree@).1 is None && final(emitter).out() == old(emitter).out()
                + s@,
            Err(e) => sgen_block(tree@).1 == Some(e@),
        },
    decreases tree, 0int,
{
    match tree {
        Block::Statements(ss) => statements(emitter, ss),
    }
}

/// Generates the whole artifact: the emitter's header, the lowering of the
/// program's statements in source order, and the emitter's footer,
/// concatenated in that order. `Ok` exactly when every statement lowers;
/// otherwise the first failure, in traversal order, is returned.
pub fn gen<E: Emitter>(emitter: &mut E, tree: &Program) -> (r: Result<String, CodegenError>)
    requires
        old(emitter).inv(),
        transcript_wf(old(emitter).ops(), old(emitter).next_label()),
        old(emitter).ops().len() + program_op_bound(tree@) <= EMIT_LIMIT,
    ensures
        final(emitter).inv(),
        transcript_wf(final(emitter).ops(), final(emitter).next_label()),
        final(emitter).next_label() >= old(emitter).next_label(),
        abs_ops(final(emitter).ops()) == abs_ops(old(emitter).ops()) + sgen_program(tree@).0,
        r is Ok ==> emitter::open_labels(final(emitter).ops()) == emitter::open_labels(
            old(emitter).ops(),
        ),
        match r {
            Ok(s) => sgen_program(tree@).1 is None && final(emitter).out().len() >= old(
                emitter,
            ).out().len() && s@ == E::header_text() + final(emitter).out().skip(
                old(emitter).out().len() as int,
            ) + final(emitter).footer_text(),
            Err(e) => sgen_program(tree@).1 == Some(e@),
        },
{
    match tree {
        Program::Statements(ss) => {
            let header = emitter.emit_header();
            match statements(emitter, ss) {
                Ok(body) => {
                    proof {
                        lemma_statements_ops_bound(ss@);
                    }
                    let footer = emitter.emit_footer();
                    proof {
                        assert(emitter.out().skip(old(emitter).out().len() as int) =~= body@);
                    }
                    let text = header.concat(body.as_str()).concat(footer.as_str());
                    Ok(text)
                },
                Err(e) => Err(e),
            }
        },
    }
}

} // verus!
