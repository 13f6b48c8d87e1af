//! Recursive descent parsing of a token sequence into a syntax tree.
//!
//! Each grammar production is a function from a token slice to an optional
//! pair of the remaining tokens and the parsed node; `None` reports a parse
//! failure with no further detail.

use vstd::prelude::*;
use vstd::slice::{slice_index_get, slice_subrange};

use crate::token::{Token, TokenV, token_views};

verus! {

// rhs -> number
#[derive(Debug, PartialEq)]
pub enum Rhs {
    Number(i32),
}

// lhs -> identifier
//      | '*' identifier
#[derive(Debug, PartialEq)]
pub enum Lhs {
    Pointer(String),
    Dereference(String),
}

// expression -> lhs '+=' rhs
//             | lhs '-=' rhs
//             | lhs '(' ')'
//             | lhs
#[derive(Debug, PartialEq)]
pub enum Expression {
    AssignAdd(Lhs, Rhs),
    AssignSub(Lhs, Rhs),
    FunctionCall(Lhs),
    Lhs(Lhs),
}

// statement  -> expression ';'
//             | block
//             | 'while' expression block
#[derive(Debug, PartialEq)]
pub enum Statement {
    Expression(Expression),
    Block(Box<Block>),
    While(Expression, Box<Block>),
}

// statements -> statement statement
//             | statement
#[derive(Debug, PartialEq)]
pub enum Statements {
    Statements(Box<Statements>, Statement),
    Statement(Statement),
}

// block -> '{' statements '}'
#[derive(Debug, PartialEq)]
pub enum Block {
    Statements(Statements),
}

// program -> statements
#[derive(Debug, PartialEq)]
pub enum Program {
    Statements(Statements),
}

/// The mathematical model of [`Rhs`].
pub enum RhsV {
    Number(int),
}

/// The mathematical model of [`Lhs`].
pub enum LhsV {
    Pointer(Seq<char>),
    Dereference(Seq<char>),
}

/// The mathematical model of [`Expression`].
pub enum ExpressionV {
    AssignAdd(LhsV, RhsV),
    AssignSub(LhsV, RhsV),
    FunctionCall(LhsV),
    Lhs(LhsV),
}

/// The mathematical model of [`Statement`].
pub enum StatementV {
    Expression(ExpressionV),
    Block(Box<BlockV>),
    While(ExpressionV, Box<BlockV>),
}

/// The mathematical model of [`Statements`].
pub enum StatementsV {
    Statements(Box<StatementsV>, StatementV),
    Statement(StatementV),
}

/// The mathematical model of [`Block`].
pub enum BlockV {
    Statements(StatementsV),
}

/// The mathematical model of [`Program`].
pub enum ProgramV {
    Statements(StatementsV),
}

impl View for Rhs {
    type V = RhsV;

    open spec fn view(&self) -> RhsV {
        match self {
            Rhs::Number(n) => RhsV::Number(*n as int),
        }
    }
}

impl View for Lhs {
    type V = LhsV;

    open spec fn view(&self) -> LhsV {
        match self {
            Lhs::Pointer(s) => LhsV::Pointer(s@),
            Lhs::Dereference(s) => LhsV::Dereference(s@),
        }
    }
}

impl View for Expression {
    type V = ExpressionV;

    open spec fn view(&self) -> ExpressionV {
        match self {
            Expression::AssignAdd(l, r) => ExpressionV::AssignAdd(l@, r@),
            Expression::AssignSub(l, r) => ExpressionV::AssignSub(l@, r@),
            Expression::FunctionCall(l) => ExpressionV::FunctionCall(l@),
            Expression::Lhs(l) => ExpressionV::Lhs(l@),
        }
    }
}

/// The view of a statement, spelled out recursively over the tree.
pub open spec fn statement_view(s: Statement) -> StatementV
    decreases s,
{
    match s {
        Statement::Expression(e) => StatementV::Expression(e@),
        Statement::Block(b) => StatementV::Block(Box::new(block_view(*b))),
        Statement::While(e, b) => StatementV::While(e@, Box::new(block_view(*b))),
    }
}

/// The view of a statement chain.
pub open spec fn statements_view(ss: Statements) -> StatementsV
    decreases ss,
{
    match ss {
        Statements::Statements(prev, s) => StatementsV::Statements(
            Box::new(statements_view(*prev)),
            statement_view(s),
        ),
        Statements::Statement(s) => StatementsV::Statement(statement_view(s)),
    }
}

/// The view of a block.
pub open spec fn block_view(b: Block) -> BlockV
    decreases b,
{
    match b {
        Block::Statements(ss) => BlockV::Statements(statements_view(ss)),
    }
}

impl View for Statement {
    type V = StatementV;

    open spec fn view(&self) -> StatementV {
        statement_view(*self)
    }
}

impl View for Statements {
    type V = StatementsV;

    open spec fn view(&self) -> StatementsV {
        statements_view(*self)
    }
}

impl View for Block {
    type V = BlockV;

    open spec fn view(&self) -> BlockV {
        block_view(*self)
    }
}

impl View for Program {
    type V = ProgramV;

    open spec fn view(&self) -> ProgramV {
        match self {
            Program::Statements(ss) => ProgramV::Statements(statements_view(*ss)),
        }
    }
}

/// The `rhs` production: exactly one integer token.
pub open spec fn spec_rhs(ts: Seq<TokenV>) -> Option<(Seq<TokenV>, RhsV)> {
    if ts.len() == 0 {
        None
    } else {
        match ts[0] {
            TokenV::Integer(i) => Some((ts.skip(1), RhsV::Number(i))),
            _ => None,
        }
    }
}

/// The `lhs` production: a dereference `* name` is tried before a bare
/// `name`, because both inspect the tokens positionally.
pub open spec fn spec_lhs(ts: Seq<TokenV>) -> Option<(Seq<TokenV>, LhsV)> {
    if ts.len() == 0 {
        None
    } else {
        match ts[0] {
            TokenV::Star => if ts.len() >= 2 {
                match ts[1] {
                    TokenV::Identifier(s) => Some((ts.skip(2), LhsV::Dereference(s))),
                    _ => None,
                }
            } else {
                None
            },
            TokenV::Identifier(s) => Some((ts.skip(1), LhsV::Pointer(s))),
            _ => None,
        }
    }
}

/// The `expression` production: an `lhs`, continued by `+=` or `-=` and a
/// number, or by a call's `( )`, or by nothing at all.
pub open spec fn spec_expression(ts: Seq<TokenV>) -> Option<(Seq<TokenV>, ExpressionV)> {
    match spec_lhs(ts) {
        None => None,
        Some((r1, l)) => {
            if r1.len() >= 1 && r1[0] is PlusEq {
                match spec_rhs(r1.skip(1)) {
                    Some((r2, rh)) => Some((r2, ExpressionV::AssignAdd(l, rh))),
                    None => None,
                }
            } else if r1.len() >= 1 && r1[0] is MinusEq {
                match spec_rhs(r1.skip(1)) {
                    Some((r2, rh)) => Some((r2, ExpressionV::AssignSub(l, rh))),
                    None => None,
                }
            } else if r1.len() >= 2 && r1[0] is ParenOpen && r1[1] is ParenClose {
                Some((r1.skip(2), ExpressionV::FunctionCall(l)))
            } else {
                Some((r1, ExpressionV::Lhs(l)))
            }
        },
    }
}

/// A successful `rhs` consumes at least one token.
pub proof fn lemma_rhs_consumes(ts: Seq<TokenV>)
    ensures
        spec_rhs(ts) matches Some(p) ==> p.0.len() < ts.len(),
{
}

/// A successful `lhs` consumes at least one token.
pub proof fn lemma_lhs_consumes(ts: Seq<TokenV>)
    ensures
        spec_lhs(ts) matches Some(p) ==> p.0.len() < ts.len(),
{
}

/// A successful `expression` consumes at least one token.
pub proof fn lemma_expression_consumes(ts: Seq<TokenV>)
    ensures
        spec_expression(ts) matches Some(p) ==> p.0.len() < ts.len(),
{
    lemma_lhs_consumes(ts);
    if let Some((r1, _l)) = spec_lhs(ts) {
        lemma_rhs_consumes(r1.skip(1));
    }
}

/// The `statement` production. The alternatives are tried in order:
/// an expression statement, a block statement, then a while statement;
/// a failed alternative consumes nothing, so trying the next one is safe.
pub open spec fn spec_statement(ts: Seq<TokenV>) -> Option<(Seq<TokenV>, StatementV)>
    decreases ts.len(), 1int,
{
    let es = match spec_expression(ts) {
        Some((r, e)) => if r.len() >= 1 && r[0] is Semi {
            Some((r.skip(1), StatementV::Expression(e)))
        } else {
            None
        },
        None => None,
    };
    if es is Some {
        es
    } else {
        let bs = match spec_block(ts) {
            Some((r, b)) => Some((r, StatementV::Block(Box::new(b)))),
            None => None,
        };
        if bs is Some {
            bs
        } else {
            if ts.len() >= 1 && ts[0] is While {
                proof {
                    lemma_expression_consumes(ts.skip(1));
                }
                match spec_expression(ts.skip(1)) {
                    Some((r1, e)) => match spec_block(r1) {
                        Some((r2, b)) => Some((r2, StatementV::While(e, Box::new(b)))),
                        None => None,
                    },
                    None => None,
                }
            } else {
                None
            }
        }
    }
}

/// The `block` production: `{ statements }`.
pub open spec fn spec_block(ts: Seq<TokenV>) -> Option<(Seq<TokenV>, BlockV)>
    decreases ts.len(), 0int,
{
    if ts.len() >= 1 && ts[0] is CurlyOpen {
        match spec_statements(ts.skip(1)) {
            Some((r, ss)) => if r.len() >= 1 && r[0] is CurlyClose {
                Some((r.skip(1), BlockV::Statements(ss)))
            } else {
                None
            },
            None => None,
        }
    } else {
        None
    }
}

/// The `statements` production: one statement, then greedily more, folded
/// left-associatively into a chain; running out of statements is a normal
/// stop, not a failure.
pub open spec fn spec_statements(ts: Seq<TokenV>) -> Option<(Seq<TokenV>, StatementsV)>
    decreases ts.len(), 2int,
{
    match spec_statement(ts) {
        None => None,
        Some((r, s)) => if r.len() < ts.len() {
            Some(spec_statements_more(r, StatementsV::Statement(s)))
        } else {
            // unreachable: a statement always consumes tokens
            Some((r, StatementsV::Statement(s)))
        },
    }
}

/// Greedily parses further statements, folding each onto the chain built so
/// far.
pub open spec fn spec_statements_more(ts: Seq<TokenV>, acc: StatementsV) -> (Seq<TokenV>, StatementsV)
    decreases ts.len(), 3int,
{
    match spec_statement(ts) {
        None => (ts, acc),
        Some((r, s)) => if r.len() < ts.len() {
            spec_statements_more(r, StatementsV::Statements(Box::new(acc), s))
        } else {
            // unreachable: a statement always consumes tokens
            (r, StatementsV::Statements(Box::new(acc), s))
        },
    }
}

/// The `program` production: a statement chain; leftover tokens are not
/// rejected at this layer.
pub open spec fn spec_program(ts: Seq<TokenV>) -> Option<(Seq<TokenV>, ProgramV)> {
    match spec_statements(ts) {
        Some((r, ss)) => Some((r, ProgramV::Statements(ss))),
        None => None,
    }
}

/// A successful `block` consumes at least one token.
pub proof fn lemma_block_consumes(ts: Seq<TokenV>)
    ensures
        spec_block(ts) matches Some(p) ==> p.0.len() < ts.len(),
    decreases ts.len(), 0int,
{
    if ts.len() >= 1 && ts[0] is CurlyOpen {
        lemma_statements_consumes(ts.skip(1));
    }
}

/// A successful `statement` consumes at least one token.
pub proof fn lemma_statement_consumes(ts: Seq<TokenV>)
    ensures
        spec_statement(ts) matches Some(p) ==> p.0.len() < ts.len(),
    decreases ts.len(), 1int,
{
    lemma_expression_consumes(ts);
    lemma_block_consumes(ts);
    if ts.len() >= 1 && ts[0] is While {
        lemma_expression_consumes(ts.skip(1));
        if let Some((r1, _e)) = spec_expression(ts.skip(1)) {
            lemma_block_consumes(r1);
        }
    }
}

/// `statements_more` never adds tokens back.
pub proof fn lemma_statements_more_consumes(ts: Seq<TokenV>, acc: StatementsV)
    ensures
        spec_statements_more(ts, acc).0.len() <= ts.len(),
    decreases ts.len(), 3int,
{
    lemma_statement_consumes(ts);
    if let Some((r, s)) = spec_statement(ts) {
        if r.len() < ts.len() {
            lemma_statements_more_consumes(r, StatementsV::Statements(Box::new(acc), s));
        }
    }
}

/// A successful `statements` consumes at least one token.
pub proof fn lemma_statements_consumes(ts: Seq<TokenV>)
    ensures
        spec_statements(ts) matches Some(p) ==> p.0.len() < ts.len(),
    decreases ts.len(), 2int,
{
    lemma_statement_consumes(ts);
    if let Some((r, s)) = spec_statement(ts) {
        if r.len() < ts.len() {
            lemma_statements_more_consumes(r, StatementsV::Statement(s));
        }
    }
}

/// The token sequence that derives an `rhs` node.
pub open spec fn rhs_tokens(r: RhsV) -> Seq<TokenV> {
    match r {
        RhsV::Number(n) => seq![TokenV::Integer(n)],
    }
}

/// The token sequence that derives an `lhs` node.
pub open spec fn lhs_tokens(l: LhsV) -> Seq<TokenV> {
    match l {
        LhsV::Pointer(s) => seq![TokenV::Identifier(s)],
        LhsV::Dereference(s) => seq![TokenV::Star, TokenV::Identifier(s)],
    }
}

/// The token sequence that derives an expression.
pub open spec fn expression_tokens(e: ExpressionV) -> Seq<TokenV> {
    match e {
        ExpressionV::AssignAdd(l, r) => lhs_tokens(l) + seq![TokenV::PlusEq] + rhs_tokens(r),
        ExpressionV::AssignSub(l, r) => lhs_tokens(l) + seq![TokenV::MinusEq] + rhs_tokens(r),
        ExpressionV::FunctionCall(l) => lhs_tokens(l) + seq![
            TokenV::ParenOpen,
            TokenV::ParenClose,
        ],
        ExpressionV::Lhs(l) => lhs_tokens(l),
    }
}

/// The token sequence that derives a statement.
pub open spec fn statement_tokens(st: StatementV) -> Seq<TokenV>
    decreases st, 0int,
{
    match st {
        StatementV::Expression(e) => expression_tokens(e) + seq![TokenV::Semi],
        StatementV::Block(b) => block_tokens(*b),
        StatementV::While(e, b) => seq![TokenV::While] + expression_tokens(e) + block_tokens(*b),
    }
}

/// The token sequence that derives a statement chain.
pub open spec fn statements_tokens(ss: StatementsV) -> Seq<TokenV>
    decreases ss, 0int,
{
    match ss {
        StatementsV::Statement(s) => statement_tokens(s),
        StatementsV::Statements(prev, s) => statements_tokens(*prev) + statement_tokens(s),
    }
}

/// The token sequence that derives a block.
pub open spec fn block_tokens(b: BlockV) -> Seq<TokenV>
    decreases b, 0int,
{
    match b {
        BlockV::Statements(ss) => seq![TokenV::CurlyOpen] + statements_tokens(ss) + seq![
            TokenV::CurlyClose,
        ],
    }
}

/// The token sequence that derives a program.
pub open spec fn program_tokens(p: ProgramV) -> Seq<TokenV> {
    match p {
        ProgramV::Statements(ss) => statements_tokens(ss),
    }
}

/// Parsing an `rhs` node's tokens, before any continuation, yields exactly
/// that node.
pub proof fn lemma_rhs_round(r: RhsV, rest: Seq<TokenV>)
    ensures
        spec_rhs(rhs_tokens(r) + rest) == Some((rest, r)),
{
    let ts = rhs_tokens(r) + rest;
    assert(ts.skip(1) =~= rest);
}

/// Parsing an `lhs` node's tokens, before any continuation, yields exactly
/// that node.
pub proof fn lemma_lhs_round(l: LhsV, rest: Seq<TokenV>)
    ensures
        spec_lhs(lhs_tokens(l) + rest) == Some((rest, l)),
{
    let ts = lhs_tokens(l) + rest;
    match l {
        LhsV::Pointer(_) => {
            assert(ts.skip(1) =~= rest);
        },
        LhsV::Dereference(_) => {
            assert(ts.skip(2) =~= rest);
        },
    }
}

/// Parsing an expression's tokens yields exactly that expression, provided
/// the continuation does not begin with a token that could extend the
/// expression — in every derivation it begins with `;` or `{`, or is empty.
pub proof fn lemma_expression_round(e: ExpressionV, rest: Seq<TokenV>)
    requires
        rest.len() == 0 || rest[0] is Semi || rest[0] is CurlyOpen,
    ensures
        spec_expression(expression_tokens(e) + rest) == Some((rest, e)),
{
    let ts = expression_tokens(e) + rest;
    match e {
        ExpressionV::AssignAdd(l, r) => {
            let mid = seq![TokenV::PlusEq] + (rhs_tokens(r) + rest);
            assert(ts =~= lhs_tokens(l) + mid);
            lemma_lhs_round(l, mid);
            assert(mid.skip(1) =~= rhs_tokens(r) + rest);
            lemma_rhs_round(r, rest);
        },
        ExpressionV::AssignSub(l, r) => {
            let mid = seq![TokenV::MinusEq] + (rhs_tokens(r) + rest);
            assert(ts =~= lhs_tokens(l) + mid);
            lemma_lhs_round(l, mid);
            assert(mid.skip(1) =~= rhs_tokens(r) + rest);
            lemma_rhs_round(r, rest);
        },
        ExpressionV::FunctionCall(l) => {
            let mid = seq![TokenV::ParenOpen, TokenV::ParenClose] + rest;
            assert(ts =~= lhs_tokens(l) + mid);
            lemma_lhs_round(l, mid);
            assert(mid.skip(2) =~= rest);
        },
        ExpressionV::Lhs(l) => {
            assert(ts =~= lhs_tokens(l) + rest);
            lemma_lhs_round(l, rest);
        },
    }
}

/// No statement can start at an empty continuation or at a closing brace.
pub proof fn lemma_statement_fails(ts: Seq<TokenV>)
    requires
        ts.len() == 0 || ts[0] is CurlyClose,
    ensures
        spec_statement(ts) is None,
{
}

/// Parsing a statement's tokens, before any continuation at all, yields
/// exactly that statement.
pub proof fn lemma_statement_round(st: StatementV, rest: Seq<TokenV>)
    ensures
        spec_statement(statement_tokens(st) + rest) == Some((rest, st)),
    decreases st, 0int,
{
    let ts = statement_tokens(st) + rest;
    match st {
        StatementV::Expression(e) => {
            let mid = seq![TokenV::Semi] + rest;
            assert(ts =~= expression_tokens(e) + mid);
            lemma_expression_round(e, mid);
            assert(mid.skip(1) =~= rest);
        },
        StatementV::Block(b) => {
            assert(ts =~= block_tokens(*b) + rest);
            assert(ts[0] is CurlyOpen);
            lemma_block_round(*b, rest);
        },
        StatementV::While(e, b) => {
            let mid = expression_tokens(e) + (block_tokens(*b) + rest);
            assert(ts =~= seq![TokenV::While] + mid);
            assert(ts[0] is While);
            assert(ts.skip(1) =~= mid);
            assert(block_tokens(*b)[0] is CurlyOpen);
            assert((block_tokens(*b) + rest)[0] is CurlyOpen);
            lemma_expression_round(e, block_tokens(*b) + rest);
            lemma_block_round(*b, rest);
        },
    }
}

/// Parsing a block's tokens, before any continuation, yields exactly that
/// block.
pub proof fn lemma_block_round(b: BlockV, rest: Seq<TokenV>)
    ensures
        spec_block(block_tokens(b) + rest) == Some((rest, b)),
    decreases b, 0int,
{
    let ts = block_tokens(b) + rest;
    match b {
        BlockV::Statements(ss) => {
            let close = seq![TokenV::CurlyClose] + rest;
            assert(ts[0] is CurlyOpen);
            assert(ts.skip(1) =~= statements_tokens(ss) + close);
            lemma_statement_fails(close);
            lemma_statements_parse(ss, close);
            assert(close.skip(1) =~= rest);
        },
    }
}

/// Folding one more statement's tokens onto the chain built so far attaches
/// that statement.
pub proof fn lemma_more_step(s: StatementV, acc: StatementsV, rest: Seq<TokenV>)
    ensures
        spec_statements_more(statement_tokens(s) + rest, acc) == spec_statements_more(
            rest,
            StatementsV::Statements(Box::new(acc), s),
        ),
    decreases s, 1int,
{
    let ts = statement_tokens(s) + rest;
    lemma_statement_round(s, rest);
    lemma_statement_consumes(ts);
}

/// Parsing a statement chain's tokens first parses the chain's statements,
/// then goes on folding whatever further statements the continuation
/// yields.
pub proof fn lemma_statements_parse(ss: StatementsV, rest: Seq<TokenV>)
    ensures
        spec_statements(statements_tokens(ss) + rest) == Some(
            spec_statements_more(rest, ss),
        ),
    decreases ss, 1int,
{
    let ts = statements_tokens(ss) + rest;
    match ss {
        StatementsV::Statement(s) => {
            lemma_statement_round(s, rest);
            lemma_statement_consumes(ts);
        },
        StatementsV::Statements(prev, last) => {
            let mid = statement_tokens(last) + rest;
            assert(ts =~= statements_tokens(*prev) + mid);
            lemma_statements_parse(*prev, mid);
            lemma_more_step(last, *prev, rest);
        },
    }
}

/// Parser totality on valid programs: the token sequence that derives any
/// program parses back to exactly that program, with no tokens remaining.
pub proof fn lemma_program_round_trip(p: ProgramV)
    ensures
        spec_program(program_tokens(p)) == Some((Seq::<TokenV>::empty(), p)),
{
    match p {
        ProgramV::Statements(ss) => {
            let none: Seq<TokenV> = Seq::empty();
            assert(statements_tokens(ss) + none =~= statements_tokens(ss));
            lemma_statements_parse(ss, none);
            lemma_statement_fails(none);
        },
    }
}

proof fn lemma_token_views_subrange(s: Seq<Token>, a: int, b: int)
    requires
        0 <= a <= b <= s.len(),
    ensures
        token_views(s.subrange(a, b)) == token_views(s).subrange(a, b),
{
    assert(token_views(s.subrange(a, b)) =~= token_views(s).subrange(a, b));
}

/// Parses an integer literal token into a number.
pub fn rhs(tokens: &[Token]) -> (r: Option<(&[Token], Rhs)>)
    ensures
        match r {
            Some(p) => spec_rhs(token_views(tokens@)) == Some((token_views(p.0@), p.1@)),
            None => spec_rhs(token_views(tokens@)) is None,
        },
{
    if tokens.len() >= 1 {
        match slice_index_get(tokens, 0) {
            Token::Integer(i) => {
                proof {
                    lemma_token_views_subrange(tokens@, 1, tokens@.len() as int);
                    assert(token_views(tokens@).skip(1) =~= token_views(tokens@).subrange(
                        1,
                        token_views(tokens@).len() as int,
                    ));
                }
                Some((slice_subrange(tokens, 1, tokens.len()), Rhs::Number(*i)))
            },
            _ => None,
        }
    } else {
        None
    }
}

/// Parses a pointer name or a `*`-prefixed dereference of a name.
pub fn lhs(tokens: &[Token]) -> (r: Option<(&[Token], Lhs)>)
    ensures
        match r {
            Some(p) => spec_lhs(token_views(tokens@)) == Some((token_views(p.0@), p.1@)),
            None => spec_lhs(token_views(tokens@)) is None,
        },
{
    proof {
        if tokens@.len() >= 1 {
            lemma_token_views_subrange(tokens@, 1, tokens@.len() as int);
            assert(token_views(tokens@).skip(1) =~= token_views(tokens@).subrange(
                1,
                token_views(tokens@).len() as int,
            ));
        }
        if tokens@.len() >= 2 {
            lemma_token_views_subrange(tokens@, 2, tokens@.len() as int);
            assert(token_views(tokens@).skip(2) =~= token_views(tokens@).subrange(
                2,
                token_views(tokens@).len() as int,
            ));
        }
    }
    if tokens.len() >= 2 {
        if let Token::Star = slice_index_get(tokens, 0) {
            if let Token::Identififier(s) = slice_index_get(tokens, 1) {
                return Some((slice_subrange(tokens, 2, tokens.len()), Lhs::Dereference(s.clone())));
            }
        }
    }
    if tokens.len() >= 1 {
        if let Token::Identififier(s) = slice_index_get(tokens, 0) {
            return Some((slice_subrange(tokens, 1, tokens.len()), Lhs::Pointer(s.clone())));
        }
    }
    None
}

/// Parses an expression: an lhs continued by `+=`, `-=`, a call's `( )`, or
/// nothing.
pub fn expression(tokens: &[Token]) -> (r: Option<(&[Token], Expression)>)
    ensures
        match r {
            Some(p) => spec_expression(token_views(tokens@)) == Some((token_views(p.0@), p.1@)),
            None => spec_expression(token_views(tokens@)) is None,
        },
{
    match lhs(tokens) {
        None => None,
        Some((rest, l)) => {
            proof {
                if rest@.len() >= 1 {
                    lemma_token_views_subrange(rest@, 1, rest@.len() as int);
                    assert(token_views(rest@).skip(1) =~= token_views(rest@).subrange(
                        1,
                        token_views(rest@).len() as int,
                    ));
                }
                if rest@.len() >= 2 {
                    lemma_token_views_subrange(rest@, 2, rest@.len() as int);
                    assert(token_views(rest@).skip(2) =~= token_views(rest@).subrange(
                        2,
                        token_views(rest@).len() as int,
                    ));
                }
            }
            if rest.len() >= 1 {
                match slice_index_get(rest, 0) {
                    Token::PlusEq => {
                        match rhs(slice_subrange(rest, 1, rest.len())) {
                            Some((r2, rh)) => Some((r2, Expression::AssignAdd(l, rh))),
                            None => None,
                        }
                    },
                    Token::MinusEq => {
                        match rhs(slice_subrange(rest, 1, rest.len())) {
                            Some((r2, rh)) => Some((r2, Expression::AssignSub(l, rh))),
                            None => None,
                        }
                    },
                    Token::ParenOpen => {
                        if rest.len() >= 2 {
                            if let Token::ParenClose = slice_index_get(rest, 1) {
                                return Some(
                                    (
                                        slice_subrange(rest, 2, rest.len()),
                                        Expression::FunctionCall(l),
                                    ),
                                );
                            }
                        }
                        Some((rest, Expression::Lhs(l)))
                    },
                    _ => Some((rest, Expression::Lhs(l))),
                }
            } else {
                Some((rest, Expression::Lhs(l)))
            }
        },
    }
}

/// Parses a statement: an expression statement, a block, or a while loop,
/// tried in that order.
pub fn statement(tokens: &[Token]) -> (r: Option<(&[Token], Statement)>)
    ensures
        match r {
            Some(p) => spec_statement(token_views(tokens@)) == Some((token_views(p.0@), p.1@)),
            None => spec_statement(token_views(tokens@)) is None,
        },
    decreases tokens@.len(), 1int,
{
    match expression(tokens) {
        Some((rest, e)) => {
            if rest.len() >= 1 {
                if let Token::Semi = slice_index_get(rest, 0) {
                    proof {
                        lemma_token_views_subrange(rest@, 1, rest@.len() as int);
                        assert(token_views(rest@).skip(1) =~= token_views(rest@).subrange(
                            1,
                            token_views(rest@).len() as int,
                        ));
                    }
                    return Some(
                        (slice_subrange(rest, 1, rest.len()), Statement::Expression(e)),
                    );
                }
            }
        },
        None => {},
    }
    match block(tokens) {
        Some((rest, b)) => {
            return Some((rest, Statement::Block(Box::new(b))));
        },
        None => {},
    }
    if tokens.len() >= 1 {
        if let Token::While = slice_index_get(tokens, 0) {
            proof {
                lemma_token_views_subrange(tokens@, 1, tokens@.len() as int);
                assert(token_views(tokens@).skip(1) =~= token_views(tokens@).subrange(
                    1,
                    token_views(tokens@).len() as int,
                ));
                lemma_expression_consumes(token_views(tokens@).skip(1));
            }
            match expression(slice_subrange(tokens, 1, tokens.len())) {
                Some((rest1, e)) => {
                    match block(rest1) {
                        Some((rest2, b)) => {
                            return Some((rest2, Statement::While(e, Box::new(b))));
                        },
                        None => {},
                    }
                },
                None => {},
            }
        }
    }
    None
}

/// Parses a `{ ... }` block.
pub fn block(tokens: &[Token]) -> (r: Option<(&[Token], Block)>)
    ensures
        match r {
            Some(p) => spec_block(token_views(tokens@)) == Some((token_views(p.0@), p.1@)),
            None => spec_block(token_views(tokens@)) is None,
        },
    decreases tokens@.len(), 0int,
{
    if tokens.len() >= 1 {
        if let Token::CurlyOpen = slice_index_get(tokens, 0) {
            proof {
                lemma_token_views_subrange(tokens@, 1, tokens@.len() as int);
                assert(token_views(tokens@).skip(1) =~= token_views(tokens@).subrange(
                    1,
                    token_views(tokens@).len() as int,
                ));
            }
            match statements(slice_subrange(tokens, 1, tokens.len())) {
                Some((rest, ss)) => {
                    if rest.len() >= 1 {
                        if let Token::CurlyClose = slice_index_get(rest, 0) {
                            proof {
                                lemma_token_views_subrange(rest@, 1, rest@.len() as int);
                                assert(token_views(rest@).skip(1) =~= token_views(
                                    rest@,
                                ).subrange(1, token_views(rest@).len() as int));
                            }
                            return Some(
                                (slice_subrange(rest, 1, rest.len()), Block::Statements(ss)),
                            );
                        }
                    }
                    return None;
                },
                None => {
                    return None;
                },
            }
        }
    }
    None
}

/// Parses one statement and then greedily folds further statements onto a
/// left-associative chain; stopping is a normal exit, not an error.
pub fn statements(tokens: &[Token]) -> (r: Option<(&[Token], Statements)>)
    ensures
        match r {
            Some(p) => spec_statements(token_views(tokens@)) == Some(
                (token_views(p.0@), p.1@),
            ),
            None => spec_statements(token_views(tokens@)) is None,
        },
    decreases tokens@.len(), 2int,
{
    match statement(tokens) {
        None => None,
        Some((rest0, s0)) => {
            proof {
                lemma_statement_consumes(token_views(tokens@));
            }
            let mut acc = Statements::Statement(s0);
            let mut rem = rest0;
            loop
                invariant
                    rem@.len() < tokens@.len(),
                    spec_statements_more(token_views(rem@), acc@) == spec_statements_more(
                        token_views(rest0@),
                        StatementsV::Statement(s0@),
                    ),
                    spec_statements(token_views(tokens@)) == Some(
                        spec_statements_more(
                            token_views(rest0@),
                            StatementsV::Statement(s0@),
                        ),
                    ),
                decreases rem@.len(),
            {
                match statement(rem) {
                    Some((r2, s2)) => {
                        proof {
                            lemma_statement_consumes(token_views(rem@));
                        }
                        acc = Statements::Statements(Box::new(acc), s2);
                        rem = r2;
                    },
                    None => {
                        return Some((rem, acc));
                    },
                }
            }
        },
    }
}

/// Parses a whole program: a statement chain, with any trailing tokens
/// handed back to the caller.
pub fn program(tokens: &[Token]) -> (r: Option<(&[Token], Program)>)
    ensures
        match r {
            Some(p) => spec_program(token_views(tokens@)) == Some((token_views(p.0@), p.1@)),
            None => spec_program(token_views(tokens@)) is None,
        },
{
    match statements(tokens) {
        Some((rest, ss)) => Some((rest, Program::Statements(ss))),
        None => None,
    }
}

} // verus!
