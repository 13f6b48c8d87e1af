use chiya::parser::{
    Block, Expression, Lhs, Program, Rhs, Statement, Statements, block, expression, lhs, program,
    rhs, statement, statements,
};
use chiya::token::Token;

#[test]
fn test_rhs() {
    assert_eq!(rhs(&[]), None);
    assert_eq!(rhs(&[Token::CurlyOpen]), None);
    assert_eq!(rhs(&[Token::Identififier("123".to_owned())]), None);
    assert_eq!(
        rhs(&[Token::Integer(123)]),
        Some((&[] as &[Token], Rhs::Number(123)))
    );
}

#[test]
fn test_lhs() {
    assert_eq!(lhs(&[]), None);
    assert_eq!(lhs(&[Token::CurlyOpen]), None);
    assert_eq!(lhs(&[Token::Integer(123)]), None);
    assert_eq!(
        lhs(&[Token::Identififier("hoge".to_owned())]),
        Some((&[] as &[Token], Lhs::Pointer("hoge".to_owned())))
    );
    assert_eq!(
        lhs(&[Token::Star, Token::Identififier("hoge".to_owned())]),
        Some((&[] as &[Token], Lhs::Dereference("hoge".to_owned())))
    );
}

#[test]
fn test_expression() {
    assert_eq!(expression(&[]), None);

    assert_eq!(
        expression(&[Token::Identififier("hoge".to_owned())]),
        Some((
            &[] as &[Token],
            Expression::Lhs(Lhs::Pointer("hoge".to_owned()))
        ))
    );
    assert_eq!(
        expression(&[Token::Star, Token::Identififier("hoge".to_owned())]),
        Some((
            &[] as &[Token],
            Expression::Lhs(Lhs::Dereference("hoge".to_owned()))
        ))
    );
    assert_eq!(
        expression(&[
            Token::Identififier("hoge".to_owned()),
            Token::Identififier("hoge".to_owned())
        ]),
        Some((
            &[Token::Identififier("hoge".to_owned())] as &[Token],
            Expression::Lhs(Lhs::Pointer("hoge".to_owned()))
        ))
    );

    assert_eq!(
        expression(&[
            Token::Identififier("hoge".to_owned()),
            Token::PlusEq,
            Token::Integer(123)
        ]),
        Some((
            &[] as &[Token],
            Expression::AssignAdd(Lhs::Pointer("hoge".to_owned()), Rhs::Number(123))
        ))
    );
    assert_eq!(
        expression(&[
            Token::Star,
            Token::Identififier("hoge".to_owned()),
            Token::PlusEq,
            Token::Integer(123)
        ]),
        Some((
            &[] as &[Token],
            Expression::AssignAdd(Lhs::Dereference("hoge".to_owned()), Rhs::Number(123))
        ))
    );

    assert_eq!(
        expression(&[
            Token::Identififier("hoge".to_owned()),
            Token::MinusEq,
            Token::Integer(123)
        ]),
        Some((
            &[] as &[Token],
            Expression::AssignSub(Lhs::Pointer("hoge".to_owned()), Rhs::Number(123))
        ))
    );
    assert_eq!(
        expression(&[
            Token::Star,
            Token::Identififier("hoge".to_owned()),
            Token::MinusEq,
            Token::Integer(123)
        ]),
        Some((
            &[] as &[Token],
            Expression::AssignSub(Lhs::Dereference("hoge".to_owned()), Rhs::Number(123))
        ))
    );

    assert_eq!(
        expression(&[
            Token::Identififier("hoge".to_owned()),
            Token::ParenOpen,
            Token::ParenClose
        ]),
        Some((
            &[] as &[Token],
            Expression::FunctionCall(Lhs::Pointer("hoge".to_owned()))
        ))
    );

    assert_eq!(
        expression(&[
            Token::Identififier("hoge".to_owned()),
            Token::MinusEq,
            Token::Identififier("hoge".to_owned()),
        ]),
        None
    );
}

#[test]
fn test_statement() {
    assert_eq!(statement(&[]), None);

    assert_eq!(
        statement(&[Token::Identififier("hoge".to_owned()), Token::Semi]),
        Some((
            &[] as &[Token],
            Statement::Expression(Expression::Lhs(Lhs::Pointer("hoge".to_owned())))
        ))
    );
    assert_eq!(
        statement(&[
            Token::Star,
            Token::Identififier("hoge".to_owned()),
            Token::Semi
        ]),
        Some((
            &[] as &[Token],
            Statement::Expression(Expression::Lhs(Lhs::Dereference("hoge".to_owned())))
        ))
    );
    assert_eq!(
        statement(&[
            Token::Identififier("hoge".to_owned()),
            Token::PlusEq,
            Token::Integer(123),
            Token::Semi
        ]),
        Some((
            &[] as &[Token],
            Statement::Expression(Expression::AssignAdd(
                Lhs::Pointer("hoge".to_owned()),
                Rhs::Number(123)
            ))
        ))
    );

    assert_eq!(
        statement(&[
            Token::CurlyOpen,
            Token::Identififier("hoge".to_owned()),
            Token::PlusEq,
            Token::Integer(123),
            Token::Semi,
            Token::CurlyClose
        ]),
        Some((
            &[] as &[Token],
            Statement::Block(Box::new(Block::Statements(Statements::Statement(
                Statement::Expression(Expression::AssignAdd(
                    Lhs::Pointer("hoge".to_owned()),
                    Rhs::Number(123)
                ))
            ))))
        ))
    );

    assert_eq!(
        statement(&[
            Token::While,
            Token::Star,
            Token::Identififier("hoge".to_owned()),
            Token::CurlyOpen,
            Token::Identififier("hoge".to_owned()),
            Token::PlusEq,
            Token::Integer(123),
            Token::Semi,
            Token::CurlyClose
        ]),
        Some((
            &[] as &[Token],
            Statement::While(
                Expression::Lhs(Lhs::Dereference("hoge".to_owned())),
                Box::new(Block::Statements(Statements::Statement(
                    Statement::Expression(Expression::AssignAdd(
                        Lhs::Pointer("hoge".to_owned()),
                        Rhs::Number(123)
                    ))
                )))
            )
        ))
    );
}

#[test]
fn test_statements() {
    assert_eq!(statements(&[]), None);

    assert_eq!(
        statements(&[
            Token::Identififier("hoge".to_owned()),
            Token::PlusEq,
            Token::Integer(123),
            Token::Semi
        ]),
        Some((
            &[] as &[Token],
            Statements::Statement(Statement::Expression(Expression::AssignAdd(
                Lhs::Pointer("hoge".to_owned()),
                Rhs::Number(123)
            )))
        ))
    );

    assert_eq!(
        statements(&[
            Token::Identififier("hoge".to_owned()),
            Token::PlusEq,
            Token::Integer(123),
            Token::Semi,
            Token::Star,
            Token::Identififier("hoge".to_owned()),
            Token::PlusEq,
            Token::Integer(123),
            Token::Semi
        ]),
        Some((
            &[] as &[Token],
            Statements::Statements(
                Box::new(Statements::Statement(Statement::Expression(
                    Expression::AssignAdd(Lhs::Pointer("hoge".to_owned()), Rhs::Number(123))
                ))),
                Statement::Expression(Expression::AssignAdd(
                    Lhs::Dereference("hoge".to_owned()),
                    Rhs::Number(123)
                ))
            )
        ))
    );

    assert_eq!(
        statements(&[
            Token::Identififier("hoge".to_owned()),
            Token::PlusEq,
            Token::Integer(123),
            Token::Semi,
            Token::Star,
            Token::Identififier("hoge".to_owned()),
            Token::PlusEq,
            Token::Integer(123),
            Token::Semi,
            Token::Identififier("hoge".to_owned()),
            Token::PlusEq,
            Token::Integer(123),
            Token::Semi,
        ]),
        Some((
            &[] as &[Token],
            Statements::Statements(
                Box::new(Statements::Statements(
                    Box::new(Statements::Statement(Statement::Expression(
                        Expression::AssignAdd(Lhs::Pointer("hoge".to_owned()), Rhs::Number(123))
                    ))),
                    Statement::Expression(Expression::AssignAdd(
                        Lhs::Dereference("hoge".to_owned()),
                        Rhs::Number(123)
                    ))
                )),
                Statement::Expression(Expression::AssignAdd(
                    Lhs::Pointer("hoge".to_owned()),
                    Rhs::Number(123)
                ))
            )
        ))
    );
}

#[test]
fn test_block() {
    assert_eq!(block(&[]), None);

    assert_eq!(
        block(&[
            Token::CurlyOpen,
            Token::Identififier("hoge".to_owned()),
            Token::PlusEq,
            Token::Integer(123),
            Token::Semi,
            Token::CurlyClose
        ]),
        Some((
            &[] as &[Token],
            Block::Statements(Statements::Statement(Statement::Expression(
                Expression::AssignAdd(Lhs::Pointer("hoge".to_owned()), Rhs::Number(123))
            )))
        ))
    );

    assert_eq!(
        block(&[
            Token::CurlyOpen,
            Token::Identififier("hoge".to_owned()),
            Token::PlusEq,
            Token::Integer(123),
            Token::Semi,
            Token::Star,
            Token::Identififier("hoge".to_owned()),
            Token::PlusEq,
            Token::Integer(123),
            Token::Semi,
            Token::CurlyClose
        ]),
        Some((
            &[] as &[Token],
            Block::Statements(Statements::Statements(
                Box::new(Statements::Statement(Statement::Expression(
                    Expression::AssignAdd(Lhs::Pointer("hoge".to_owned()), Rhs::Number(123))
                ))),
                Statement::Expression(Expression::AssignAdd(
                    Lhs::Dereference("hoge".to_owned()),
                    Rhs::Number(123)
                ))
            ))
        ))
    );
}

#[test]
fn test_program() {
    assert_eq!(program(&[]), None);

    assert_eq!(
        program(&[
            Token::Identififier("hoge".to_owned()),
            Token::PlusEq,
            Token::Integer(123),
            Token::Semi,
        ]),
        Some((
            &[] as &[Token],
            Program::Statements(Statements::Statement(Statement::Expression(
                Expression::AssignAdd(Lhs::Pointer("hoge".to_owned()), Rhs::Number(123))
            )))
        ))
    );

    assert_eq!(
        program(&[
            Token::Identififier("hoge".to_owned()),
            Token::PlusEq,
            Token::Integer(123),
            Token::Semi,
            Token::Star,
            Token::Identififier("hoge".to_owned()),
            Token::PlusEq,
            Token::Integer(123),
            Token::Semi,
        ]),
        Some((
            &[] as &[Token],
            Program::Statements(Statements::Statements(
                Box::new(Statements::Statement(Statement::Expression(
                    Expression::AssignAdd(Lhs::Pointer("hoge".to_owned()), Rhs::Number(123))
                ))),
                Statement::Expression(Expression::AssignAdd(
                    Lhs::Dereference("hoge".to_owned()),
                    Rhs::Number(123)
                ))
            ))
        ))
    );
}

#[test]
fn test_program_consumes_valid_input_fully() {
    // a lexed, syntactically valid program parses with nothing left over
    let tokens = chiya::token::tokenize("ptr += 1; while *ptr { *ptr -= 2; { getchar(); } }")
        .expect("lexes");
    let (rest, _tree) = program(&tokens).expect("parses");
    assert_eq!(rest, &[] as &[Token]);
}
