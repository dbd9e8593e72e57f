use roselia::lexer::{MiniDecafTokens, Scanner};
use roselia::parser::{
    Expression, Function, MiniDecafParser, ParserError, Program, Statement, Unary,
};

fn tokens(text: &str) -> Vec<MiniDecafTokens> {
    Scanner::new(text.to_owned()).to_tokens().unwrap()
}

fn parse(text: &str) -> Result<Program, ParserError> {
    MiniDecafParser::new(tokens(text)).parse_program()
}

fn program(unary: Unary) -> Program {
    Program {
        func: Function {
            ty: MiniDecafTokens::Int,
            identifier: "main".to_owned(),
            stmt: Statement {
                expr: Expression { unary },
            },
        },
    }
}

fn under(operator: MiniDecafTokens, operand: Unary) -> Unary {
    Unary::SubUnary {
        operator,
        sub_unary: Box::new(operand),
    }
}

#[test]
fn a_literal_is_returned() {
    assert_eq!(parse("int main(){return 0;}"), Ok(program(Unary::Integer(0))));
    assert_eq!(
        parse("int main ( ) {\n  return 2147483647 ;\n}\n"),
        Ok(program(Unary::Integer(i32::MAX)))
    );
}

#[test]
fn each_operator_wraps_what_follows_it() {
    assert_eq!(
        parse("int main(){return -5;}"),
        Ok(program(under(MiniDecafTokens::Minus, Unary::Integer(5))))
    );
    assert_eq!(
        parse("int main(){return !5;}"),
        Ok(program(under(MiniDecafTokens::LogicalNot, Unary::Integer(5))))
    );
    assert_eq!(
        parse("int main(){return ~5;}"),
        Ok(program(under(MiniDecafTokens::BitwiseNot, Unary::Integer(5))))
    );
}

#[test]
fn operators_nest_to_the_right() {
    assert_eq!(
        parse("int main(){return ---5;}"),
        Ok(program(under(
            MiniDecafTokens::Minus,
            under(
                MiniDecafTokens::Minus,
                under(MiniDecafTokens::Minus, Unary::Integer(5))
            )
        )))
    );
    assert_eq!(
        parse("int main(){return -!~7;}"),
        Ok(program(under(
            MiniDecafTokens::Minus,
            under(
                MiniDecafTokens::LogicalNot,
                under(MiniDecafTokens::BitwiseNot, Unary::Integer(7))
            )
        )))
    );
}

#[test]
fn another_name_than_main_is_invalid() {
    assert_eq!(
        parse("int foo(){return 0;}"),
        Err(ParserError::InvaildIdentifierError)
    );
    assert_eq!(
        parse("int mainn(){return 0;}"),
        Err(ParserError::InvaildIdentifierError)
    );
    assert_eq!(
        parse("int mai(){return 0;}"),
        Err(ParserError::InvaildIdentifierError)
    );
}

#[test]
fn the_type_must_be_int() {
    assert_eq!(
        parse("main(){return 0;}"),
        Err(ParserError::UndefinedTypeError)
    );
    assert_eq!(
        parse("return main(){return 0;}"),
        Err(ParserError::UndefinedTypeError)
    );
    assert_eq!(parse(""), Err(ParserError::UndefinedTypeError));
}

#[test]
fn an_identifier_must_follow_the_type() {
    assert_eq!(
        parse("int (){return 0;}"),
        Err(ParserError::MissingIdentifierError)
    );
    assert_eq!(
        parse("int int(){return 0;}"),
        Err(ParserError::MissingIdentifierError)
    );
    assert_eq!(parse("int"), Err(ParserError::MissingIdentifierError));
}

#[test]
fn a_missing_parenthesis_or_bracket_is_an_unexpected_token() {
    assert_eq!(
        parse("int main{(return 0;)}"),
        Err(ParserError::UnexpectedTokenError)
    );
    assert_eq!(
        parse("int main({return 0;})"),
        Err(ParserError::UnexpectedTokenError)
    );
    assert_eq!(
        parse("int main()return 0;"),
        Err(ParserError::UnexpectedTokenError)
    );
    assert_eq!(
        parse("int main(){return 0;{}}"),
        Err(ParserError::UnexpectedTokenError)
    );
}

#[test]
fn the_statement_must_start_with_return() {
    assert_eq!(
        parse("int main(){0;}"),
        Err(ParserError::UnexpectedTokenError)
    );
    assert_eq!(
        parse("int main(){main 0;}"),
        Err(ParserError::UnexpectedTokenError)
    );
    assert_eq!(
        parse("int main(){}"),
        Err(ParserError::UnexpectedTokenError)
    );
}

#[test]
fn an_expression_must_end_in_a_literal() {
    assert_eq!(
        parse("int main(){return ;}"),
        Err(ParserError::UnexpectedTokenError)
    );
    assert_eq!(
        parse("int main(){return -;}"),
        Err(ParserError::UnexpectedTokenError)
    );
    assert_eq!(
        parse("int main(){return -main;}"),
        Err(ParserError::UnexpectedTokenError)
    );
}

#[test]
fn the_statement_must_end_in_a_semicolon() {
    assert_eq!(
        parse("int main(){return 0}"),
        Err(ParserError::SemicolonGoneError)
    );
    assert_eq!(
        parse("int main(){return 5 -;}"),
        Err(ParserError::SemicolonGoneError)
    );
    assert_eq!(
        parse("int main(){return 1 2;}"),
        Err(ParserError::SemicolonGoneError)
    );
}

#[test]
fn tokens_that_end_early_fail_like_a_wrong_token() {
    let all = tokens("int main(){return -5;}");
    let expected = [
        ParserError::UndefinedTypeError,
        ParserError::MissingIdentifierError,
        ParserError::UnexpectedTokenError,
        ParserError::UnexpectedTokenError,
        ParserError::UnexpectedTokenError,
        ParserError::UnexpectedTokenError,
        ParserError::UnexpectedTokenError,
        ParserError::UnexpectedTokenError,
        ParserError::SemicolonGoneError,
        ParserError::UnexpectedTokenError,
    ];
    assert_eq!(all.len(), expected.len());
    for (kept, error) in expected.into_iter().enumerate() {
        let mut prefix = tokens("int main(){return -5;}");
        prefix.truncate(kept);
        assert_eq!(
            MiniDecafParser::new(prefix).parse_program(),
            Err(error),
            "with {} tokens",
            kept
        );
    }
}

#[test]
fn tokens_behind_the_function_are_not_read() {
    let mut all = tokens("int main(){return 3;}");
    all.push(MiniDecafTokens::Semicon);
    all.push(MiniDecafTokens::Int);
    assert_eq!(
        MiniDecafParser::new(all).parse_program(),
        Ok(program(Unary::Integer(3)))
    );
}

#[test]
fn a_second_parse_goes_on_from_where_the_first_stopped() {
    let mut twice = tokens("int main(){return 1;}");
    twice.extend(tokens("int main(){return ~2;}"));
    let mut parser = MiniDecafParser::new(twice);
    assert_eq!(parser.parse_program(), Ok(program(Unary::Integer(1))));
    assert_eq!(
        parser.parse_program(),
        Ok(program(under(MiniDecafTokens::BitwiseNot, Unary::Integer(2))))
    );
    assert_eq!(parser.parse_program(), Err(ParserError::UndefinedTypeError));

    let mut parser = MiniDecafParser::new(tokens("int foo"));
    assert_eq!(
        parser.parse_program(),
        Err(ParserError::InvaildIdentifierError)
    );
    assert_eq!(parser.parse_program(), Err(ParserError::UndefinedTypeError));
}

#[test]
fn trees_know_whether_their_operators_are_operators() {
    assert!(Unary::Integer(1).is_well_formed());
    assert!(under(
        MiniDecafTokens::Minus,
        under(
            MiniDecafTokens::LogicalNot,
            under(MiniDecafTokens::BitwiseNot, Unary::Integer(1))
        )
    )
    .is_well_formed());
    assert!(!under(MiniDecafTokens::Semicon, Unary::Integer(1)).is_well_formed());
    assert!(!under(
        MiniDecafTokens::Minus,
        under(MiniDecafTokens::Int, Unary::Integer(1))
    )
    .is_well_formed());
    assert!(!under(
        MiniDecafTokens::Identifier("x".to_owned()),
        Unary::Integer(1)
    )
    .is_well_formed());
    assert!(parse("int main(){return -!~-!~0;}").unwrap().is_well_formed());
    assert!(!program(under(MiniDecafTokens::Return, Unary::Integer(1))).is_well_formed());
}

#[test]
fn parser_errors_describe_themselves() {
    assert_eq!(
        ParserError::UndefinedTypeError.message(),
        "A unexpected expression occured!"
    );
    assert_eq!(
        ParserError::SemicolonGoneError.message(),
        "Where is the end semicon?"
    );
    assert_eq!(ParserError::UnexpectedTokenError.message(), "Wrong token!");
    assert_eq!(
        ParserError::MissingIdentifierError.message(),
        "Where is the identifier?"
    );
    assert_eq!(
        ParserError::ExpectUnaryExpressionError.message(),
        "lossing operand"
    );
    assert_eq!(
        ParserError::InvaildIdentifierError.message(),
        "Invaild identifier error"
    );
}
