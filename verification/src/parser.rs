//! The parser: from tokens to a syntax tree, by recursive descent.
//!
//! ```text
//! program    := function
//! function   := "int" Identifier "(" ")" "{" statement "}"
//! statement  := "return" expression ";"
//! expression := unary
//! unary      := IntegerLiteral | ("-" | "!" | "~") unary
//! ```
//!
//! The spec functions whose names end in `_at` say what the parser makes of
//! a token sequence from a position on, and where it then stands. A token
//! sequence that ends too early fails like one with a wrong token in that
//! place. Tokens behind the function's closing bracket are not read.

use vstd::prelude::*;
use crate::lexer::{MiniDecafTokens, Token};

verus! {

/// A program: one function.
#[derive(Debug, PartialEq, Eq)]
pub struct Program {
    pub func: Function,
}

/// A function: its return type, its name and its one statement.
#[derive(Debug, PartialEq, Eq)]
pub struct Function {
    pub ty: MiniDecafTokens,
    pub identifier: String,
    pub stmt: Statement,
}

/// A `return` statement with the expression it returns.
#[derive(Debug, PartialEq, Eq)]
pub struct Statement {
    pub expr: Expression,
}

/// An expression.
#[derive(Debug, PartialEq, Eq)]
pub struct Expression {
    pub unary: Unary,
}

/// An integer literal, or a prefix operator applied to a unary expression.
#[derive(Debug, PartialEq, Eq)]
pub enum Unary {
    Integer(i32),
    SubUnary { operator: MiniDecafTokens, sub_unary: Box<Unary> },
}

/// Why a token sequence is no program.
#[derive(Debug, PartialEq, Eq)]
pub enum ParserError {
    /// A token that the grammar does not allow in its place.
    UnexpectedTokenError,
    /// The statement does not end in `;`.
    SemicolonGoneError,
    /// The function does not start with the type `int`.
    UndefinedTypeError,
    /// No identifier follows the type.
    MissingIdentifierError,
    /// An operator without an operand.
    ExpectUnaryExpressionError,
    /// The function's name is not among the names allowed.
    InvaildIdentifierError,
}

impl ParserError {
    /// The description of the error.
    pub open spec fn message_text(&self) -> Seq<char> {
        match self {
            ParserError::UndefinedTypeError => "A unexpected expression occured!"@,
            ParserError::SemicolonGoneError => "Where is the end semicon?"@,
            ParserError::UnexpectedTokenError => "Wrong token!"@,
            ParserError::MissingIdentifierError => "Where is the identifier?"@,
            ParserError::ExpectUnaryExpressionError => "lossing operand"@,
            ParserError::InvaildIdentifierError => "Invaild identifier error"@,
        }
    }

    /// Describes the error.
    pub fn message(&self) -> (text: String)
        ensures
            text@ == self.message_text(),
    {
        match self {
            ParserError::UndefinedTypeError => "A unexpected expression occured!".to_owned(),
            ParserError::SemicolonGoneError => "Where is the end semicon?".to_owned(),
            ParserError::UnexpectedTokenError => "Wrong token!".to_owned(),
            ParserError::MissingIdentifierError => "Where is the identifier?".to_owned(),
            ParserError::ExpectUnaryExpressionError => "lossing operand".to_owned(),
            ParserError::InvaildIdentifierError => "Invaild identifier error".to_owned(),
        }
    }
}

/// Whether `token` is one of the three prefix operators.
pub open spec fn is_unary_operator(token: Token) -> bool {
    token is Minus || token is LogicalNot || token is BitwiseNot
}

impl Unary {
    /// Every operator in the expression is one of the three prefix
    /// operators.
    pub open spec fn well_formed(&self) -> bool
        decreases self,
    {
        match self {
            Unary::Integer(_) => true,
            Unary::SubUnary { operator, sub_unary } => is_unary_operator(operator@)
                && sub_unary.well_formed(),
        }
    }

    /// How many operators stand before the literal.
    pub open spec fn depth(&self) -> nat
        decreases self,
    {
        match self {
            Unary::Integer(_) => 0,
            Unary::SubUnary { operator, sub_unary } => sub_unary.depth() + 1,
        }
    }

    /// The literal that the expression ends in.
    pub open spec fn literal(&self) -> i32
        decreases self,
    {
        match self {
            Unary::Integer(v) => *v,
            Unary::SubUnary { operator, sub_unary } => sub_unary.literal(),
        }
    }

    /// The operator at each level of the expression, outermost first.
    pub open spec fn operators(&self) -> Seq<Token>
        decreases self,
    {
        match self {
            Unary::Integer(_) => Seq::empty(),
            Unary::SubUnary { operator, sub_unary } => seq![operator@] + sub_unary.operators(),
        }
    }

    /// Whether every operator in the expression is one of the three prefix
    /// operators.
    pub fn is_well_formed(&self) -> (r: bool)
        ensures
            r == self.well_formed(),
        decreases self,
    {
        match self {
            Unary::Integer(_) => true,
            Unary::SubUnary { operator, sub_unary } => {
                let known = match operator {
                    MiniDecafTokens::Minus => true,
                    MiniDecafTokens::LogicalNot => true,
                    MiniDecafTokens::BitwiseNot => true,
                    _ => false,
                };
                known && sub_unary.is_well_formed()
            },
        }
    }
}

impl Program {
    /// The expression that the program returns.
    pub open spec fn returned(&self) -> Unary {
        self.func.stmt.expr.unary
    }

    /// Every operator in the program is one of the three prefix operators.
    pub open spec fn well_formed(&self) -> bool {
        self.returned().well_formed()
    }

    /// Whether every operator in the program is one of the three prefix
    /// operators.
    pub fn is_well_formed(&self) -> (r: bool)
        ensures
            r == self.well_formed(),
    {
        self.func.stmt.expr.unary.is_well_formed()
    }
}

/// A function as a mathematical value: its name is a sequence of characters.
pub struct FunctionView {
    pub ty: Token,
    pub identifier: Seq<char>,
    pub stmt: Statement,
}

impl View for Function {
    type V = FunctionView;

    open spec fn view(&self) -> FunctionView {
        FunctionView { ty: self.ty@, identifier: self.identifier@, stmt: self.stmt }
    }
}

impl View for Program {
    type V = FunctionView;

    open spec fn view(&self) -> FunctionView {
        self.func@
    }
}

/// What the parser made of the tokens from some position on, and the
/// position at which it then stands: behind what it accepted, or at the
/// token that it refused.
pub struct Parsed<T> {
    pub result: Result<T, ParserError>,
    pub next: int,
}

/// The names that a function may have.
pub open spec fn valid_identifier(name: Seq<char>) -> bool {
    name == "main"@
}

/// The token at position `i`, if there is one.
pub open spec fn token_at(tokens: Seq<Token>, i: int) -> Option<Token> {
    if 0 <= i < tokens.len() {
        Some(tokens[i])
    } else {
        None
    }
}

/// The parser refuses the token at position `at`.
pub open spec fn refused<T>(error: ParserError, at: int) -> Parsed<T> {
    Parsed { result: Err(error), next: at }
}

/// `operand` under the operator `operator`; an error stays.
pub open spec fn under(operator: MiniDecafTokens, operand: Parsed<Unary>) -> Parsed<Unary> {
    Parsed {
        result: match operand.result {
            Ok(inner) => Ok(Unary::SubUnary { operator, sub_unary: Box::new(inner) }),
            Err(e) => Err(e),
        },
        next: operand.next,
    }
}

/// `unary := IntegerLiteral | ("-" | "!" | "~") unary`
pub open spec fn unary_at(tokens: Seq<Token>, i: int) -> Parsed<Unary>
    decreases tokens.len() - i,
{
    match token_at(tokens, i) {
        Some(Token::IntValue(v)) => Parsed { result: Ok(Unary::Integer(v)), next: i + 1 },
        Some(Token::BitwiseNot) => under(MiniDecafTokens::BitwiseNot, unary_at(tokens, i + 1)),
        Some(Token::LogicalNot) => under(MiniDecafTokens::LogicalNot, unary_at(tokens, i + 1)),
        Some(Token::Minus) => under(MiniDecafTokens::Minus, unary_at(tokens, i + 1)),
        _ => refused(ParserError::UnexpectedTokenError, i),
    }
}

/// `expression := unary`
pub open spec fn expression_at(tokens: Seq<Token>, i: int) -> Parsed<Expression> {
    let unary = unary_at(tokens, i);
    Parsed {
        result: match unary.result {
            Ok(u) => Ok(Expression { unary: u }),
            Err(e) => Err(e),
        },
        next: unary.next,
    }
}

/// `statement := "return" expression ";"`, from the keyword on.
pub open spec fn statement_at(tokens: Seq<Token>, i: int) -> Parsed<Statement> {
    if token_at(tokens, i) != Some(Token::Return) {
        refused(ParserError::UnexpectedTokenError, i)
    } else {
        let expression = expression_at(tokens, i + 1);
        match expression.result {
            Err(e) => refused(e, expression.next),
            Ok(expr) => if token_at(tokens, expression.next) == Some(Token::Semicon) {
                Parsed { result: Ok(Statement { expr }), next: expression.next + 1 }
            } else {
                refused(ParserError::SemicolonGoneError, expression.next)
            },
        }
    }
}

/// `type := "int"`
pub open spec fn type_at(tokens: Seq<Token>, i: int) -> Parsed<Token> {
    if token_at(tokens, i) == Some(Token::Int) {
        Parsed { result: Ok(Token::Int), next: i + 1 }
    } else {
        refused(ParserError::UndefinedTypeError, i)
    }
}

/// `function := "int" Identifier "(" ")" "{" statement "}"`, with a name
/// that is allowed.
pub open spec fn function_at(tokens: Seq<Token>, i: int) -> Parsed<FunctionView> {
    if type_at(tokens, i).result is Err {
        refused(ParserError::UndefinedTypeError, i)
    } else {
        match token_at(tokens, i + 1) {
            Some(Token::Identifier(name)) => {
                if !valid_identifier(name) {
                    refused(ParserError::InvaildIdentifierError, i + 1)
                } else if token_at(tokens, i + 2) != Some(Token::LeftParenthesis) {
                    refused(ParserError::UnexpectedTokenError, i + 2)
                } else if token_at(tokens, i + 3) != Some(Token::RightParenthesis) {
                    refused(ParserError::UnexpectedTokenError, i + 3)
                } else if token_at(tokens, i + 4) != Some(Token::LeftBracket) {
                    refused(ParserError::UnexpectedTokenError, i + 4)
                } else {
                    let statement = statement_at(tokens, i + 5);
                    match statement.result {
                        Err(e) => refused(e, statement.next),
                        Ok(stmt) => if token_at(tokens, statement.next) == Some(
                            Token::RightBracket,
                        ) {
                            Parsed {
                                result: Ok(FunctionView { ty: Token::Int, identifier: name, stmt }),
                                next: statement.next + 1,
                            }
                        } else {
                            refused(ParserError::UnexpectedTokenError, statement.next)
                        },
                    }
                }
            },
            _ => refused(ParserError::MissingIdentifierError, i + 1),
        }
    }
}

/// `program := function`
pub open spec fn program_at(tokens: Seq<Token>, i: int) -> Parsed<FunctionView> {
    function_at(tokens, i)
}

/// What the parser makes of a whole token sequence.
pub open spec fn parse(tokens: Seq<Token>) -> Result<FunctionView, ParserError> {
    program_at(tokens, 0).result
}

/// The tokens of a unary expression: its operators, outermost first, then
/// its literal.
pub open spec fn unary_tokens(unary: Unary) -> Seq<Token> {
    unary.operators().push(Token::IntValue(unary.literal()))
}

/// The tokens of a function, as the grammar writes it.
pub open spec fn function_tokens(function: FunctionView) -> Seq<Token> {
    seq![
        function.ty,
        Token::Identifier(function.identifier),
        Token::LeftParenthesis,
        Token::RightParenthesis,
        Token::LeftBracket,
        Token::Return,
    ] + unary_tokens(function.stmt.expr.unary) + seq![Token::Semicon, Token::RightBracket]
}

/// A function that the grammar can write: its type is `int`, its name is
/// allowed, and its operators are prefix operators.
pub open spec fn grammatical(function: FunctionView) -> bool {
    &&& function.ty == Token::Int
    &&& valid_identifier(function.identifier)
    &&& function.stmt.expr.unary.well_formed()
}

/// An expression has as many operators as it is deep, and each stands at
/// its level.
pub proof fn lemma_operators(unary: Unary)
    ensures
        unary.operators().len() == unary.depth(),
        unary.well_formed() <==> forall|k: int|
            0 <= k < unary.operators().len() ==> is_unary_operator(#[trigger] unary.operators()[k]),
    decreases unary,
{
    match unary {
        Unary::Integer(_) => {},
        Unary::SubUnary { operator, sub_unary } => {
            lemma_operators(*sub_unary);
            let inner = sub_unary.operators();
            let all = unary.operators();
            assert(all[0] == operator@);
            assert forall|k: int| 0 <= k < inner.len() implies #[trigger] inner[k] == all[k + 1] by {}
            if unary.well_formed() {
                assert forall|k: int| 0 <= k < all.len() implies is_unary_operator(
                    #[trigger] all[k],
                ) by {
                    if k > 0 {
                        assert(all[k] == inner[k - 1]);
                    }
                }
            }
            if forall|k: int| 0 <= k < all.len() ==> is_unary_operator(#[trigger] all[k]) {
                assert(is_unary_operator(all[0]));
                assert forall|k: int| 0 <= k < inner.len() implies is_unary_operator(
                    #[trigger] inner[k],
                ) by {
                    assert(is_unary_operator(all[k + 1]));
                }
            }
        },
    }
}

/// What `lemma_unary_at_reads` states of position `i`.
spec fn unary_read(tokens: Seq<Token>, i: int) -> bool {
    match unary_at(tokens, i).result {
        Ok(unary) => {
            &&& unary.well_formed()
            &&& unary_at(tokens, i).next == i + unary.depth() + 1
            &&& unary_at(tokens, i).next <= tokens.len()
            &&& tokens.subrange(i, unary_at(tokens, i).next) == unary_tokens(unary)
        },
        Err(e) => {
            &&& e == ParserError::UnexpectedTokenError
            &&& i <= unary_at(tokens, i).next <= tokens.len()
            &&& forall|k: int|
                i <= k < unary_at(tokens, i).next ==> is_unary_operator(#[trigger] tokens[k])
            &&& match token_at(tokens, unary_at(tokens, i).next) {
                Some(token) => !(token is IntValue) && !is_unary_operator(token),
                None => true,
            }
        },
    }
}

/// The step of `lemma_unary_read` for an operator at position `i`.
proof fn lemma_unary_read_under(tokens: Seq<Token>, i: int, operator: MiniDecafTokens)
    requires
        0 <= i < tokens.len(),
        tokens[i] == operator@,
        is_unary_operator(operator@),
        unary_at(tokens, i) == under(operator, unary_at(tokens, i + 1)),
        unary_read(tokens, i + 1),
    ensures
        unary_read(tokens, i),
{
    let inner = unary_at(tokens, i + 1);
    match inner.result {
        Ok(sub) => {
            let unary = Unary::SubUnary { operator, sub_unary: Box::new(sub) };
            assert(unary_at(tokens, i).result == Ok::<Unary, ParserError>(unary));
            assert(tokens.subrange(i, inner.next) =~= seq![tokens[i]] + tokens.subrange(
                i + 1,
                inner.next,
            ));
            assert(unary_tokens(unary) =~= seq![operator@] + unary_tokens(sub));
        },
        Err(_) => {
            assert forall|k: int| i <= k < inner.next implies is_unary_operator(
                #[trigger] tokens[k],
            ) by {
                if k > i {
                    assert(i + 1 <= k < unary_at(tokens, i + 1).next);
                }
            }
        },
    }
}

proof fn lemma_unary_read(tokens: Seq<Token>, i: int)
    requires
        0 <= i <= tokens.len(),
    ensures
        unary_read(tokens, i),
    decreases tokens.len() - i,
{
    match token_at(tokens, i) {
        Some(Token::IntValue(v)) => {
            let unary = Unary::Integer(v);
            assert(tokens.subrange(i, i + 1) =~= unary_tokens(unary));
        },
        Some(Token::BitwiseNot) => {
            lemma_unary_read(tokens, i + 1);
            lemma_unary_read_under(tokens, i, MiniDecafTokens::BitwiseNot);
        },
        Some(Token::LogicalNot) => {
            lemma_unary_read(tokens, i + 1);
            lemma_unary_read_under(tokens, i, MiniDecafTokens::LogicalNot);
        },
        Some(Token::Minus) => {
            lemma_unary_read(tokens, i + 1);
            lemma_unary_read_under(tokens, i, MiniDecafTokens::Minus);
        },
        _ => {},
    }
}

/// What the parser accepts as a unary expression is what it read: the
/// expression is as deep as the number of operators before the literal, its
/// operators are prefix operators, and the parser stands behind the literal.
/// What it refuses is a token that is neither literal nor operator, or the
/// end of the tokens, behind operators only.
pub proof fn lemma_unary_at_reads(tokens: Seq<Token>, i: int)
    requires
        0 <= i <= tokens.len(),
    ensures
        match unary_at(tokens, i).result {
            Ok(unary) => {
                &&& unary.well_formed()
                &&& unary_at(tokens, i).next == i + unary.depth() + 1
                &&& unary_at(tokens, i).next <= tokens.len()
                &&& tokens.subrange(i, unary_at(tokens, i).next) == unary_tokens(unary)
            },
            Err(e) => {
                &&& e == ParserError::UnexpectedTokenError
                &&& i <= unary_at(tokens, i).next <= tokens.len()
                &&& forall|k: int|
                    i <= k < unary_at(tokens, i).next ==> is_unary_operator(#[trigger] tokens[k])
                &&& match token_at(tokens, unary_at(tokens, i).next) {
                    Some(token) => !(token is IntValue) && !is_unary_operator(token),
                    None => true,
                }
            },
        },
{
    lemma_unary_read(tokens, i);
}

/// The parser reads a unary expression back from its tokens, whatever
/// follows them.
pub proof fn lemma_unary_at_accepts(tokens: Seq<Token>, i: int, unary: Unary)
    requires
        0 <= i,
        unary.well_formed(),
        i + unary.depth() + 1 <= tokens.len(),
        tokens.subrange(i, i + unary.depth() + 1) == unary_tokens(unary),
    ensures
        unary_at(tokens, i) == (Parsed { result: Ok(unary), next: i + unary.depth() + 1 }),
    decreases unary,
{
    lemma_operators(unary);
    let written = unary_tokens(unary);
    assert(tokens[i] == tokens.subrange(i, i + unary.depth() + 1)[0]);
    match unary {
        Unary::Integer(v) => {
            assert(written[0] == Token::IntValue(v));
        },
        Unary::SubUnary { operator, sub_unary } => {
            lemma_operators(*sub_unary);
            assert(written[0] == operator@);
            assert(tokens.subrange(i + 1, i + 1 + sub_unary.depth() + 1) =~= unary_tokens(
                *sub_unary,
            )) by {
                assert forall|k: int| 0 <= k < sub_unary.depth() + 1 implies tokens.subrange(
                    i + 1,
                    i + 1 + sub_unary.depth() + 1,
                )[k] == unary_tokens(*sub_unary)[k] by {
                    assert(tokens[i + 1 + k] == tokens.subrange(i, i + unary.depth() + 1)[k + 1]);
                    assert(written[k + 1] == unary_tokens(*sub_unary)[k]);
                }
            }
            lemma_unary_at_accepts(tokens, i + 1, *sub_unary);
            assert(unary == Unary::SubUnary { operator, sub_unary: Box::new(*sub_unary) });
        },
    }
}

/// What the parser accepts is a function that the grammar can write, and
/// the tokens that the parser read are the tokens of that function.
pub proof fn lemma_program_at_reads(tokens: Seq<Token>, i: int)
    requires
        0 <= i,
        program_at(tokens, i).result is Ok,
    ensures
        grammatical(program_at(tokens, i).result->Ok_0),
        program_at(tokens, i).next <= tokens.len(),
        tokens.subrange(i, program_at(tokens, i).next) == function_tokens(
            program_at(tokens, i).result->Ok_0,
        ),
        program_at(tokens, i).next == i + 9 + program_at(
            tokens,
            i,
        ).result->Ok_0.stmt.expr.unary.depth(),
{
    lemma_unary_at_reads(tokens, i + 6);
    let function = program_at(tokens, i).result->Ok_0;
    let unary = function.stmt.expr.unary;
    let end = program_at(tokens, i).next;
    lemma_operators(unary);
    assert(unary_at(tokens, i + 6).result == Ok::<Unary, ParserError>(unary));
    assert(tokens.subrange(i, end) =~= function_tokens(function)) by {
        let written = function_tokens(function);
        let read = tokens.subrange(i, end);
        let inner = tokens.subrange(i + 6, i + 6 + unary.depth() + 1);
        assert(inner == unary_tokens(unary));
        assert(read.len() == written.len());
        assert forall|k: int| 0 <= k < read.len() implies read[k] == written[k] by {
            if 6 <= k < 6 + unary.depth() + 1 {
                assert(read[k] == inner[k - 6]);
            }
        }
    }
}

/// The parser reads a function that the grammar can write back from its
/// tokens, whatever follows them.
pub proof fn lemma_program_at_accepts(function: FunctionView, rest: Seq<Token>)
    requires
        grammatical(function),
    ensures
        program_at(function_tokens(function) + rest, 0) == (Parsed {
            result: Ok(function),
            next: function_tokens(function).len() as int,
        }),
        parse(function_tokens(function) + rest) == Ok::<FunctionView, ParserError>(function),
{
    let unary = function.stmt.expr.unary;
    let written = function_tokens(function);
    let tokens = written + rest;
    lemma_operators(unary);
    let depth = unary.depth() as int;
    assert(written.len() == 9 + depth);
    assert forall|k: int| 0 <= k < written.len() implies tokens[k] == written[k] by {}
    assert(tokens.subrange(6, 6 + depth + 1) =~= unary_tokens(unary)) by {
        assert forall|k: int| 0 <= k < depth + 1 implies tokens.subrange(6, 6 + depth + 1)[k]
            == unary_tokens(unary)[k] by {
            assert(tokens[6 + k] == written[6 + k]);
        }
    }
    lemma_unary_at_accepts(tokens, 6, unary);
    assert(tokens[0] == written[0]);
    assert(tokens[1] == written[1]);
    assert(tokens[2] == written[2]);
    assert(tokens[3] == written[3]);
    assert(tokens[4] == written[4]);
    assert(tokens[5] == written[5]);
    assert(tokens[7 + depth] == written[7 + depth]);
    assert(tokens[8 + depth] == written[8 + depth]);
    assert(function.stmt == Statement { expr: Expression { unary } });
}

/// Whether a function may have the name `name`.
fn is_valid_identifier(name: &String) -> (r: bool)
    ensures
        r == valid_identifier(name@),
{
    *name == "main".to_owned()
}

/// A parser over a token sequence. It reads from its position on.
pub struct MiniDecafParser {
    cursor: usize,
    tokens: Vec<MiniDecafTokens>,
}

impl MiniDecafParser {
    #[verifier::type_invariant]
    spec fn in_tokens(&self) -> bool {
        self.cursor <= self.tokens.len()
    }

    /// The tokens.
    pub closed spec fn input(&self) -> Seq<Token> {
        self.tokens.deep_view()
    }

    /// How many tokens have been read.
    pub closed spec fn position(&self) -> int {
        self.cursor as int
    }

    /// A parser at the start of `tokens`.
    pub fn new(tokens: Vec<MiniDecafTokens>) -> (parser: MiniDecafParser)
        ensures
            parser.input() == tokens.deep_view(),
            parser.position() == 0,
    {
        MiniDecafParser { cursor: 0, tokens }
    }

    /// Parses a program from the parser's position on: the tree of the
    /// program that the tokens start with, or the error of the first token
    /// that the grammar does not allow. The parser then stands behind the
    /// program, or at that token. Every operator in the tree is a prefix
    /// operator.
    pub fn parse_program(&mut self) -> (res: Result<Program, ParserError>)
        ensures
            final(self).input() == old(self).input(),
            final(self).position() == program_at(old(self).input(), old(self).position()).next,
            match program_at(old(self).input(), old(self).position()).result {
                Ok(function) => res is Ok && res->Ok_0@ == function,
                Err(e) => res == Err::<Program, ParserError>(e),
            },
            res is Ok ==> res->Ok_0.well_formed(),
    {
        proof {
            if program_at(self.input(), self.position()).result is Ok {
                lemma_program_at_reads(self.input(), self.position());
            }
        }
        match self.parse_function() {
            Ok(func) => Ok(Program { func }),
            Err(e) => Err(e),
        }
    }

    /// The token at the parser's position, if there is one.
    fn current(&self) -> (token: Option<&MiniDecafTokens>)
        ensures
            match token {
                Some(t) => token_at(self.input(), self.position()) == Some(t@),
                None => token_at(self.input(), self.position()) is None,
            },
    {
        proof {
            use_type_invariant(self);
        }
        if self.cursor < self.tokens.len() {
            Some(&self.tokens[self.cursor])
        } else {
            None
        }
    }

    /// Moves behind the token at the parser's position.
    fn advance(&mut self)
        requires
            token_at(old(self).input(), old(self).position()) is Some,
        ensures
            final(self).input() == old(self).input(),
            final(self).position() == old(self).position() + 1,
    {
        assert(self.tokens.deep_view().len() == self.tokens.len());
        self.cursor += 1;
    }

    fn parse_function(&mut self) -> (res: Result<Function, ParserError>)
        ensures
            final(self).input() == old(self).input(),
            final(self).position() == function_at(old(self).input(), old(self).position()).next,
            match function_at(old(self).input(), old(self).position()).result {
                Ok(function) => res is Ok && res->Ok_0@ == function,
                Err(e) => res == Err::<Function, ParserError>(e),
            },
    {
        let t = match self.parse_type() {
            Ok(t) => t,
            Err(e) => {
                return Err(e);
            },
        };
        let name = match self.current() {
            Some(MiniDecafTokens::Identifier(id)) => {
                if !is_valid_identifier(id) {
                    return Err(ParserError::InvaildIdentifierError);
                }
                id.clone()
            },
            _ => {
                return Err(ParserError::MissingIdentifierError);
            },
        };
        self.advance();
        match self.current() {
            Some(MiniDecafTokens::LeftParenthesis) => {
                self.advance();
            },
            _ => {
                return Err(ParserError::UnexpectedTokenError);
            },
        }
        match self.current() {
            Some(MiniDecafTokens::RightParenthesis) => {
                self.advance();
            },
            _ => {
                return Err(ParserError::UnexpectedTokenError);
            },
        }
        match self.current() {
            Some(MiniDecafTokens::LeftBracket) => {
                self.advance();
            },
            _ => {
                return Err(ParserError::UnexpectedTokenError);
            },
        }
        match self.current() {
            Some(MiniDecafTokens::Return) => {},
            _ => {
                return Err(ParserError::UnexpectedTokenError);
            },
        }
        let stmt = match self.parse_statement() {
            Ok(stmt) => stmt,
            Err(e) => {
                return Err(e);
            },
        };
        match self.current() {
            Some(MiniDecafTokens::RightBracket) => {
                self.advance();
            },
            _ => {
                return Err(ParserError::UnexpectedTokenError);
            },
        }
        Ok(Function { ty: t, identifier: name, stmt })
    }

    fn parse_type(&mut self) -> (res: Result<MiniDecafTokens, ParserError>)
        ensures
            final(self).input() == old(self).input(),
            final(self).position() == type_at(old(self).input(), old(self).position()).next,
            match type_at(old(self).input(), old(self).position()).result {
                Ok(ty) => res is Ok && res->Ok_0@ == ty,
                Err(e) => res == Err::<MiniDecafTokens, ParserError>(e),
            },
    {
        match self.current() {
            Some(MiniDecafTokens::Int) => {
                self.advance();
                Ok(MiniDecafTokens::Int)
            },
            _ => Err(ParserError::UndefinedTypeError),
        }
    }

    /// Parses a statement. The caller has seen that the keyword `return`
    /// stands at the parser's position.
    fn parse_statement(&mut self) -> (res: Result<Statement, ParserError>)
        requires
            token_at(old(self).input(), old(self).position()) == Some(Token::Return),
        ensures
            final(self).input() == old(self).input(),
            final(self).position() == statement_at(old(self).input(), old(self).position()).next,
            res == statement_at(old(self).input(), old(self).position()).result,
    {
        self.advance();
        let expr = match self.parse_expression() {
            Ok(expr) => expr,
            Err(e) => {
                return Err(e);
            },
        };
        match self.current() {
            Some(MiniDecafTokens::Semicon) => {
                self.advance();
            },
            _ => {
                return Err(ParserError::SemicolonGoneError);
            },
        }
        Ok(Statement { expr })
    }

    fn parse_expression(&mut self) -> (res: Result<Expression, ParserError>)
        ensures
            final(self).input() == old(self).input(),
            final(self).position() == expression_at(old(self).input(), old(self).position()).next,
            res == expression_at(old(self).input(), old(self).position()).result,
    {
        match self.parse_unary() {
            Ok(unary) => Ok(Expression { unary }),
            Err(e) => Err(e),
        }
    }

    fn parse_unary(&mut self) -> (res: Result<Unary, ParserError>)
        ensures
            final(self).input() == old(self).input(),
            final(self).position() == unary_at(old(self).input(), old(self).position()).next,
            res == unary_at(old(self).input(), old(self).position()).result,
        decreases old(self).input().len() - old(self).position(),
    {
        let operator = match self.current() {
            Some(MiniDecafTokens::IntValue(val)) => {
                let val: i32 = *val;
                self.advance();
                return Ok(Unary::Integer(val));
            },
            Some(MiniDecafTokens::BitwiseNot) => MiniDecafTokens::BitwiseNot,
            Some(MiniDecafTokens::LogicalNot) => MiniDecafTokens::LogicalNot,
            Some(MiniDecafTokens::Minus) => MiniDecafTokens::Minus,
            _ => {
                return Err(ParserError::UnexpectedTokenError);
            },
        };
        self.advance();
        match self.parse_unary() {
            Ok(sub_unary) => Ok(Unary::SubUnary { operator, sub_unary: Box::new(sub_unary) }),
            Err(e) => Err(e),
        }
    }
}

} // verus!
