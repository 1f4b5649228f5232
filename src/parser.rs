//! The recursive-descent parser: tokens to a syntax tree, with recovery at
//! statement boundaries.
use vstd::prelude::*;
use vstd::string::StringExecFns;
use crate::ast::{
    binary_token, kinds, unparse, unparse_list, Assignment, Binary, BinaryOp,
    Block, Call, Conditional, Declaration, Expression, Function, Iteration, Literal, Logical,
    LogicalOp, Primary, Program, Statement, Unary, UnaryOp,
};
use std::rc::Rc;
use crate::text::{diagnostic, make_diagnostic};
use crate::tokens::{payload_free, same_kind, Token, TokenType};

verus! {

/// What parsing from a position gives: the position after what was read, or a
/// diagnostic and the position at which parsing stopped.
pub type Outcome = Result<int, (Seq<char>, int)>;

/// The outcome of a parse that consumed a position.
pub open spec fn outcome(r: Result<usize, ParseError>) -> Outcome {
    match r {
        Ok(p) => Ok(p as int),
        Err(e) => Err((e.message@, e.position as int)),
    }
}

/// The outcome of a parse that read a value.
pub open spec fn outcome_of<T>(r: Result<(T, usize), ParseError>) -> Outcome {
    match r {
        Ok((_, p)) => Ok(p as int),
        Err(e) => Err((e.message@, e.position as int)),
    }
}

/// A parse failure: its diagnostic, and the index of the token at which the
/// parser stopped.
pub struct ParseError {
    pub message: String,
    pub position: usize,
}

/// What an expression parser promises: on success the expression is written by
/// exactly the tokens it consumed; on failure it stopped within the tokens, past
/// `pos` whenever a token was there to read.
pub open spec fn parsed(
    tokens: Seq<Token>,
    pos: int,
    r: Result<(Expression, usize), ParseError>,
) -> bool {
    match r {
        Ok((e, p)) => pos < p <= tokens.len() && unparse(e) == kinds(tokens).subrange(pos, p as int),
        Err(err) => failed_at(tokens, pos, err),
    }
}

/// A failure that stopped between `pos` and the end, past `pos` if `pos` held a token.
pub open spec fn failed_at(tokens: Seq<Token>, pos: int, err: ParseError) -> bool {
    &&& pos <= err.position <= tokens.len()
    &&& pos < tokens.len() ==> pos < err.position
}

/// The tokens that write a binary operator.
pub open spec fn is_binary_operator(t: TokenType) -> bool {
    t is EQUAL_EQUAL || t is BANG_EQUAL || t is LESS || t is LESS_EQUAL || t is GREATER
        || t is GREATER_EQUAL || t is PLUS || t is HYPHEN || t is ASTERICS || t is SLASH
}

/// The message of a failure at token `pos`: positioned at that token, or saying
/// that the input ended.
pub open spec fn message_at(tokens: Seq<Token>, pos: int, message: Seq<char>) -> Seq<char> {
    if 0 <= pos < tokens.len() {
        diagnostic(tokens[pos].line as nat, tokens[pos].offset as nat, message)
    } else {
        message + " found EOF"@
    }
}

fn error_at(tokens: &Vec<Token>, pos: usize, message: &str, position: usize) -> (r: ParseError)
    ensures
        r.message@ == message_at(tokens@, pos as int, message@),
        r.position == position,
{
    if pos < tokens.len() {
        ParseError {
            message: make_diagnostic(tokens[pos].line, tokens[pos].offset, message),
            position,
        }
    } else {
        let mut m = String::from_str(message);
        m.append(" found EOF");
        proof {
            reveal_strlit(" found EOF");
        }
        ParseError { message: m, position }
    }
}

/// The next token is of kind `t`, which carries no text.
fn check(tokens: &Vec<Token>, pos: usize, t: TokenType) -> (r: bool)
    requires
        payload_free(t),
    ensures
        r == (pos < tokens@.len() && tokens@[pos as int].token_type == t),
        tokens@.len() <= usize::MAX,
{
    pos < tokens.len() && same_kind(&tokens[pos].token_type, &t)
}

/// The token at `pos` is of kind `token`; an identifier of any name matches an
/// expected identifier.
pub open spec fn accepts(tokens: Seq<Token>, pos: int, token: TokenType) -> bool {
    0 <= pos < tokens.len() && match token {
        TokenType::IDENTIFIER(_) => tokens[pos].token_type is IDENTIFIER,
        TokenType::STRING(v) => (tokens[pos].token_type matches TokenType::STRING(w) && w@ == v@),
        TokenType::NUMBER(v) => (tokens[pos].token_type matches TokenType::NUMBER(w) && w@ == v@),
        _ => tokens[pos].token_type == token,
    }
}

/// The outcome of expecting `token` at `pos`: the next position, or the
/// diagnostic and where parsing stopped.
pub open spec fn expect(tokens: Seq<Token>, pos: int, token: TokenType, message: Seq<char>) -> Outcome {
    if accepts(tokens, pos, token) {
        Ok(pos + 1)
    } else {
        Err((message_at(tokens, pos, message), pos))
    }
}

/// Expects a token of kind `token` at `pos` and steps over it; otherwise fails
/// there with `message`.
pub fn consume(tokens: &Vec<Token>, pos: usize, token: TokenType, message: &str) -> (r: Result<
    usize,
    ParseError,
>)
    requires
        pos <= tokens@.len(),
    ensures
        tokens@.len() <= usize::MAX,
        accepts(tokens@, pos as int, token) ==> r == Ok::<usize, ParseError>((pos + 1) as usize),
        !accepts(tokens@, pos as int, token) ==> (r matches Err(e) && e.position == pos
            && e.message@ == message_at(tokens@, pos as int, message@)),
        outcome(r) == expect(tokens@, pos as int, token, message@),
{
    let n = tokens.len();
    let ok = if pos < n {
        match &token {
            TokenType::IDENTIFIER(_) => matches!(tokens[pos].token_type, TokenType::IDENTIFIER(_)),
            TokenType::STRING(v) => match &tokens[pos].token_type {
                TokenType::STRING(w) => *w == *v,
                _ => false,
            },
            TokenType::NUMBER(v) => match &tokens[pos].token_type {
                TokenType::NUMBER(w) => *w == *v,
                _ => false,
            },
            _ => same_kind(&tokens[pos].token_type, &token),
        }
    } else {
        false
    };
    if ok {
        Ok(pos + 1)
    } else {
        Err(error_at(tokens, pos, message, pos))
    }
}

/// Reads an identifier at `pos`.
pub fn get_identifier(tokens: &Vec<Token>, pos: usize) -> (r: Result<(String, usize), ParseError>)
    requires
        pos <= tokens@.len(),
    ensures
        match r {
            Ok((name, p)) => pos < tokens@.len() && tokens@[pos as int].token_type
                == TokenType::IDENTIFIER(name) && p == pos + 1,
            Err(e) => !(pos < tokens@.len() && tokens@[pos as int].token_type is IDENTIFIER)
                && failed_at(tokens@, pos as int, e) && e.message@ == message_at(
                tokens@,
                pos as int,
                "Expected IDENTIFIER"@,
            ),
        },
        outcome_of(r) == ident_o(tokens@, pos as int),
{
    proof {
        reveal_strlit("Expected IDENTIFIER");
    }
    if pos < tokens.len() {
        match &tokens[pos].token_type {
            TokenType::IDENTIFIER(name) => Ok((name.clone(), pos + 1)),
            _ => Err(error_at(tokens, pos, "Expected IDENTIFIER", pos + 1)),
        }
    } else {
        Err(error_at(tokens, pos, "Expected IDENTIFIER", pos))
    }
}

/// The binary operator that a token stands for.
pub fn map_binary_op(token: &TokenType) -> (r: BinaryOp)
    requires
        is_binary_operator(*token),
    ensures
        binary_token(r) == *token,
{
    match token {
        TokenType::EQUAL_EQUAL => BinaryOp::EqualEqual,
        TokenType::BANG_EQUAL => BinaryOp::NotEqual,
        TokenType::LESS => BinaryOp::Less,
        TokenType::LESS_EQUAL => BinaryOp::LessEqual,
        TokenType::GREATER => BinaryOp::Greater,
        TokenType::GREATER_EQUAL => BinaryOp::GreaterEqual,
        TokenType::PLUS => BinaryOp::Plus,
        TokenType::HYPHEN => BinaryOp::Minus,
        TokenType::ASTERICS => BinaryOp::Multiply,
        _ => BinaryOp::Divide,
    }
}

/// The operator at `pos` if it belongs to precedence `level`: equality (0),
/// comparison (1), addition (2) or multiplication (3).
fn level_operator(tokens: &Vec<Token>, pos: usize, level: u8) -> (r: Option<BinaryOp>)
    requires
        level <= 3,
    ensures
        r matches Some(op) ==> pos < tokens@.len() && binary_token(op) == tokens@[pos as int].token_type
            && op_level(op) == level,
        r is Some <==> level_has(tokens@, pos as int, level as int),
        tokens@.len() <= usize::MAX,
{
    if pos >= tokens.len() {
        return None;
    }
    let t = &tokens[pos].token_type;
    if level == 0 {
        match t {
            TokenType::EQUAL_EQUAL => Some(BinaryOp::EqualEqual),
            TokenType::BANG_EQUAL => Some(BinaryOp::NotEqual),
            _ => None,
        }
    } else if level == 1 {
        match t {
            TokenType::GREATER => Some(BinaryOp::Greater),
            TokenType::GREATER_EQUAL => Some(BinaryOp::GreaterEqual),
            TokenType::LESS => Some(BinaryOp::Less),
            TokenType::LESS_EQUAL => Some(BinaryOp::LessEqual),
            _ => None,
        }
    } else if level == 2 {
        match t {
            TokenType::PLUS => Some(BinaryOp::Plus),
            TokenType::HYPHEN => Some(BinaryOp::Minus),
            _ => None,
        }
    } else {
        match t {
            TokenType::SLASH => Some(BinaryOp::Divide),
            TokenType::ASTERICS => Some(BinaryOp::Multiply),
            _ => None,
        }
    }
}

proof fn lemma_kinds_split(tokens: Seq<Token>, a: int, b: int, c: int)
    requires
        0 <= a <= b <= c <= tokens.len(),
    ensures
        kinds(tokens).subrange(a, c) == kinds(tokens).subrange(a, b) + kinds(tokens).subrange(b, c),
{
    assert(kinds(tokens).subrange(a, c) =~= kinds(tokens).subrange(a, b) + kinds(tokens).subrange(b, c));
}

proof fn lemma_kinds_one(tokens: Seq<Token>, a: int)
    requires
        0 <= a < tokens.len(),
    ensures
        kinds(tokens).subrange(a, a + 1) == seq![tokens[a].token_type],
{
    assert(kinds(tokens).subrange(a, a + 1) =~= seq![tokens[a].token_type]);
}

proof fn lemma_unparse_nonempty(e: Expression)
    ensures
        unparse(e).len() >= 1,
{
}

proof fn lemma_one_token_variable(e: Expression)
    requires
        unparse(e).len() == 1,
        unparse(e)[0] is IDENTIFIER,
    ensures
        e matches Expression::Literal(Literal::Variable(_)),
{
    match e {
        Expression::Unary(u) => lemma_unparse_nonempty(*u.expression),
        Expression::Binary(b) => lemma_unparse_nonempty(*b.left),
        Expression::Logical(l) => lemma_unparse_nonempty(*l.left),
        Expression::Call(c) => lemma_unparse_nonempty(*c.callee),
        _ => {},
    }
}

impl Expression {
    /// Parses an expression starting at `pos`: the grammar's reading, with its
    /// precedence levels, or the grammar's diagnostic.
    pub fn parse(tokens: &Vec<Token>, pos: usize) -> (r: Result<(Expression, usize), ParseError>)
        requires
            pos <= tokens@.len(),
        ensures
            parsed_as(tokens@, pos as int, r, expr_o(tokens@, pos as int), 0),
        decreases tokens@.len() - pos, 10int, 0int,
    {
        Assignment::parse(tokens, pos)
    }
}

impl Assignment {
    fn parse(tokens: &Vec<Token>, pos: usize) -> (r: Result<(Expression, usize), ParseError>)
        requires
            pos <= tokens@.len(),
        ensures
            parsed_as(tokens@, pos as int, r, assign_o(tokens@, pos as int), 0),
        decreases tokens@.len() - pos, 9int, 0int,
    {
        let (target, p) = Logical::parse(tokens, pos)?;
        if check(tokens, p, TokenType::EQUAL) {
            let (value, q) = Assignment::parse(tokens, p + 1)?;
            proof {
                lemma_kinds_one(tokens@, pos as int);
                if p == pos + 1 && tokens@[pos as int].token_type is IDENTIFIER {
                    assert(unparse(target) == seq![tokens@[pos as int].token_type]);
                    lemma_one_token_variable(target);
                }
            }
            match target {
                Expression::Literal(Literal::Variable(variable)) => {
                    proof {
                        lemma_kinds_split(tokens@, pos as int, p as int, q as int);
                        lemma_kinds_split(tokens@, p as int, p + 1, q as int);
                        lemma_kinds_one(tokens@, p as int);
                        assert(kinds(tokens@).subrange(pos as int, q as int) =~= seq![
                            TokenType::IDENTIFIER(variable),
                            TokenType::EQUAL,
                        ] + unparse(value));
                        assert(kinds(tokens@).subrange(pos as int, p as int) =~= seq![
                            TokenType::IDENTIFIER(variable),
                        ]);
                    }
                    Ok((Expression::Assignment(Assignment { variable, value: Box::new(value) }), q))
                },
                _ => Err(error_at(tokens, p, "Invalid assignment target.", q)),
            }
        } else {
            Ok((target, p))
        }
    }
}

impl Logical {
    fn parse(tokens: &Vec<Token>, pos: usize) -> (r: Result<(Expression, usize), ParseError>)
        requires
            pos <= tokens@.len(),
        ensures
            parsed_as(tokens@, pos as int, r, or_o(tokens@, pos as int), 1),
        decreases tokens@.len() - pos, 8int, 0int,
    {
        let (mut expr, mut p) = Self::parse_logical_and(tokens, pos)?;
        while check(tokens, p, TokenType::OR)
            invariant
                pos < p <= tokens@.len(),
                unparse(expr) == kinds(tokens@).subrange(pos as int, p as int),
                canon(expr),
                prec(expr) >= 1,
                or_o(tokens@, pos as int) == or_rest(tokens@, p as int),
            decreases tokens@.len() - p,
        {
            let (right, q) = match Self::parse_logical_and(tokens, p + 1) {
                Ok(x) => x,
                Err(e) => {
                    return Err(e);
                },
            };
            proof {
                lemma_kinds_split(tokens@, pos as int, p as int, q as int);
                lemma_kinds_split(tokens@, p as int, p + 1, q as int);
                lemma_kinds_one(tokens@, p as int);
            }
            expr = Expression::Logical(
                Logical { op: LogicalOp::Or, left: Box::new(expr), right: Box::new(right) },
            );
            p = q;
        }
        Ok((expr, p))
    }

    fn parse_logical_and(tokens: &Vec<Token>, pos: usize) -> (r: Result<
        (Expression, usize),
        ParseError,
    >)
        requires
            pos <= tokens@.len(),
        ensures
            parsed_as(tokens@, pos as int, r, and_o(tokens@, pos as int), 2),
        decreases tokens@.len() - pos, 7int, 0int,
    {
        let (mut expr, mut p) = Binary::parse(tokens, pos, 0)?;
        while check(tokens, p, TokenType::AND)
            invariant
                pos < p <= tokens@.len(),
                unparse(expr) == kinds(tokens@).subrange(pos as int, p as int),
                canon(expr),
                prec(expr) >= 2,
                and_o(tokens@, pos as int) == and_rest(tokens@, p as int),
            decreases tokens@.len() - p,
        {
            let (right, q) = match Binary::parse(tokens, p + 1, 0) {
                Ok(x) => x,
                Err(e) => {
                    return Err(e);
                },
            };
            proof {
                lemma_kinds_split(tokens@, pos as int, p as int, q as int);
                lemma_kinds_split(tokens@, p as int, p + 1, q as int);
                lemma_kinds_one(tokens@, p as int);
            }
            expr = Expression::Logical(
                Logical { op: LogicalOp::And, left: Box::new(expr), right: Box::new(right) },
            );
            p = q;
        }
        Ok((expr, p))
    }
}

impl Binary {
    /// Parses an operand of the operators of precedence `level`.
    fn operand(tokens: &Vec<Token>, pos: usize, level: u8) -> (r: Result<
        (Expression, usize),
        ParseError,
    >)
        requires
            pos <= tokens@.len(),
            level <= 3,
        ensures
            parsed_as(tokens@, pos as int, r, operand_o(tokens@, pos as int, level as int), 4 + level),
        decreases tokens@.len() - pos, 5 - level, 1int,
    {
        if level < 3 {
            Binary::parse(tokens, pos, level + 1)
        } else {
            Unary::parse(tokens, pos)
        }
    }

    /// Parses a left-associative chain of the operators of precedence `level`
    /// (0 to 3), whose operands are of the next level up.
    fn parse(tokens: &Vec<Token>, pos: usize, level: u8) -> (r: Result<
        (Expression, usize),
        ParseError,
    >)
        requires
            pos <= tokens@.len(),
            level <= 3,
        ensures
            parsed_as(tokens@, pos as int, r, binary_o(tokens@, pos as int, level as int), 3 + level),
        decreases tokens@.len() - pos, 5 - level, 2int,
    {
        let (mut expr, mut p) = Binary::operand(tokens, pos, level)?;
        loop
            invariant
                pos < p <= tokens@.len(),
                level <= 3,
                unparse(expr) == kinds(tokens@).subrange(pos as int, p as int),
                canon(expr),
                prec(expr) >= 3 + level,
                binary_o(tokens@, pos as int, level as int) == binary_rest(tokens@, p as int, level as int),
            ensures
                pos < p <= tokens@.len(),
                unparse(expr) == kinds(tokens@).subrange(pos as int, p as int),
                canon(expr),
                prec(expr) >= 3 + level,
                binary_o(tokens@, pos as int, level as int) == Ok::<int, (Seq<char>, int)>(p as int),
            decreases tokens@.len() - p,
        {
            let op = match level_operator(tokens, p, level) {
                Some(op) => op,
                None => break,
            };
            let (right, q) = match Binary::operand(tokens, p + 1, level) {
                Ok(x) => x,
                Err(e) => {
                    return Err(e);
                },
            };
            proof {
                lemma_kinds_split(tokens@, pos as int, p as int, q as int);
                lemma_kinds_split(tokens@, p as int, p + 1, q as int);
                lemma_kinds_one(tokens@, p as int);
            }
            expr = Expression::Binary(Binary { op, left: Box::new(expr), right: Box::new(right) });
            p = q;
        }
        Ok((expr, p))
    }
}

impl Unary {
    fn parse(tokens: &Vec<Token>, pos: usize) -> (r: Result<(Expression, usize), ParseError>)
        requires
            pos <= tokens@.len(),
        ensures
            parsed_as(tokens@, pos as int, r, unary_o(tokens@, pos as int), 7),
        decreases tokens@.len() - pos, 0int, 2int,
    {
        let op = if check(tokens, pos, TokenType::BANG) {
            UnaryOp::Not
        } else if check(tokens, pos, TokenType::HYPHEN) {
            UnaryOp::Minus
        } else {
            return Call::parse(tokens, pos);
        };
        let (expression, p) = Unary::parse(tokens, pos + 1)?;
        proof {
            lemma_kinds_split(tokens@, pos as int, pos + 1, p as int);
            lemma_kinds_one(tokens@, pos as int);
        }
        Ok((Expression::Unary(Unary { op, expression: Box::new(expression) }), p))
    }
}

impl Call {
    fn parse(tokens: &Vec<Token>, pos: usize) -> (r: Result<(Expression, usize), ParseError>)
        requires
            pos <= tokens@.len(),
        ensures
            parsed_as(tokens@, pos as int, r, call_o(tokens@, pos as int), 8),
        decreases tokens@.len() - pos, 0int, 1int,
    {
        let (mut expr, mut p) = Literal::parse(tokens, pos)?;
        while check(tokens, p, TokenType::LEFT_PAREN)
            invariant
                pos < p <= tokens@.len(),
                unparse(expr) == kinds(tokens@).subrange(pos as int, p as int),
                canon(expr),
                prec(expr) >= 8,
                call_o(tokens@, pos as int) == call_rest(tokens@, p as int),
            decreases tokens@.len() - p,
        {
            let ghost callee = expr;
            let (call, q) = match Self::finish(tokens, p + 1, expr) {
                Ok(x) => x,
                Err(e) => {
                    return Err(e);
                },
            };
            proof {
                lemma_kinds_split(tokens@, pos as int, p as int, q as int);
                lemma_kinds_split(tokens@, p as int, p + 1, q as int);
                lemma_kinds_one(tokens@, p as int);
            }
            expr = call;
            p = q;
        }
        Ok((expr, p))
    }

    /// Parses the arguments and the closing parenthesis of a call of `expr`,
    /// starting after the opening parenthesis.
    #[verifier::rlimit(100)]
    fn finish(tokens: &Vec<Token>, pos: usize, expr: Expression) -> (r: Result<
        (Expression, usize),
        ParseError,
    >)
        requires
            pos <= tokens@.len(),
        ensures
            outcome_of(r) == finish_o(tokens@, pos as int),
            match r {
                Ok((e, p)) => {
                    &&& pos < p <= tokens@.len()
                    &&& unparse(e) == unparse(expr) + seq![TokenType::LEFT_PAREN] + kinds(
                        tokens@,
                    ).subrange(pos as int, p as int)
                    &&& e is Call
                    &&& *e->Call_0.callee == expr
                    &&& canon_list(e->Call_0.arguments@)
                },
                Err(err) => failed_at(tokens@, pos as int, err),
            },
        decreases tokens@.len() - pos, 11int, 0int,
    {
        let mut arguments: Vec<Expression> = Vec::new();
        let mut p = pos;
        if !check(tokens, p, TokenType::RIGHT_PAREN) {
            let (first, q) = Expression::parse(tokens, p)?;
            arguments.push(first);
            p = q;
            let ghost after_first = q as int;
            proof {
                assert(arguments@ =~= seq![first]);
                assert(arguments@.subrange(0, 0) =~= Seq::<Expression>::empty());
                assert(canon_list(Seq::<Expression>::empty()));
                assert(arguments@[0] == first);
                assert(canon_list(arguments@));
            }
            while check(tokens, p, TokenType::COMMA)
                invariant
                    pos < p <= tokens@.len(),
                    arguments@.len() > 0,
                    unparse_list(arguments@) == kinds(tokens@).subrange(pos as int, p as int),
                    canon_list(arguments@),
                    pos < after_first <= tokens@.len(),
                    finish_o(tokens@, pos as int) == match args_rest(tokens@, p as int) {
                        Err(e) => Err(e),
                        Ok(q) => expect(tokens@, q, TokenType::RIGHT_PAREN, "Expect ) after function arguments"@),
                    },
                decreases tokens@.len() - p,
            {
                let (next, q) = match Expression::parse(tokens, p + 1) {
                    Ok(x) => x,
                    Err(e) => {
                        return Err(e);
                    },
                };
                let ghost before = arguments@;
                arguments.push(next);
                proof {
                    assert(arguments@.subrange(0, arguments@.len() - 1) =~= before);
                    lemma_kinds_split(tokens@, pos as int, p as int, q as int);
                    lemma_kinds_split(tokens@, p as int, p + 1, q as int);
                    lemma_kinds_one(tokens@, p as int);
                }
                p = q;
            }
        }
        proof {
            reveal_strlit("Expect ) after function arguments");
        }
        let q = consume(tokens, p, TokenType::RIGHT_PAREN, "Expect ) after function arguments")?;
        proof {
            lemma_kinds_split(tokens@, pos as int, p as int, q as int);
            lemma_kinds_one(tokens@, p as int);
            if p == pos {
                assert(arguments@.len() == 0);
                assert(kinds(tokens@).subrange(pos as int, p as int) =~= Seq::<TokenType>::empty());
            }
            assert(kinds(tokens@).subrange(pos as int, q as int) =~= unparse_list(arguments@) + seq![
                TokenType::RIGHT_PAREN,
            ]);
        }
        let ghost callee = expr;
        let call = Expression::Call(Call { callee: Box::new(expr), arguments });
        proof {
            assert(unparse(call) =~= unparse(callee) + seq![TokenType::LEFT_PAREN] + kinds(
                tokens@,
            ).subrange(pos as int, q as int));
        }
        Ok((call, q))
    }
}

impl Literal {
    /// Parses a constant, a variable or a parenthesized expression.
    fn parse(tokens: &Vec<Token>, pos: usize) -> (r: Result<(Expression, usize), ParseError>)
        requires
            pos <= tokens@.len(),
        ensures
            parsed_as(tokens@, pos as int, r, primary_o(tokens@, pos as int), 8),
        decreases tokens@.len() - pos, 0int, 0int,
    {
        if pos >= tokens.len() {
            return Err(error_at(tokens, pos, "Expect expression,", pos));
        }
        proof {
            lemma_kinds_one(tokens@, pos as int);
        }
        let primary = match &tokens[pos].token_type {
            TokenType::IDENTIFIER(name) => {
                return Ok((Expression::Literal(Literal::Variable(name.clone())), pos + 1));
            },
            TokenType::NUMBER(text) => Primary::Number(text.clone()),
            TokenType::STRING(value) => Primary::String(value.clone()),
            TokenType::TRUE => Primary::Boolean(true),
            TokenType::FALSE => Primary::Boolean(false),
            TokenType::NIL => Primary::Nil,
            TokenType::LEFT_PAREN => {
                let (inner, p) = Expression::parse(tokens, pos + 1)?;
                let q = consume(tokens, p, TokenType::RIGHT_PAREN, "Expect ) after expression")?;
                proof {
                    lemma_kinds_split(tokens@, pos as int, pos + 1, p as int);
                    lemma_kinds_split(tokens@, pos as int, p as int, q as int);
                    lemma_kinds_one(tokens@, p as int);
                }
                return Ok((Expression::Grouping(Box::new(inner)), q));
            },
            _ => {
                return Err(error_at(tokens, pos, "Unexpected character", pos + 1));
            },
        };
        Ok((Expression::Literal(Literal::Primary(primary)), pos + 1))
    }
}

/// The token at `pos` is of kind `k`.
pub open spec fn is_at(tokens: Seq<Token>, pos: int, k: TokenType) -> bool {
    0 <= pos < tokens.len() && tokens[pos].token_type == k
}

/// The token at `pos` is an operator of precedence `level`: equality (0),
/// comparison (1), addition (2) or multiplication (3).
pub open spec fn level_has(tokens: Seq<Token>, pos: int, level: int) -> bool {
    0 <= pos < tokens.len() && {
        let t = tokens[pos].token_type;
        if level == 0 {
            t is EQUAL_EQUAL || t is BANG_EQUAL
        } else if level == 1 {
            t is GREATER || t is GREATER_EQUAL || t is LESS || t is LESS_EQUAL
        } else if level == 2 {
            t is PLUS || t is HYPHEN
        } else {
            t is SLASH || t is ASTERICS
        }
    }
}

/// The precedence level of a binary operator, 0 (equality) to 3 (multiplication).
pub open spec fn op_level(op: BinaryOp) -> int {
    match op {
        BinaryOp::EqualEqual | BinaryOp::NotEqual => 0,
        BinaryOp::Less | BinaryOp::LessEqual | BinaryOp::Greater | BinaryOp::GreaterEqual => 1,
        BinaryOp::Plus | BinaryOp::Minus => 2,
        _ => 3,
    }
}

/// How tightly an expression binds: assignment 0, `or` 1, `and` 2, the binary
/// levels 3 to 6, unary 7, calls and primaries 8.
pub open spec fn prec(e: Expression) -> int {
    match e {
        Expression::Assignment(_) => 0,
        Expression::Logical(l) => if l.op == LogicalOp::Or {
            1
        } else {
            2
        },
        Expression::Binary(b) => 3 + op_level(b.op),
        Expression::Unary(_) => 7,
        _ => 8,
    }
}

/// The tree is the grammar's reading of its tokens: every operand binds at least
/// as tightly as its operator requires (left operands of left-associative
/// operators at the same level, right operands strictly tighter).
pub open spec fn canon(e: Expression) -> bool
    decreases e,
{
    match e {
        Expression::Literal(_) => true,
        Expression::Grouping(inner) => canon(*inner),
        Expression::Unary(u) => prec(*u.expression) >= 7 && canon(*u.expression),
        Expression::Binary(b) => prec(*b.left) >= prec(e) && prec(*b.right) > prec(e) && canon(*b.left)
            && canon(*b.right),
        Expression::Logical(l) => prec(*l.left) >= prec(e) && prec(*l.right) > prec(e) && canon(
            *l.left,
        ) && canon(*l.right),
        Expression::Assignment(a) => canon(*a.value),
        Expression::Call(c) => prec(*c.callee) >= 8 && canon(*c.callee) && canon_list(c.arguments@),
    }
}

/// Every argument is read as the grammar reads it.
pub open spec fn canon_list(args: Seq<Expression>) -> bool
    decreases args,
{
    if args.len() == 0 {
        true
    } else {
        canon_list(args.subrange(0, args.len() - 1)) && canon(args[args.len() - 1])
    }
}

/// What parsing an expression from `pos` gives.
pub open spec fn expr_o(t: Seq<Token>, pos: int) -> Outcome
    decreases t.len() - pos, 10int, 0int,
{
    assign_o(t, pos)
}

/// `IDENT = assignment`, or `or`.
pub open spec fn assign_o(t: Seq<Token>, pos: int) -> Outcome
    decreases t.len() - pos, 9int, 0int,
{
    match or_o(t, pos) {
        Err(e) => Err(e),
        Ok(p) => if pos <= p && is_at(t, p, TokenType::EQUAL) {
            match assign_o(t, p + 1) {
                Err(e) => Err(e),
                Ok(q) => if p == pos + 1 && t[pos].token_type is IDENTIFIER {
                    Ok(q)
                } else {
                    Err((message_at(t, p, "Invalid assignment target."@), q))
                },
            }
        } else {
            Ok(p)
        },
    }
}

/// `and ( or and )*`
pub open spec fn or_o(t: Seq<Token>, pos: int) -> Outcome
    decreases t.len() - pos, 8int, 0int,
{
    match and_o(t, pos) {
        Err(e) => Err(e),
        Ok(p) => if pos < p <= t.len() {
            or_rest(t, p)
        } else {
            Ok(p)
        },
    }
}

/// The rest of an `or` chain from `p`.
pub open spec fn or_rest(t: Seq<Token>, p: int) -> Outcome
    decreases t.len() - p, 8int, 0int,
{
    if is_at(t, p, TokenType::OR) {
        match and_o(t, p + 1) {
            Err(e) => Err(e),
            Ok(q) => if p < q <= t.len() {
                or_rest(t, q)
            } else {
                Ok(q)
            },
        }
    } else {
        Ok(p)
    }
}

/// `equality ( and equality )*`
pub open spec fn and_o(t: Seq<Token>, pos: int) -> Outcome
    decreases t.len() - pos, 7int, 0int,
{
    match binary_o(t, pos, 0) {
        Err(e) => Err(e),
        Ok(p) => if pos < p <= t.len() {
            and_rest(t, p)
        } else {
            Ok(p)
        },
    }
}

/// The rest of an `and` chain from `p`.
pub open spec fn and_rest(t: Seq<Token>, p: int) -> Outcome
    decreases t.len() - p, 7int, 0int,
{
    if is_at(t, p, TokenType::AND) {
        match binary_o(t, p + 1, 0) {
            Err(e) => Err(e),
            Ok(q) => if p < q <= t.len() {
                and_rest(t, q)
            } else {
                Ok(q)
            },
        }
    } else {
        Ok(p)
    }
}

/// An operand of the operators of `level`.
pub open spec fn operand_o(t: Seq<Token>, pos: int, level: int) -> Outcome
    decreases t.len() - pos, 5 - level, 1int,
{
    if 0 <= level < 3 {
        binary_o(t, pos, level + 1)
    } else if level == 3 {
        unary_o(t, pos)
    } else {
        Ok(pos)
    }
}

/// A left-associative chain of the operators of `level`.
pub open spec fn binary_o(t: Seq<Token>, pos: int, level: int) -> Outcome
    decreases t.len() - pos, 5 - level, 2int,
{
    if !(0 <= level <= 3) {
        Ok(pos)
    } else {
        match operand_o(t, pos, level) {
            Err(e) => Err(e),
            Ok(p) => if pos < p <= t.len() {
                binary_rest(t, p, level)
            } else {
                Ok(p)
            },
        }
    }
}

/// The rest of a chain of the operators of `level` from `p`.
pub open spec fn binary_rest(t: Seq<Token>, p: int, level: int) -> Outcome
    decreases t.len() - p, 5 - level, 2int,
{
    if 0 <= level <= 3 && level_has(t, p, level) {
        match operand_o(t, p + 1, level) {
            Err(e) => Err(e),
            Ok(q) => if p < q <= t.len() {
                binary_rest(t, q, level)
            } else {
                Ok(q)
            },
        }
    } else {
        Ok(p)
    }
}

/// `( ! | - ) unary`, or a call.
pub open spec fn unary_o(t: Seq<Token>, pos: int) -> Outcome
    decreases t.len() - pos, 0int, 2int,
{
    if is_at(t, pos, TokenType::BANG) || is_at(t, pos, TokenType::HYPHEN) {
        unary_o(t, pos + 1)
    } else {
        call_o(t, pos)
    }
}

/// `primary ( ( args? ) )*`
pub open spec fn call_o(t: Seq<Token>, pos: int) -> Outcome
    decreases t.len() - pos, 0int, 1int,
{
    match primary_o(t, pos) {
        Err(e) => Err(e),
        Ok(p) => if pos < p <= t.len() {
            call_rest(t, p)
        } else {
            Ok(p)
        },
    }
}

/// The rest of a chain of calls from `p`.
pub open spec fn call_rest(t: Seq<Token>, p: int) -> Outcome
    decreases t.len() - p, 0int, 1int,
{
    if is_at(t, p, TokenType::LEFT_PAREN) {
        match finish_o(t, p + 1) {
            Err(e) => Err(e),
            Ok(q) => if p < q <= t.len() {
                call_rest(t, q)
            } else {
                Ok(q)
            },
        }
    } else {
        Ok(p)
    }
}

/// The arguments and the closing parenthesis of a call, from after `(`.
pub open spec fn finish_o(t: Seq<Token>, pos: int) -> Outcome
    decreases t.len() - pos, 11int, 0int,
{
    if is_at(t, pos, TokenType::RIGHT_PAREN) {
        expect(t, pos, TokenType::RIGHT_PAREN, "Expect ) after function arguments"@)
    } else {
        match expr_o(t, pos) {
            Err(e) => Err(e),
            Ok(p) => if pos < p <= t.len() {
                match args_rest(t, p) {
                    Err(e) => Err(e),
                    Ok(q) => expect(t, q, TokenType::RIGHT_PAREN, "Expect ) after function arguments"@),
                }
            } else {
                Ok(p)
            },
        }
    }
}

/// The rest of an argument list from `p`.
pub open spec fn args_rest(t: Seq<Token>, p: int) -> Outcome
    decreases t.len() - p, 11int, 0int,
{
    if is_at(t, p, TokenType::COMMA) {
        match expr_o(t, p + 1) {
            Err(e) => Err(e),
            Ok(q) => if p < q <= t.len() {
                args_rest(t, q)
            } else {
                Ok(q)
            },
        }
    } else {
        Ok(p)
    }
}

/// A constant, a variable or a parenthesized expression.
pub open spec fn primary_o(t: Seq<Token>, pos: int) -> Outcome
    decreases t.len() - pos, 0int, 0int,
{
    if pos < 0 || pos >= t.len() {
        Err((message_at(t, pos, "Expect expression,"@), pos))
    } else {
        match t[pos].token_type {
            TokenType::IDENTIFIER(_) | TokenType::NUMBER(_) | TokenType::STRING(_) | TokenType::TRUE
            | TokenType::FALSE | TokenType::NIL => Ok(pos + 1),
            TokenType::LEFT_PAREN => match expr_o(t, pos + 1) {
                Err(e) => Err(e),
                Ok(p) => expect(t, p, TokenType::RIGHT_PAREN, "Expect ) after expression"@),
            },
            _ => Err((message_at(t, pos, "Unexpected character"@), pos + 1)),
        }
    }
}

/// A parsed expression is the grammar's reading: the outcome is that of the
/// grammar, and the tree binds as the precedence levels say.
pub open spec fn parsed_as(
    tokens: Seq<Token>,
    pos: int,
    r: Result<(Expression, usize), ParseError>,
    o: Outcome,
    least: int,
) -> bool {
    &&& parsed(tokens, pos, r)
    &&& outcome_of(r) == o
    &&& r matches Ok((e, _)) ==> canon(e) && prec(e) >= least
}

/// Reading an identifier at `pos`.
pub open spec fn ident_o(t: Seq<Token>, pos: int) -> Outcome {
    if 0 <= pos < t.len() && t[pos].token_type is IDENTIFIER {
        Ok(pos + 1)
    } else if 0 <= pos < t.len() {
        Err((message_at(t, pos, "Expected IDENTIFIER"@), pos + 1))
    } else {
        Err((message_at(t, pos, "Expected IDENTIFIER"@), pos))
    }
}

/// An expression followed by `;`, from `pos`.
pub open spec fn terminated_o(t: Seq<Token>, pos: int, message: Seq<char>) -> Outcome {
    match expr_o(t, pos) {
        Err(e) => Err(e),
        Ok(p) => expect(t, p, TokenType::SEMICOLON, message),
    }
}

/// What parsing a statement from `pos` gives.
#[verifier::opaque]
pub open spec fn stmt_o(t: Seq<Token>, pos: int) -> Outcome
    decreases t.len() - pos, 20int, 0int,
{
    if is_at(t, pos, TokenType::VAR) {
        decl_o(t, pos)
    } else if is_at(t, pos, TokenType::FUN) {
        fun_o(t, pos)
    } else if is_at(t, pos, TokenType::PRINT) {
        terminated_o(t, pos + 1, "Expect ';' after print statement"@)
    } else if is_at(t, pos, TokenType::LEFT_BRACE) {
        block_o(t, pos)
    } else if is_at(t, pos, TokenType::IF) {
        if_o(t, pos)
    } else if is_at(t, pos, TokenType::WHILE) {
        while_o(t, pos)
    } else if is_at(t, pos, TokenType::FOR) {
        for_o(t, pos)
    } else if is_at(t, pos, TokenType::RETURN) {
        terminated_o(t, pos + 1, "Expect ';' after return statement"@)
    } else {
        terminated_o(t, pos, "Expect ';' after statement"@)
    }
}

/// `var IDENT ( = expression )? ;` from the `var` at `pos`.
#[verifier::opaque]
pub open spec fn decl_o(t: Seq<Token>, pos: int) -> Outcome {
    match ident_o(t, pos + 1) {
        Err(e) => Err(e),
        Ok(p) => if is_at(t, p, TokenType::EQUAL) {
            terminated_o(t, p + 1, "Expect ';' after variable declaration"@)
        } else {
            expect(t, p, TokenType::SEMICOLON, "Expect ';' after variable declaration"@)
        },
    }
}

/// A parameter list up to, not including, `)`.
pub open spec fn params_o(t: Seq<Token>, pos: int) -> Outcome {
    if is_at(t, pos, TokenType::RIGHT_PAREN) {
        Ok(pos)
    } else {
        match ident_o(t, pos) {
            Err(e) => Err(e),
            Ok(q) => params_rest(t, q),
        }
    }
}

/// The rest of a parameter list from `p`.
pub open spec fn params_rest(t: Seq<Token>, p: int) -> Outcome
    decreases t.len() - p,
{
    if is_at(t, p, TokenType::COMMA) {
        match ident_o(t, p + 1) {
            Err(e) => Err(e),
            Ok(q) => if p < q <= t.len() {
                params_rest(t, q)
            } else {
                Ok(q)
            },
        }
    } else {
        Ok(p)
    }
}

/// `fun IDENT ( params ) block` from the `fun` at `pos`.
#[verifier::opaque]
pub open spec fn fun_o(t: Seq<Token>, pos: int) -> Outcome
    decreases t.len() - pos, 19int, 0int,
{
    match ident_o(t, pos + 1) {
        Err(e) => Err(e),
        Ok(p) => match expect(t, p, TokenType::LEFT_PAREN, "Expect '(' after function name"@) {
            Err(e) => Err(e),
            Ok(p1) => match params_o(t, p1) {
                Err(e) => Err(e),
                Ok(p2) => match expect(t, p2, TokenType::RIGHT_PAREN, "Expect ')' after function params"@) {
                    Err(e) => Err(e),
                    Ok(p3) => if !is_at(t, p3, TokenType::LEFT_BRACE) {
                        Err((message_at(t, p3, "Expect '{' after function params"@), p3))
                    } else if pos < p3 {
                        block_o(t, p3)
                    } else {
                        Ok(p3)
                    },
                },
            },
        },
    }
}

/// `{ statement* }` from the `{` at `pos`.
#[verifier::opaque]
pub open spec fn block_o(t: Seq<Token>, pos: int) -> Outcome
    decreases t.len() - pos, 19int, 0int,
{
    if 0 <= pos < t.len() {
        block_rest(t, pos + 1)
    } else {
        Ok(pos)
    }
}

/// The rest of a block from `p`.
#[verifier::opaque]
pub open spec fn block_rest(t: Seq<Token>, p: int) -> Outcome
    decreases t.len() - p, 21int, 0int,
{
    if 0 <= p < t.len() && !is_at(t, p, TokenType::RIGHT_BRACE) {
        match stmt_o(t, p) {
            Err(e) => Err(e),
            Ok(q) => if p < q <= t.len() {
                block_rest(t, q)
            } else {
                Ok(q)
            },
        }
    } else {
        expect(t, p, TokenType::RIGHT_BRACE, "Expect } after block"@)
    }
}

/// `if ( expression ) statement ( else statement )?` from the `if` at `pos`.
#[verifier::opaque]
pub open spec fn if_o(t: Seq<Token>, pos: int) -> Outcome
    decreases t.len() - pos, 19int, 0int,
{
    match expect(t, pos + 1, TokenType::LEFT_PAREN, "Expect '(' after if"@) {
        Err(e) => Err(e),
        Ok(p1) => match expr_o(t, p1) {
            Err(e) => Err(e),
            Ok(p2) => match expect(t, p2, TokenType::RIGHT_PAREN, "Expect ')' after condition"@) {
                Err(e) => Err(e),
                Ok(p3) => if pos < p3 <= t.len() {
                    match stmt_o(t, p3) {
                        Err(e) => Err(e),
                        Ok(p4) => if pos <= p4 && is_at(t, p4, TokenType::ELSE) {
                            stmt_o(t, p4 + 1)
                        } else {
                            Ok(p4)
                        },
                    }
                } else {
                    Ok(p3)
                },
            },
        },
    }
}

/// `while ( expression ) statement` from the `while` at `pos`.
#[verifier::opaque]
pub open spec fn while_o(t: Seq<Token>, pos: int) -> Outcome
    decreases t.len() - pos, 19int, 0int,
{
    match expect(t, pos + 1, TokenType::LEFT_PAREN, "Expect '(' after 'while'"@) {
        Err(e) => Err(e),
        Ok(p1) => match expr_o(t, p1) {
            Err(e) => Err(e),
            Ok(p2) => match expect(t, p2, TokenType::RIGHT_PAREN, "Expect ')' after condition"@) {
                Err(e) => Err(e),
                Ok(p3) => if pos < p3 <= t.len() {
                    stmt_o(t, p3)
                } else {
                    Ok(p3)
                },
            },
        },
    }
}

/// The initializer clause of a `for` loop, from `p1`.
pub open spec fn init_o(t: Seq<Token>, p1: int) -> Outcome
    decreases t.len() - p1, 19int, 1int,
{
    if is_at(t, p1, TokenType::SEMICOLON) {
        Ok(p1 + 1)
    } else if is_at(t, p1, TokenType::VAR) {
        decl_o(t, p1)
    } else {
        terminated_o(t, p1, "Expect ';' after statement"@)
    }
}

/// `for ( init cond? ; inc? ) statement` from the `for` at `pos`.
#[verifier::opaque]
pub open spec fn for_o(t: Seq<Token>, pos: int) -> Outcome
    decreases t.len() - pos, 19int, 0int,
{
    match expect(t, pos + 1, TokenType::LEFT_PAREN, "Expect '(' after 'for'"@) {
        Err(e) => Err(e),
        Ok(p1) => {
            let init = if pos < p1 {
                init_o(t, p1)
            } else {
                Ok(p1)
            };
            match init {
                Err(e) => Err(e),
                Ok(p2) => {
                    let cond = if is_at(t, p2, TokenType::SEMICOLON) {
                        Ok(p2)
                    } else {
                        expr_o(t, p2)
                    };
                    match cond {
                        Err(e) => Err(e),
                        Ok(p3) => match expect(t, p3, TokenType::SEMICOLON, "Expect ';' after condition"@) {
                            Err(e) => Err(e),
                            Ok(p4) => {
                                let inc = if !is_at(t, p4, TokenType::RIGHT_PAREN) {
                                    expr_o(t, p4)
                                } else {
                                    Ok(p4)
                                };
                                match inc {
                                    Err(e) => Err(e),
                                    Ok(p5) => match expect(t, p5, TokenType::RIGHT_PAREN, "Expect ')' after for clauses"@) {
                                        Err(e) => Err(e),
                                        Ok(p6) => if pos < p6 <= t.len() {
                                            stmt_o(t, p6)
                                        } else {
                                            Ok(p6)
                                        },
                                    },
                                }
                            },
                        },
                    }
                },
            }
        },
    }
}

/// Where parsing goes on after a failure at `p`: just after the next `;`, or at
/// the next token that begins a statement, or at the end.
pub open spec fn sync(t: Seq<Token>, p: int) -> int
    decreases t.len() - p,
{
    if p < 0 || p >= t.len() || is_statement_start(t[p].token_type) {
        p
    } else if t[p].token_type is SEMICOLON {
        p + 1
    } else {
        sync(t, p + 1)
    }
}

/// Parsing a program from `pos`: how many statements were read, and the
/// diagnostic of each failed statement, in order.
pub open spec fn program_o(t: Seq<Token>, pos: int) -> (nat, Seq<Seq<char>>)
    decreases t.len() - pos,
{
    if pos < 0 || pos >= t.len() {
        (0, Seq::empty())
    } else {
        match stmt_o(t, pos) {
            Ok(q) => if pos < q <= t.len() {
                let rest = program_o(t, q);
                (rest.0 + 1, rest.1)
            } else {
                (0, Seq::empty())
            },
            Err((m, e)) => {
                let n = sync(t, e);
                if pos < n <= t.len() {
                    let rest = program_o(t, n);
                    (rest.0, seq![m] + rest.1)
                } else {
                    (0, seq![m])
                }
            },
        }
    }
}

/// Names split points of a token sequence, so that a proof can point at them.
pub open spec fn cut(a: int, b: int) -> bool {
    true
}

/// The tokens of a parameter list: names separated by commas.
pub open spec fn params_text(params: Seq<String>) -> Seq<TokenType>
    decreases params.len(),
{
    if params.len() == 0 {
        Seq::empty()
    } else if params.len() == 1 {
        seq![TokenType::IDENTIFIER(params[0])]
    } else {
        params_text(params.drop_last()) + seq![TokenType::COMMA, TokenType::IDENTIFIER(params.last())]
    }
}

/// `t` writes statement `s`: the statement parser reads `s` from exactly `t`.
/// A `for` loop is read into the block or `while` loop that it stands for, so
/// those have a second way to be written.
#[verifier::opaque]
pub open spec fn written(s: Statement, t: Seq<TokenType>) -> bool
    decreases s, 2int,
{
    match s {
        Statement::Expression(e) => t == unparse(e) + seq![TokenType::SEMICOLON],
        Statement::Print(e) => t == seq![TokenType::PRINT] + unparse(e) + seq![TokenType::SEMICOLON],
        Statement::Return(e) => t == seq![TokenType::RETURN] + unparse(e) + seq![
            TokenType::SEMICOLON,
        ],
        Statement::Declaration(d) => t == seq![TokenType::VAR, TokenType::IDENTIFIER(d.name)] + match d.value {
            Some(e) => seq![TokenType::EQUAL] + unparse(e),
            None => Seq::empty(),
        } + seq![TokenType::SEMICOLON],
        Statement::Function(f) => {
            let head = seq![TokenType::FUN, TokenType::IDENTIFIER(f.name), TokenType::LEFT_PAREN]
                + params_text(f.params@) + seq![TokenType::RIGHT_PAREN];
            &&& head.len() <= t.len()
            &&& t.take(head.len() as int) == head
            &&& *f.body is Block
            &&& written(*f.body, t.skip(head.len() as int))
        },
        Statement::Block(b) => {
            ||| (t.len() >= 2 && t[0] == TokenType::LEFT_BRACE && t.last() == TokenType::RIGHT_BRACE
                && written_list(b, b.statements@.len() as int, t.subrange(1, t.len() - 1)))
            ||| for_written(s, t)
        },
        Statement::Conditional(c) => {
            let head = seq![TokenType::IF, TokenType::LEFT_PAREN] + unparse(c.cond) + seq![
                TokenType::RIGHT_PAREN,
            ];
            exists|k: int|
                #[trigger] cut(k, 0) && head.len() <= k <= t.len() && t.take(head.len() as int)
                    == head && written(*c.success, t.subrange(head.len() as int, k)) && match c.failure {
                    None => k == t.len(),
                    Some(other) => k < t.len() && t[k] == TokenType::ELSE && written(
                        *other,
                        t.skip(k + 1),
                    ),
                }
        },
        Statement::Iteration(w) => {
            let head = seq![TokenType::WHILE, TokenType::LEFT_PAREN] + unparse(w.cond) + seq![
                TokenType::RIGHT_PAREN,
            ];
            ||| (head.len() <= t.len() && t.take(head.len() as int) == head && written(
                *w.body,
                t.skip(head.len() as int),
            ))
            ||| for_written(s, t)
        },
    }
}

/// `t` writes the first `n` statements of block `b`, one after another.
pub open spec fn written_list(b: Block, n: int, t: Seq<TokenType>) -> bool
    decreases b, n,
{
    if n <= 0 || n > b.statements@.len() {
        n == 0 && t.len() == 0
    } else {
        exists|k: int|
            #[trigger] cut(k, n) && 0 <= k <= t.len() && written_list(b, n - 1, t.take(k)) && written(
                b.statements@[n - 1],
                t.skip(k),
            )
    }
}

/// `t` writes a `for` loop that reads as `s`.
pub open spec fn for_written(s: Statement, t: Seq<TokenType>) -> bool
    decreases s, 1int,
{
    &&& t.len() >= 3
    &&& t[0] == TokenType::FOR
    &&& t[1] == TokenType::LEFT_PAREN
    &&& if s is Block && s->Block_0.statements@.len() == 2 && s->Block_0.statements@[1] is Iteration {
        let first = s->Block_0.statements@[0];
        exists|k: int|
            #[trigger] cut(k, 1) && 2 < k <= t.len() && (first is Declaration || first is Expression)
                && written(first, t.subrange(2, k)) && loop_written(
                s->Block_0.statements@[1],
                t.skip(k),
            )
    } else {
        s is Block && s->Block_0.statements@.len() == 1 && t[2] == TokenType::SEMICOLON && loop_written(
            s->Block_0.statements@[0],
            t.skip(3),
        )
    }
}

/// `t` writes the part of a `for` loop after its initializer: the condition, the
/// increment and the body of the `while` loop `w` that the `for` loop reads as.
pub open spec fn loop_written(w: Statement, t: Seq<TokenType>) -> bool
    decreases w, 0int,
{
    match w {
        Statement::Iteration(l) => exists|k1: int, k2: int|
            #[trigger] cut(k1, k2) && 0 < k1 < k2 <= t.len() && (t.take(k1) == unparse(l.cond)
                + seq![TokenType::SEMICOLON] || (k1 == 1 && t[0] == TokenType::SEMICOLON && l.cond
                == Expression::Literal(Literal::Primary(Primary::Boolean(true))))) && ((t.subrange(
                k1,
                k2,
            ) == seq![TokenType::RIGHT_PAREN] && written(*l.body, t.skip(k2))) || (*l.body is Block
                && (*l.body)->Block_0.statements@.len() == 2 && (*l.body)->Block_0.statements@[1] is Expression
                && t.subrange(k1, k2) == unparse((*l.body)->Block_0.statements@[1]->Expression_0)
                + seq![TokenType::RIGHT_PAREN] && written(
                (*l.body)->Block_0.statements@[0],
                t.skip(k2),
            ))),
        _ => false,
    }
}

proof fn lemma_piece(tokens: Seq<Token>, a: int, b: int, c: int, d: int)
    requires
        0 <= a <= b <= c <= d <= tokens.len(),
    ensures
        kinds(tokens).subrange(a, d).subrange(b - a, c - a) == kinds(tokens).subrange(b, c),
        kinds(tokens).subrange(a, d).take(c - a) == kinds(tokens).subrange(a, c),
        kinds(tokens).subrange(a, d).skip(b - a) == kinds(tokens).subrange(b, d),
{
    assert(kinds(tokens).subrange(a, d).subrange(b - a, c - a) =~= kinds(tokens).subrange(b, c));
    assert(kinds(tokens).subrange(a, d).take(c - a) =~= kinds(tokens).subrange(a, c));
    assert(kinds(tokens).subrange(a, d).skip(b - a) =~= kinds(tokens).subrange(b, d));
}

/// `t` writes `stmts`, one after another.
pub open spec fn written_seq(stmts: Seq<Statement>, t: Seq<TokenType>) -> bool
    decreases stmts.len(),
{
    if stmts.len() == 0 {
        t.len() == 0
    } else {
        exists|k: int|
            #[trigger] cut(k, stmts.len() as int) && 0 <= k <= t.len() && written_seq(
                stmts.drop_last(),
                t.take(k),
            ) && written(stmts.last(), t.skip(k))
    }
}

proof fn lemma_written_list(b: Block, n: int, t: Seq<TokenType>)
    requires
        0 <= n <= b.statements@.len(),
        written_seq(b.statements@.take(n), t),
    ensures
        written_list(b, n, t),
    decreases n,
{
    reveal_with_fuel(written, 1);
    if n > 0 {
        let stmts = b.statements@.take(n);
        let k = choose|k: int|
            #[trigger] cut(k, stmts.len() as int) && 0 <= k <= t.len() && written_seq(
                stmts.drop_last(),
                t.take(k),
            ) && written(stmts.last(), t.skip(k));
        assert(stmts.drop_last() =~= b.statements@.take(n - 1));
        lemma_written_list(b, n - 1, t.take(k));
        assert(cut(k, n));
    } else {
        assert(t.len() == 0);
    }
}

/// What a statement parser promises.
pub open spec fn parsed_statement(
    tokens: Seq<Token>,
    pos: int,
    r: Result<(Statement, usize), ParseError>,
) -> bool {
    match r {
        Ok((s, p)) => pos < p <= tokens.len() && written(s, kinds(tokens).subrange(pos, p as int)),
        Err(err) => failed_at(tokens, pos, err),
    }
}

/// The block that a `for` statement stands for: the initializer, then a `while`
/// over the condition (`true` where it is left out) whose body runs the loop's
/// body and then the increment.
pub open spec fn is_for_loop(
    s: Statement,
    init: Option<Statement>,
    cond: Option<Expression>,
    inc: Option<Expression>,
    body: Statement,
) -> bool {
    let test = match cond {
        Some(c) => c,
        None => Expression::Literal(Literal::Primary(Primary::Boolean(true))),
    };
    let looped = |w: Statement|
        {
            &&& w is Iteration
            &&& w->Iteration_0.cond == test
            &&& match inc {
                Some(i) => {
                    &&& *w->Iteration_0.body is Block
                    &&& (*w->Iteration_0.body)->Block_0.statements@ == seq![
                        body,
                        Statement::Expression(i),
                    ]
                },
                None => *w->Iteration_0.body == body,
            }
        };
    match init {
        Some(first) => {
            &&& s is Block
            &&& s->Block_0.statements@.len() == 2
            &&& s->Block_0.statements@[0] == first
            &&& looped(s->Block_0.statements@[1])
        },
        None => {
            &&& s is Block
            &&& s->Block_0.statements@.len() == 1
            &&& looped(s->Block_0.statements@[0])
        },
    }
}

/// Statement `i` was read from the tokens `bounds[i]..bounds[i + 1]`.
pub open spec fn piece(tokens: Seq<Token>, statements: Seq<Statement>, bounds: Seq<int>, i: int) -> bool {
    &&& bounds[i] < bounds[i + 1]
    &&& written(statements[i], kinds(tokens).subrange(bounds[i], bounds[i + 1]))
}

/// The ranges `bounds[i]..bounds[i + 1]` cut all of `tokens` into consecutive
/// pieces, and statement `i` was read from piece `i`.
pub open spec fn productions(tokens: Seq<Token>, statements: Seq<Statement>, bounds: Seq<int>) -> bool {
    &&& bounds.len() == statements.len() + 1
    &&& bounds[0] == 0
    &&& bounds.last() == tokens.len()
    &&& forall|i: int| 0 <= i < statements.len() ==> #[trigger] piece(tokens, statements, bounds, i)
}

/// The statements read so far came from consecutive pieces of `tokens` that end
/// at `pos`.
pub open spec fn read_up_to(
    tokens: Seq<Token>,
    statements: Seq<Statement>,
    bounds: Seq<int>,
    pos: int,
) -> bool {
    &&& bounds.len() == statements.len() + 1
    &&& bounds[0] == 0
    &&& bounds.last() == pos
    &&& forall|i: int| 0 <= i < statements.len() ==> #[trigger] piece(tokens, statements, bounds, i)
}

/// `statements` were read, one after another, from all of `tokens`: there are as
/// many of them as consecutive pieces that each parse as a statement.
pub open spec fn read_whole(tokens: Seq<Token>, statements: Seq<Statement>) -> bool {
    exists|bounds: Seq<int>| #[trigger] productions(tokens, statements, bounds)
}

/// A token that begins a statement.
pub open spec fn is_statement_start(t: TokenType) -> bool {
    t is CLASS || t is FUN || t is VAR || t is FOR || t is IF || t is WHILE || t is PRINT
        || t is RETURN
}

/// Where parsing goes on after a failure: at the end, just after a `;`, or at a
/// token that begins a statement.
pub open spec fn resumes_at(tokens: Seq<Token>, r: int) -> bool {
    ||| r == tokens.len()
    ||| (0 < r <= tokens.len() && tokens[r - 1].token_type == TokenType::SEMICOLON)
    ||| (0 <= r < tokens.len() && is_statement_start(tokens[r].token_type))
}

/// How many of the attempts failed.
pub open spec fn failures(failed: Seq<bool>) -> nat
    decreases failed.len(),
{
    if failed.len() == 0 {
        0
    } else {
        failures(failed.drop_last()) + if failed.last() {
            1nat
        } else {
            0nat
        }
    }
}

/// Attempt `i` covers the tokens `bounds[i]..bounds[i + 1]`: it read statement
/// `stmts[i]` from them, or it failed and parsing went on where they end.
pub open spec fn attempt(
    tokens: Seq<Token>,
    bounds: Seq<int>,
    failed: Seq<bool>,
    stmts: Seq<Statement>,
    i: int,
) -> bool {
    &&& bounds[i] < bounds[i + 1]
    &&& if failed[i] {
        resumes_at(tokens, bounds[i + 1])
    } else {
        written(stmts[i], kinds(tokens).subrange(bounds[i], bounds[i + 1]))
    }
}

/// The tokens before `end` split into consecutive attempts.
pub open spec fn attempts(
    tokens: Seq<Token>,
    bounds: Seq<int>,
    failed: Seq<bool>,
    stmts: Seq<Statement>,
    end: int,
) -> bool {
    &&& bounds.len() == failed.len() + 1
    &&& stmts.len() == failed.len()
    &&& bounds[0] == 0
    &&& bounds.last() == end
    &&& forall|i: int| 0 <= i < failed.len() ==> #[trigger] attempt(tokens, bounds, failed, stmts, i)
}

/// A failure does not end parsing: all of `tokens` splits into consecutive
/// attempts, each of which read a statement or failed and was skipped up to where
/// parsing went on, and `errors` of them failed.
pub open spec fn recovered(tokens: Seq<Token>, errors: nat) -> bool {
    exists|bounds: Seq<int>, failed: Seq<bool>, stmts: Seq<Statement>|
        #[trigger] attempts(tokens, bounds, failed, stmts, tokens.len() as int) && failures(failed)
            == errors
}

/// The texts of a list of diagnostics.
pub open spec fn messages(errors: Seq<String>) -> Seq<Seq<char>> {
    errors.map_values(|e: String| e@)
}

/// A token that begins a statement, where recovery stops.
fn starts_statement(t: &TokenType) -> (r: bool)
    ensures
        r == is_statement_start(*t),
{
    matches!(
        t,
        TokenType::CLASS | TokenType::FUN | TokenType::VAR | TokenType::FOR | TokenType::IF
            | TokenType::WHILE | TokenType::PRINT | TokenType::RETURN
    )
}

/// Skips tokens after a failure, up to and including a `;`, or up to a token that
/// begins a statement.
fn synchronize(tokens: &Vec<Token>, pos: usize) -> (r: usize)
    requires
        pos <= tokens@.len(),
    ensures
        pos <= r <= tokens@.len(),
        resumes_at(tokens@, r as int),
        r == sync(tokens@, pos as int),
{
    let mut p = pos;
    while p < tokens.len() && !starts_statement(&tokens[p].token_type)
        invariant
            pos <= p <= tokens@.len(),
            sync(tokens@, pos as int) == sync(tokens@, p as int),
        decreases tokens@.len() - p,
    {
        if check(tokens, p, TokenType::SEMICOLON) {
            return p + 1;
        }
        p = p + 1;
    }
    p
}

impl Program {
    /// Parses every statement. Each failure is reported and parsing goes on after
    /// the next `;` or at the next statement keyword; the program is returned only
    /// if nothing failed.
    pub fn parse(tokens: &Vec<Token>) -> (r: Result<Program, Vec<String>>)
        ensures
            r is Ok ==> read_whole(tokens@, r->Ok_0.statements@),
            r is Err ==> r->Err_0@.len() > 0 && recovered(tokens@, r->Err_0@.len()),
            r is Ok <==> program_o(tokens@, 0).1.len() == 0,
            r matches Ok(p) ==> p.statements@.len() == program_o(tokens@, 0).0,
            r matches Err(errors) ==> messages(errors@) == program_o(tokens@, 0).1,
    {
        let mut statements: Vec<Statement> = Vec::new();
        let mut errors: Vec<String> = Vec::new();
        let mut pos: usize = 0;
        let ghost mut bounds: Seq<int> = seq![0];
        let ghost mut cuts: Seq<int> = seq![0];
        let ghost mut failed: Seq<bool> = Seq::empty();
        let ghost mut read: Seq<Statement> = Seq::empty();
        while pos < tokens.len()
            invariant
                pos <= tokens@.len(),
                attempts(tokens@, cuts, failed, read, pos as int),
                failures(failed) == errors@.len(),
                program_o(tokens@, 0).0 == statements@.len() + program_o(tokens@, pos as int).0,
                program_o(tokens@, 0).1 == messages(errors@) + program_o(tokens@, pos as int).1,
                errors@.len() == 0 ==> read_up_to(tokens@, statements@, bounds, pos as int),
            decreases tokens@.len() - pos,
        {
            match Statement::parse(tokens, pos) {
                Ok((statement, p)) => {
                    let ghost old_statements = statements@;
                    let ghost statement_g = statement;
                    let ghost old_bounds = bounds;
                    proof {
                        bounds = bounds.push(p as int);
                    }
                    statements.push(statement);
                    proof {
                        if errors@.len() == 0 {
                            assert forall|i: int| 0 <= i < statements@.len() implies #[trigger] piece(
                                tokens@,
                                statements@,
                                bounds,
                                i,
                            ) by {
                                if i < old_statements.len() {
                                    assert(statements@[i] == old_statements[i]);
                                    assert(bounds[i] == old_bounds[i]);
                                    assert(bounds[i + 1] == old_bounds[i + 1]);
                                    assert(piece(tokens@, old_statements, old_bounds, i));
                                } else {
                                    assert(i == old_statements.len());
                                    assert(bounds[i] == old_bounds.last());
                                    assert(bounds[i + 1] == p);
                                    assert(old_bounds.last() == pos);
                                    assert(pos < p);
                                    assert(statements@[i] == statement_g);
                                }
                            }
                            assert(bounds.len() == statements@.len() + 1);
                            assert(bounds[0] == 0);
                            assert(bounds.last() == p);
                            assert(read_up_to(tokens@, statements@, bounds, p as int));
                        }
                    }
                    proof {
                        let old_cuts = cuts;
                        let old_failed = failed;
                        let old_read = read;
                        cuts = cuts.push(p as int);
                        failed = failed.push(false);
                        read = read.push(statement_g);
                        assert(failed.drop_last() =~= old_failed);
                        assert forall|i: int| 0 <= i < failed.len() implies #[trigger] attempt(
                            tokens@,
                            cuts,
                            failed,
                            read,
                            i,
                        ) by {
                            if i < old_failed.len() {
                                assert(attempt(tokens@, old_cuts, old_failed, old_read, i));
                            }
                        }
                    }
                    pos = p;
                },
                Err(e) => {
                    let ghost before = errors@;
                    let ghost m = e.message@;
                    errors.push(e.message);
                    assert(errors@.len() > 0);
                    let next = synchronize(tokens, e.position);
                    proof {
                        assert(messages(errors@) =~= messages(before).push(m));
                        assert(messages(before) + (seq![m] + program_o(tokens@, next as int).1)
                            =~= messages(errors@) + program_o(tokens@, next as int).1);
                    }
                    proof {
                        let old_cuts = cuts;
                        let old_failed = failed;
                        let old_read = read;
                        cuts = cuts.push(next as int);
                        failed = failed.push(true);
                        read = read.push(arbitrary());
                        assert(failed.drop_last() =~= old_failed);
                        assert forall|i: int| 0 <= i < failed.len() implies #[trigger] attempt(
                            tokens@,
                            cuts,
                            failed,
                            read,
                            i,
                        ) by {
                            if i < old_failed.len() {
                                assert(attempt(tokens@, old_cuts, old_failed, old_read, i));
                            }
                        }
                    }
                    pos = next;
                },
            }
        }
        proof {
            assert(program_o(tokens@, pos as int).1 =~= Seq::<Seq<char>>::empty());
            assert(messages(errors@) + Seq::<Seq<char>>::empty() =~= messages(errors@));
        }
        if errors.len() != 0 {
            proof {
                assert(attempts(tokens@, cuts, failed, read, tokens@.len() as int));
            }
            Err(errors)
        } else {
            let program = Program { statements };
            proof {
                assert(productions(tokens@, program.statements@, bounds));
                assert(read_whole(tokens@, program.statements@));
            }
            Ok(program)
        }
    }
}

impl Statement {
    /// Parses one statement starting at `pos`.
    #[verifier::rlimit(100)]
    #[verifier::spinoff_prover]
    pub fn parse(tokens: &Vec<Token>, pos: usize) -> (r: Result<(Statement, usize), ParseError>)
        requires
            pos <= tokens@.len(),
        ensures
            outcome_of(r) == stmt_o(tokens@, pos as int),
            parsed_statement(tokens@, pos as int, r),
        decreases tokens@.len() - pos, 20int, 0int,
    {
        proof {
            reveal_with_fuel(stmt_o, 1);
        }
        if check(tokens, pos, TokenType::VAR) {
            Declaration::parse(tokens, pos)
        } else if check(tokens, pos, TokenType::FUN) {
            Function::parse(tokens, pos)
        } else if check(tokens, pos, TokenType::PRINT) {
            Self::print(tokens, pos)
        } else if check(tokens, pos, TokenType::LEFT_BRACE) {
            Block::parse(tokens, pos)
        } else if check(tokens, pos, TokenType::IF) {
            Conditional::parse(tokens, pos)
        } else if check(tokens, pos, TokenType::WHILE) {
            Iteration::parse(tokens, pos)
        } else if check(tokens, pos, TokenType::FOR) {
            Iteration::parse_for(tokens, pos)
        } else if check(tokens, pos, TokenType::RETURN) {
            Self::ret(tokens, pos)
        } else {
            Self::expression(tokens, pos)
        }
    }

    /// `print expression ;`, from the `print` at `pos`.
    fn print(tokens: &Vec<Token>, pos: usize) -> (r: Result<(Statement, usize), ParseError>)
        requires
            pos < tokens@.len() <= usize::MAX,
            tokens@[pos as int].token_type == TokenType::PRINT,
        ensures
            outcome_of(r) == terminated_o(tokens@, pos + 1, "Expect ';' after print statement"@),
            parsed_statement(tokens@, pos as int, r),
            r matches Ok((s, _)) ==> s is Print,
        decreases tokens@.len() - pos, 19int, 0int,
    {
        let (expr, p) = Expression::parse(tokens, pos + 1)?;
        let q = consume(tokens, p, TokenType::SEMICOLON, "Expect ';' after print statement")?;
        proof {
            lemma_kinds_split(tokens@, pos as int, pos + 1, p as int);
            lemma_kinds_split(tokens@, pos as int, p as int, q as int);
            lemma_kinds_one(tokens@, pos as int);
            lemma_kinds_one(tokens@, p as int);
        }
        proof {
            reveal_with_fuel(written, 1);
        }
        Ok((Statement::Print(expr), q))
    }

    /// `expression ;`
    fn expression(tokens: &Vec<Token>, pos: usize) -> (r: Result<(Statement, usize), ParseError>)
        requires
            pos <= tokens@.len(),
        ensures
            outcome_of(r) == terminated_o(tokens@, pos as int, "Expect ';' after statement"@),
            parsed_statement(tokens@, pos as int, r),
            r matches Ok((s, _)) ==> s is Expression,
        decreases tokens@.len() - pos, 19int, 0int,
    {
        let (expr, p) = Expression::parse(tokens, pos)?;
        let q = consume(tokens, p, TokenType::SEMICOLON, "Expect ';' after statement")?;
        proof {
            lemma_kinds_split(tokens@, pos as int, p as int, q as int);
            lemma_kinds_one(tokens@, p as int);
        }
        proof {
            reveal_with_fuel(written, 1);
        }
        Ok((Statement::Expression(expr), q))
    }

    /// `return expression ;`, from the `return` at `pos`.
    fn ret(tokens: &Vec<Token>, pos: usize) -> (r: Result<(Statement, usize), ParseError>)
        requires
            pos < tokens@.len() <= usize::MAX,
            tokens@[pos as int].token_type == TokenType::RETURN,
        ensures
            outcome_of(r) == terminated_o(tokens@, pos + 1, "Expect ';' after return statement"@),
            parsed_statement(tokens@, pos as int, r),
        decreases tokens@.len() - pos, 19int, 0int,
    {
        let (expr, p) = Expression::parse(tokens, pos + 1)?;
        let q = consume(tokens, p, TokenType::SEMICOLON, "Expect ';' after return statement")?;
        proof {
            lemma_kinds_split(tokens@, pos as int, pos + 1, p as int);
            lemma_kinds_split(tokens@, pos as int, p as int, q as int);
            lemma_kinds_one(tokens@, pos as int);
            lemma_kinds_one(tokens@, p as int);
        }
        proof {
            reveal_with_fuel(written, 1);
        }
        Ok((Statement::Return(expr), q))
    }
}

impl Declaration {
    /// `var name ( = expression )? ;`, from the `var` at `pos`.
    #[verifier::rlimit(100)]
    #[verifier::spinoff_prover]
    fn parse(tokens: &Vec<Token>, pos: usize) -> (r: Result<(Statement, usize), ParseError>)
        requires
            pos < tokens@.len() <= usize::MAX,
            tokens@[pos as int].token_type == TokenType::VAR,
        ensures
            outcome_of(r) == decl_o(tokens@, pos as int),
            parsed_statement(tokens@, pos as int, r),
            r matches Ok((s, _)) ==> s is Declaration,
        decreases tokens@.len() - pos, 19int, 0int,
    {
        proof {
            reveal_with_fuel(decl_o, 1);
        }
        let (name, p) = get_identifier(tokens, pos + 1)?;
        let mut value = None;
        let mut q = p;
        if check(tokens, p, TokenType::EQUAL) {
            let (e, q2) = Expression::parse(tokens, p + 1)?;
            proof {
                lemma_kinds_split(tokens@, p as int, p + 1, q2 as int);
                lemma_kinds_one(tokens@, p as int);
            }
            value = Some(e);
            q = q2;
        } else {
            proof {
                assert(kinds(tokens@).subrange(p as int, q as int) =~= Seq::<TokenType>::empty());
            }
        }
        let end = consume(tokens, q, TokenType::SEMICOLON, "Expect ';' after variable declaration")?;
        proof {
            lemma_kinds_split(tokens@, pos as int, p as int, q as int);
            lemma_kinds_split(tokens@, pos as int, q as int, end as int);
            lemma_kinds_one(tokens@, q as int);
            assert(kinds(tokens@).subrange(pos as int, p as int) =~= seq![
                TokenType::VAR,
                TokenType::IDENTIFIER(name),
            ]);
        }
        proof {
            reveal_with_fuel(written, 1);
        }
        Ok((Statement::Declaration(Declaration { name, value }), end))
    }
}

impl Function {
    /// The parameter names from `p`, up to the closing parenthesis; `open` is
    /// the position of the opening one.
    fn params(tokens: &Vec<Token>, start: usize, open: usize) -> (r: Result<(Vec<String>, usize), ParseError>)
        requires
            start == open + 1,
            start <= tokens@.len() <= usize::MAX,
        ensures
            outcome_of(r) == params_o(tokens@, start as int),
            match r {
                Ok((params, q)) => start <= q <= tokens@.len() && params_text(params@) == kinds(
                    tokens@,
                ).subrange(start as int, q as int),
                Err(e) => failed_at(tokens@, start as int, e),
            },
    {
        let mut params: Vec<String> = Vec::new();
        let mut p = start;
        if !check(tokens, p, TokenType::RIGHT_PAREN) {
            let (param, q) = get_identifier(tokens, p)?;
            params.push(param);
            proof {
                lemma_kinds_one(tokens@, p as int);
                assert(params@ =~= seq![param]);
            }
            p = q;
            while check(tokens, p, TokenType::COMMA)
                invariant
                    start == open + 1,
                    tokens@.len() <= usize::MAX,
                    open + 1 < p <= tokens@.len(),
                    params_text(params@) == kinds(tokens@).subrange(open + 1, p as int),
                    params@.len() > 0,
                    params_o(tokens@, open + 1) == params_rest(tokens@, p as int),
                decreases tokens@.len() - p,
            {
                let got = get_identifier(tokens, p + 1);
                proof {
                    assert(outcome_of(got) == ident_o(tokens@, p + 1));
                }
                let (param, q) = match got {
                    Ok(x) => x,
                    Err(e) => {
                        proof {
                            assert(failed_at(tokens@, p + 1, e));
                        }
                        return Err(e);
                    },
                };
                let ghost before = params@;
                params.push(param);
                proof {
                    assert(params@.drop_last() =~= before);
                    lemma_kinds_one(tokens@, p as int);
                    lemma_kinds_one(tokens@, p + 1);
                    lemma_kinds_split(tokens@, open + 1, p as int, q as int);
                    assert(kinds(tokens@).subrange(p as int, q as int) =~= seq![
                        TokenType::COMMA,
                        TokenType::IDENTIFIER(param),
                    ]);
                }
                p = q;
            }
        } else {
            proof {
                assert(kinds(tokens@).subrange(p as int, p as int) =~= Seq::<TokenType>::empty());
            }
        }
        Ok((params, p))
    }

    /// `fun name ( params ) block`, from the `fun` at `pos`.
    #[verifier::rlimit(100)]
    #[verifier::spinoff_prover]
    fn parse(tokens: &Vec<Token>, pos: usize) -> (r: Result<(Statement, usize), ParseError>)
        requires
            pos < tokens@.len() <= usize::MAX,
            tokens@[pos as int].token_type == TokenType::FUN,
        ensures
            outcome_of(r) == fun_o(tokens@, pos as int),
            parsed_statement(tokens@, pos as int, r),
        decreases tokens@.len() - pos, 19int, 0int,
    {
        proof {
            reveal_with_fuel(fun_o, 1);
        }
        let (name, p) = get_identifier(tokens, pos + 1)?;
        let open = p;
        let p = consume(tokens, p, TokenType::LEFT_PAREN, "Expect '(' after function name")?;
        let (params, p) = Function::params(tokens, p, open)?;
        let close = p;
        let p = consume(tokens, p, TokenType::RIGHT_PAREN, "Expect ')' after function params")?;
        if !check(tokens, p, TokenType::LEFT_BRACE) {
            return Err(error_at(tokens, p, "Expect '{' after function params", p));
        }
        let (body, q) = Block::parse(tokens, p)?;
        let ghost f = Function { name, params, body: Box::new(body) };
        proof {
            let t = kinds(tokens@).subrange(pos as int, q as int);
            let head = seq![TokenType::FUN, TokenType::IDENTIFIER(f.name), TokenType::LEFT_PAREN]
                + params_text(f.params@) + seq![TokenType::RIGHT_PAREN];
            lemma_kinds_one(tokens@, pos as int);
            lemma_kinds_one(tokens@, pos + 1);
            lemma_kinds_one(tokens@, open as int);
            lemma_kinds_one(tokens@, close as int);
            lemma_kinds_split(tokens@, pos as int, open + 1, close as int);
            lemma_kinds_split(tokens@, pos as int, close as int, p as int);
            assert(kinds(tokens@).subrange(pos as int, open + 1) =~= seq![
                TokenType::FUN,
                TokenType::IDENTIFIER(f.name),
                TokenType::LEFT_PAREN,
            ]);
            assert(kinds(tokens@).subrange(pos as int, p as int) =~= head);
            lemma_piece(tokens@, pos as int, p as int, p as int, q as int);
            lemma_piece(tokens@, pos as int, pos as int, p as int, q as int);
            reveal_with_fuel(written, 1);
            assert(written(Statement::Function(Rc::new(f)), t));
        }
        Ok((Statement::Function(Rc::new(Function { name, params, body: Box::new(body) })), q))
    }
}

impl Block {
    /// `{ statement* }`, from the `{` at `pos`.
    #[verifier::rlimit(100)]
    #[verifier::spinoff_prover]
    fn parse(tokens: &Vec<Token>, pos: usize) -> (r: Result<(Statement, usize), ParseError>)
        requires
            pos < tokens@.len() <= usize::MAX,
            tokens@[pos as int].token_type == TokenType::LEFT_BRACE,
        ensures
            outcome_of(r) == block_o(tokens@, pos as int),
            parsed_statement(tokens@, pos as int, r),
            r matches Ok((s, _)) ==> s is Block,
        decreases tokens@.len() - pos, 19int, 0int,
    {
        proof {
            reveal_with_fuel(block_o, 1);
            reveal_with_fuel(block_rest, 1);
        }
        let mut statements: Vec<Statement> = Vec::new();
        let mut p = pos + 1;
        proof {
            assert(kinds(tokens@).subrange(pos + 1, p as int) =~= Seq::<TokenType>::empty());
        }
        while p < tokens.len() && !check(tokens, p, TokenType::RIGHT_BRACE)
            invariant
                pos < p <= tokens@.len(),
                tokens@.len() <= usize::MAX,
                written_seq(statements@, kinds(tokens@).subrange(pos + 1, p as int)),
                block_o(tokens@, pos as int) == block_rest(tokens@, p as int),
            decreases tokens@.len() - p,
        {
            proof {
                reveal_with_fuel(block_rest, 1);
            }
            let (statement, q) = Statement::parse(tokens, p)?;
            let ghost before = statements@;
            let ghost st = statement;
            statements.push(statement);
            proof {
                let t = kinds(tokens@).subrange(pos + 1, q as int);
                let k = p - (pos + 1);
                lemma_piece(tokens@, pos + 1, pos + 1, p as int, q as int);
                lemma_piece(tokens@, pos + 1, p as int, q as int, q as int);
                assert(statements@.drop_last() =~= before);
                assert(statements@.last() == st);
                assert(cut(k, statements@.len() as int));
                assert(written_seq(statements@, t));
            }
            p = q;
        }
        let q = consume(tokens, p, TokenType::RIGHT_BRACE, "Expect } after block")?;
        let ghost b = Block { statements };
        proof {
            let t = kinds(tokens@).subrange(pos as int, q as int);
            lemma_kinds_one(tokens@, pos as int);
            lemma_kinds_one(tokens@, p as int);
            lemma_piece(tokens@, pos as int, pos + 1, p as int, q as int);
            assert(t.subrange(1, t.len() - 1) == kinds(tokens@).subrange(pos + 1, p as int));
            assert(b.statements@.take(b.statements@.len() as int) =~= b.statements@);
            lemma_written_list(b, b.statements@.len() as int, t.subrange(1, t.len() - 1));
            reveal_with_fuel(written, 1);
            assert(written(Statement::Block(b), t));
        }
        Ok((Statement::Block(Block { statements }), q))
    }
}

impl Conditional {
    /// `if ( expression ) statement ( else statement )?`, from the `if` at `pos`.
    #[verifier::rlimit(100)]
    #[verifier::spinoff_prover]
    fn parse(tokens: &Vec<Token>, pos: usize) -> (r: Result<(Statement, usize), ParseError>)
        requires
            pos < tokens@.len() <= usize::MAX,
            tokens@[pos as int].token_type == TokenType::IF,
        ensures
            outcome_of(r) == if_o(tokens@, pos as int),
            parsed_statement(tokens@, pos as int, r),
        decreases tokens@.len() - pos, 19int, 0int,
    {
        proof {
            reveal_with_fuel(if_o, 1);
        }
        let p1 = consume(tokens, pos + 1, TokenType::LEFT_PAREN, "Expect '(' after if")?;
        let (cond, p2) = Expression::parse(tokens, p1)?;
        let p3 = consume(tokens, p2, TokenType::RIGHT_PAREN, "Expect ')' after condition")?;
        let (success, p4) = Statement::parse(tokens, p3)?;
        let ghost g_success = success;
        let mut failure = None;
        let mut p = p4;
        if check(tokens, p4, TokenType::ELSE) {
            let (other, q) = Statement::parse(tokens, p4 + 1)?;
            proof {
                lemma_piece(tokens@, pos as int, p4 + 1, q as int, q as int);
            }
            failure = Some(Box::new(other));
            p = q;
        }
        let ghost c = Conditional { cond, success: Box::new(success), failure };
        proof {
            let t = kinds(tokens@).subrange(pos as int, p as int);
            let k = p4 - pos;
            lemma_kinds_one(tokens@, pos as int);
            lemma_kinds_one(tokens@, pos + 1);
            lemma_kinds_one(tokens@, p2 as int);
            lemma_kinds_split(tokens@, pos as int, p1 as int, p2 as int);
            lemma_kinds_split(tokens@, pos as int, p2 as int, p3 as int);
            assert(kinds(tokens@).subrange(pos as int, p1 as int) =~= seq![TokenType::IF, TokenType::LEFT_PAREN]);
            lemma_piece(tokens@, pos as int, pos as int, p3 as int, p as int);
            lemma_piece(tokens@, pos as int, p3 as int, p4 as int, p as int);
            if p4 < p {
                lemma_kinds_one(tokens@, p4 as int);
                assert(t[k] == tokens@[p4 as int].token_type);
                lemma_piece(tokens@, pos as int, p4 + 1, p as int, p as int);
            }
            assert(cut(k, 0));
            reveal_with_fuel(written, 1);
            assert(written(Statement::Conditional(c), t));
        }
        Ok((Statement::Conditional(Conditional { cond, success: Box::new(success), failure }), p))
    }
}

proof fn lemma_loop_written(
    tokens: Seq<Token>,
    p2: int,
    p3: int,
    p5: int,
    p7: int,
    w: Iteration,
    cond: Option<Expression>,
    inc: Option<Expression>,
    body: Statement,
)
    requires
        0 <= p2 <= p3 < p3 + 1 <= p5 < p5 + 1 <= p7 <= tokens.len(),
        tokens[p3].token_type == TokenType::SEMICOLON,
        tokens[p5].token_type == TokenType::RIGHT_PAREN,
        match cond {
            Some(c) => unparse(c) == kinds(tokens).subrange(p2, p3) && w.cond == c,
            None => p3 == p2 && w.cond == Expression::Literal(Literal::Primary(Primary::Boolean(true))),
        },
        match inc {
            Some(i) => {
                &&& unparse(i) == kinds(tokens).subrange(p3 + 1, p5)
                &&& *w.body is Block
                &&& (*w.body)->Block_0.statements@ == seq![body, Statement::Expression(i)]
            },
            None => p5 == p3 + 1 && *w.body == body,
        },
        written(body, kinds(tokens).subrange(p5 + 1, p7)),
    ensures
        loop_written(Statement::Iteration(w), kinds(tokens).subrange(p2, p7)),
{
    reveal_with_fuel(written, 1);
    let u = kinds(tokens).subrange(p2, p7);
    let k1 = p3 + 1 - p2;
    let k2 = p5 + 1 - p2;
    lemma_kinds_one(tokens, p3);
    lemma_kinds_one(tokens, p5);
    lemma_kinds_split(tokens, p2, p3, p3 + 1);
    lemma_kinds_split(tokens, p3 + 1, p5, p5 + 1);
    lemma_piece(tokens, p2, p2, p3 + 1, p7);
    lemma_piece(tokens, p2, p3 + 1, p5 + 1, p7);
    lemma_piece(tokens, p2, p5 + 1, p7, p7);
    if cond is None {
        assert(u[0] == kinds(tokens)[p3]);
    }
    assert(cut(k1, k2));
}

impl Iteration {
    /// `while ( expression ) statement`, from the `while` at `pos`.
    #[verifier::rlimit(100)]
    #[verifier::spinoff_prover]
    fn parse(tokens: &Vec<Token>, pos: usize) -> (r: Result<(Statement, usize), ParseError>)
        requires
            pos < tokens@.len() <= usize::MAX,
            tokens@[pos as int].token_type == TokenType::WHILE,
        ensures
            outcome_of(r) == while_o(tokens@, pos as int),
            parsed_statement(tokens@, pos as int, r),
        decreases tokens@.len() - pos, 19int, 0int,
    {
        proof {
            reveal_with_fuel(while_o, 1);
        }
        let p1 = consume(tokens, pos + 1, TokenType::LEFT_PAREN, "Expect '(' after 'while'")?;
        let (cond, p2) = Expression::parse(tokens, p1)?;
        let p3 = consume(tokens, p2, TokenType::RIGHT_PAREN, "Expect ')' after condition")?;
        let (body, p) = Statement::parse(tokens, p3)?;
        let ghost w = Iteration { cond, body: Box::new(body) };
        proof {
            let t = kinds(tokens@).subrange(pos as int, p as int);
            lemma_kinds_one(tokens@, pos as int);
            lemma_kinds_one(tokens@, pos + 1);
            lemma_kinds_one(tokens@, p2 as int);
            lemma_kinds_split(tokens@, pos as int, p1 as int, p2 as int);
            lemma_kinds_split(tokens@, pos as int, p2 as int, p3 as int);
            assert(kinds(tokens@).subrange(pos as int, p1 as int) =~= seq![TokenType::WHILE, TokenType::LEFT_PAREN]);
            lemma_piece(tokens@, pos as int, pos as int, p3 as int, p as int);
            lemma_piece(tokens@, pos as int, p3 as int, p as int, p as int);
            reveal_with_fuel(written, 1);
            assert(written(Statement::Iteration(w), t));
        }
        Ok((Statement::Iteration(Iteration { cond, body: Box::new(body) }), p))
    }

    /// The initializer clause of a `for` loop, from `p1`.
    fn init(tokens: &Vec<Token>, p1: usize) -> (r: Result<(Option<Statement>, usize), ParseError>)
        requires
            p1 <= tokens@.len() <= usize::MAX,
        ensures
            outcome_of(r) == init_o(tokens@, p1 as int),
            match r {
                Ok((init, p2)) => p1 < p2 <= tokens@.len() && match init {
                    None => p2 == p1 + 1 && tokens@[p1 as int].token_type == TokenType::SEMICOLON,
                    Some(first) => (first is Declaration || first is Expression) && written(
                        first,
                        kinds(tokens@).subrange(p1 as int, p2 as int),
                    ),
                },
                Err(e) => failed_at(tokens@, p1 as int, e),
            },
        decreases tokens@.len() - p1, 19int, 1int,
    {
        if check(tokens, p1, TokenType::SEMICOLON) {
            Ok((None, p1 + 1))
        } else if check(tokens, p1, TokenType::VAR) {
            let (d, q) = Declaration::parse(tokens, p1)?;
            Ok((Some(d), q))
        } else {
            let (e, q) = Statement::expression(tokens, p1)?;
            Ok((Some(e), q))
        }
    }

    /// `for ( init ; cond ; inc ) body`, from the `for` at `pos`, read as the
    /// equivalent block and `while` loop.
    #[verifier::rlimit(100)]
    #[verifier::spinoff_prover]
    fn parse_for(tokens: &Vec<Token>, pos: usize) -> (r: Result<(Statement, usize), ParseError>)
        requires
            pos < tokens@.len() <= usize::MAX,
            tokens@[pos as int].token_type == TokenType::FOR,
        ensures
            outcome_of(r) == for_o(tokens@, pos as int),
            parsed_statement(tokens@, pos as int, r),
            r matches Ok((s, _)) ==> exists|
                init: Option<Statement>,
                cond: Option<Expression>,
                inc: Option<Expression>,
                body: Statement,
            | #[trigger] is_for_loop(s, init, cond, inc, body),
        decreases tokens@.len() - pos, 19int, 0int,
    {
        proof {
            reveal_with_fuel(for_o, 1);
        }
        let p1 = consume(tokens, pos + 1, TokenType::LEFT_PAREN, "Expect '(' after 'for'")?;
        let (init, p2) = Iteration::init(tokens, p1)?;
        let (cond, p3) = if check(tokens, p2, TokenType::SEMICOLON) {
            (None, p2)
        } else {
            let (c, q) = Expression::parse(tokens, p2)?;
            (Some(c), q)
        };
        let p4 = consume(tokens, p3, TokenType::SEMICOLON, "Expect ';' after condition")?;
        let (increment, p5) = if !check(tokens, p4, TokenType::RIGHT_PAREN) {
            let (i, q) = Expression::parse(tokens, p4)?;
            (Some(i), q)
        } else {
            (None, p4)
        };
        let p6 = consume(tokens, p5, TokenType::RIGHT_PAREN, "Expect ')' after for clauses")?;
        let (body, p7) = Statement::parse(tokens, p6)?;
        let ghost g_init = init;
        let ghost g_cond = cond;
        let ghost g_inc = increment;
        let ghost g_body = body;
        let looped = match increment {
            Some(inc) => Statement::Block(Block { statements: vec![body, Statement::Expression(inc)] }),
            None => body,
        };
        let test = match cond {
            Some(c) => c,
            None => Expression::Literal(Literal::Primary(Primary::Boolean(true))),
        };
        let ghost w = Iteration { cond: test, body: Box::new(looped) };
        let whole = Statement::Iteration(Iteration { cond: test, body: Box::new(looped) });
        let result = match init {
            Some(first) => Statement::Block(Block { statements: vec![first, whole] }),
            None => Statement::Block(Block { statements: vec![whole] }),
        };
        proof {
            assert(written(result, kinds(tokens@).subrange(pos as int, p7 as int)) && is_for_loop(
                result,
                g_init,
                g_cond,
                g_inc,
                g_body,
            )) by {
            lemma_loop_written(
                tokens@,
                p2 as int,
                p3 as int,
                p5 as int,
                p7 as int,
                w,
                g_cond,
                g_inc,
                g_body,
            );
            let t = kinds(tokens@).subrange(pos as int, p7 as int);
            lemma_kinds_one(tokens@, pos as int);
            lemma_kinds_one(tokens@, pos + 1);
            lemma_kinds_one(tokens@, p1 as int);
            assert(t[0] == tokens@[pos as int].token_type);
            assert(t[1] == tokens@[pos + 1].token_type);
            assert(t[2] == tokens@[p1 as int].token_type);
            lemma_piece(tokens@, pos as int, p2 as int, p7 as int, p7 as int);
            match g_init {
                Some(first) => {
                    lemma_piece(tokens@, pos as int, p1 as int, p2 as int, p7 as int);
                    assert(cut(p2 - pos, 1));
                },
                None => {},
            }
            reveal_with_fuel(written, 1);
            assert(for_written(result, t));
            assert(is_for_loop(result, g_init, g_cond, g_inc, g_body));
            }
        }
        Ok((result, p7))
    }
}

} // verus!
