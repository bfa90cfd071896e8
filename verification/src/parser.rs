//! The parser: a recursive-descent parser from tokens to statements.
//!
//! Grammar, from the weakest binding to the strongest:
//!
//! ```text
//! declaration -> "fun" function | "var" var_declaration | statement
//! statement   -> for | if | print | while | block | expression ";"
//! expression  -> assignment
//! assignment  -> logic_or ( "=" assignment )?
//! logic_or    -> logic_and ( "or" logic_and )*
//! logic_and   -> equality ( "and" equality )*
//! equality    -> comparison ( ( "!=" | "==" ) comparison )*
//! comparison  -> term ( ( ">" | ">=" | "<" | "<=" ) term )*
//! term        -> factor ( ( "-" | "+" ) factor )*
//! factor      -> unary ( ( "/" | "*" ) unary )*
//! unary       -> ( "!" | "-" ) unary | call
//! call        -> primary ( "(" arguments? ")" )*
//! primary     -> NUMBER | STRING | "true" | "false" | "nil" | IDENTIFIER
//!              | "(" expression ")"
//! ```
use vstd::prelude::*;

use crate::ast::{
    binary_op_symbol, exprs_view, lemma_exprs_view_push, lemma_stmts_view_push, names_view,
    stmts_view, unary_op_symbol, Ast, BinaryOp, Expr, FnDefn, Literal, LogicalOp, SpecExpr,
    SpecFnDefn, SpecLiteral, SpecStmt, Stmt, UnaryOp,
};
use crate::scanner::{
    is_plain, lemma_plain_tag, lemma_scan_ends_with_eof, lexeme, scan, token_debug_text, SpecToken,
    SpecTokenType, Token, TokenType, Tokens,
};
use crate::{join_errors, joined, texts, LoxError};

verus! {

// ---------------------------------------------------------------------------
// Errors
/// What can go wrong while parsing.
#[derive(Debug, PartialEq)]
pub enum ParseError {
    /// The token `found` is not what the grammar calls for; `message` says what was.
    Unexpected { found: TokenType, message: String },
    /// No expression can start with `found`.
    ExpectedExpression { found: TokenType },
}

pub enum SpecParseError {
    Unexpected { found: SpecTokenType, message: Seq<char> },
    ExpectedExpression { found: SpecTokenType },
}

impl View for ParseError {
    type V = SpecParseError;

    open spec fn view(&self) -> SpecParseError {
        match self {
            ParseError::Unexpected { found, message } => SpecParseError::Unexpected {
                found: found@,
                message: message@,
            },
            ParseError::ExpectedExpression { found } => SpecParseError::ExpectedExpression {
                found: found@,
            },
        }
    }
}

pub open spec fn parse_errors_view(es: Seq<ParseError>) -> Seq<SpecParseError> {
    es.map_values(|e: ParseError| e@)
}

/// The text of a parse error, as the parser reports it.
pub open spec fn parse_error_text(e: SpecParseError) -> Seq<char> {
    match e {
        SpecParseError::Unexpected { found, message } => "["@ + token_debug_text(found) + "] "@
            + message,
        SpecParseError::ExpectedExpression { found } => "(bottom of table) Expected expression, got "@
            + token_debug_text(found),
    }
}

/// The texts of parse errors, in order.
pub open spec fn parse_error_texts(es: Seq<SpecParseError>) -> Seq<Seq<char>> {
    es.map_values(|e: SpecParseError| parse_error_text(e))
}

impl ParseError {
    /// The text of the error, for example `[Eof] Expected ';' after statement.`.
    pub fn message(&self) -> (s: String)
        ensures
            s@ == parse_error_text(self@),
    {
        match self {
            ParseError::Unexpected { found, message } => {
                let mut s = String::from_str("[");
                s.append(found.debug_text().as_str());
                s.append("] ");
                s.append(message.as_str());
                s
            },
            ParseError::ExpectedExpression { found } => {
                let mut s = String::from_str("(bottom of table) Expected expression, got ");
                s.append(found.debug_text().as_str());
                s
            },
        }
    }
}

// ---------------------------------------------------------------------------
// The parser as mathematics. Each function reads the token kinds `ts` from
// index `pos` on and gives either what it parsed and the index after it, or
// an error and the index at which it was found. Past the end, `ts` reads as
// `Eof`.
pub type PResult<T> = Result<(T, int), (SpecParseError, int)>;

pub open spec fn peek(ts: Seq<SpecTokenType>, pos: int) -> SpecTokenType {
    if 0 <= pos < ts.len() {
        ts[pos]
    } else {
        SpecTokenType::Eof
    }
}

pub open spec fn at_end(ts: Seq<SpecTokenType>, pos: int) -> bool {
    peek(ts, pos) is Eof
}

/// The error that the token at `pos` is not what `message` says was expected.
pub open spec fn expected<T>(ts: Seq<SpecTokenType>, pos: int, message: Seq<char>) -> PResult<T> {
    Err((SpecParseError::Unexpected { found: peek(ts, pos), message }, pos))
}

/// `from <= to`, and `to` is within the tokens: the parser never moves back.
pub open spec fn fwd(ts: Seq<SpecTokenType>, from: int, to: int) -> bool {
    from <= to <= ts.len()
}

pub open spec fn equality_op(t: SpecTokenType) -> Option<BinaryOp> {
    match t {
        SpecTokenType::BangEqual => Some(BinaryOp::Ne),
        SpecTokenType::EqualEqual => Some(BinaryOp::Eq),
        _ => None,
    }
}

pub open spec fn comparison_op(t: SpecTokenType) -> Option<BinaryOp> {
    match t {
        SpecTokenType::GreaterThan => Some(BinaryOp::Gt),
        SpecTokenType::GreaterThanEqual => Some(BinaryOp::Gte),
        SpecTokenType::LessThan => Some(BinaryOp::Lt),
        SpecTokenType::LessThanEqual => Some(BinaryOp::Lte),
        _ => None,
    }
}

pub open spec fn term_op(t: SpecTokenType) -> Option<BinaryOp> {
    match t {
        SpecTokenType::Minus => Some(BinaryOp::Sub),
        SpecTokenType::Plus => Some(BinaryOp::Add),
        _ => None,
    }
}

pub open spec fn factor_op(t: SpecTokenType) -> Option<BinaryOp> {
    match t {
        SpecTokenType::Slash => Some(BinaryOp::Div),
        SpecTokenType::Star => Some(BinaryOp::Mul),
        _ => None,
    }
}

pub open spec fn unary_op(t: SpecTokenType) -> Option<UnaryOp> {
    match t {
        SpecTokenType::Bang => Some(UnaryOp::Not),
        SpecTokenType::Minus => Some(UnaryOp::Neg),
        _ => None,
    }
}

pub open spec fn binary(left: SpecExpr, op: BinaryOp, right: SpecExpr) -> SpecExpr {
    SpecExpr::Binary { left: Box::new(left), op, right: Box::new(right) }
}

pub open spec fn logical(left: SpecExpr, op: LogicalOp, right: SpecExpr) -> SpecExpr {
    SpecExpr::Logical { left: Box::new(left), op, right: Box::new(right) }
}

/// `expression`
#[verifier::opaque]
pub open spec fn sp_expression(ts: Seq<SpecTokenType>, pos: int) -> PResult<SpecExpr>
    decreases ts.len() - pos, 25int,
{
    sp_assignment(ts, pos)
}

/// `assignment`: a variable on the left of `=` becomes an assignment.
#[verifier::opaque]
pub open spec fn sp_assignment(ts: Seq<SpecTokenType>, pos: int) -> PResult<SpecExpr>
    decreases ts.len() - pos, 24int,
{
    match sp_logical_or(ts, pos) {
        Err(e) => Err(e),
        Ok((target, p)) => if peek(ts, p) is Equal && fwd(ts, pos, p) {
            match sp_assignment(ts, p + 1) {
                Err(e) => Err(e),
                Ok((value, q)) => match target {
                    SpecExpr::Variable(name) => Ok(
                        (SpecExpr::Assign { name, value: Box::new(value) }, q),
                    ),
                    _ => expected(ts, q, "Invalid assignment target."@),
                },
            }
        } else {
            Ok((target, p))
        },
    }
}

#[verifier::opaque]
pub open spec fn sp_logical_or(ts: Seq<SpecTokenType>, pos: int) -> PResult<SpecExpr>
    decreases ts.len() - pos, 23int,
{
    match sp_logical_and(ts, pos) {
        Err(e) => Err(e),
        Ok((left, p)) => if fwd(ts, pos, p) {
            sp_or_rest(ts, p, left)
        } else {
            Ok((left, p))
        },
    }
}

/// The `( "or" logic_and )*` that follows `left`, which it folds in from the left.
#[verifier::opaque]
pub open spec fn sp_or_rest(ts: Seq<SpecTokenType>, pos: int, left: SpecExpr) -> PResult<SpecExpr>
    decreases ts.len() - pos, 22int,
{
    if peek(ts, pos) is Or {
        match sp_logical_and(ts, pos + 1) {
            Err(e) => Err(e),
            Ok((right, q)) => {
                let expr = logical(left, LogicalOp::Or, right);
                if fwd(ts, pos + 1, q) {
                    sp_or_rest(ts, q, expr)
                } else {
                    Ok((expr, q))
                }
            },
        }
    } else {
        Ok((left, pos))
    }
}

#[verifier::opaque]
pub open spec fn sp_logical_and(ts: Seq<SpecTokenType>, pos: int) -> PResult<SpecExpr>
    decreases ts.len() - pos, 21int,
{
    match sp_equality(ts, pos) {
        Err(e) => Err(e),
        Ok((left, p)) => if fwd(ts, pos, p) {
            sp_and_rest(ts, p, left)
        } else {
            Ok((left, p))
        },
    }
}

#[verifier::opaque]
pub open spec fn sp_and_rest(ts: Seq<SpecTokenType>, pos: int, left: SpecExpr) -> PResult<SpecExpr>
    decreases ts.len() - pos, 20int,
{
    if peek(ts, pos) is And {
        match sp_equality(ts, pos + 1) {
            Err(e) => Err(e),
            Ok((right, q)) => {
                let expr = logical(left, LogicalOp::And, right);
                if fwd(ts, pos + 1, q) {
                    sp_and_rest(ts, q, expr)
                } else {
                    Ok((expr, q))
                }
            },
        }
    } else {
        Ok((left, pos))
    }
}

#[verifier::opaque]
pub open spec fn sp_equality(ts: Seq<SpecTokenType>, pos: int) -> PResult<SpecExpr>
    decreases ts.len() - pos, 19int,
{
    match sp_comparison(ts, pos) {
        Err(e) => Err(e),
        Ok((left, p)) => if fwd(ts, pos, p) {
            sp_equality_rest(ts, p, left)
        } else {
            Ok((left, p))
        },
    }
}

#[verifier::opaque]
pub open spec fn sp_equality_rest(ts: Seq<SpecTokenType>, pos: int, left: SpecExpr) -> PResult<
    SpecExpr,
>
    decreases ts.len() - pos, 18int,
{
    match equality_op(peek(ts, pos)) {
        Some(op) => match sp_comparison(ts, pos + 1) {
            Err(e) => Err(e),
            Ok((right, q)) => {
                let expr = binary(left, op, right);
                if fwd(ts, pos + 1, q) {
                    sp_equality_rest(ts, q, expr)
                } else {
                    Ok((expr, q))
                }
            },
        },
        None => Ok((left, pos)),
    }
}

#[verifier::opaque]
pub open spec fn sp_comparison(ts: Seq<SpecTokenType>, pos: int) -> PResult<SpecExpr>
    decreases ts.len() - pos, 17int,
{
    match sp_term(ts, pos) {
        Err(e) => Err(e),
        Ok((left, p)) => if fwd(ts, pos, p) {
            sp_comparison_rest(ts, p, left)
        } else {
            Ok((left, p))
        },
    }
}

#[verifier::opaque]
pub open spec fn sp_comparison_rest(ts: Seq<SpecTokenType>, pos: int, left: SpecExpr) -> PResult<
    SpecExpr,
>
    decreases ts.len() - pos, 16int,
{
    match comparison_op(peek(ts, pos)) {
        Some(op) => match sp_term(ts, pos + 1) {
            Err(e) => Err(e),
            Ok((right, q)) => {
                let expr = binary(left, op, right);
                if fwd(ts, pos + 1, q) {
                    sp_comparison_rest(ts, q, expr)
                } else {
                    Ok((expr, q))
                }
            },
        },
        None => Ok((left, pos)),
    }
}

/// `term`: factors joined by `-` and `+`, folded from the left.
#[verifier::opaque]
pub open spec fn sp_term(ts: Seq<SpecTokenType>, pos: int) -> PResult<SpecExpr>
    decreases ts.len() - pos, 15int,
{
    match sp_factor(ts, pos) {
        Err(e) => Err(e),
        Ok((left, p)) => if fwd(ts, pos, p) {
            sp_term_rest(ts, p, left)
        } else {
            Ok((left, p))
        },
    }
}

#[verifier::opaque]
pub open spec fn sp_term_rest(ts: Seq<SpecTokenType>, pos: int, left: SpecExpr) -> PResult<SpecExpr>
    decreases ts.len() - pos, 14int,
{
    match term_op(peek(ts, pos)) {
        Some(op) => match sp_factor(ts, pos + 1) {
            Err(e) => Err(e),
            Ok((right, q)) => {
                let expr = binary(left, op, right);
                if fwd(ts, pos + 1, q) {
                    sp_term_rest(ts, q, expr)
                } else {
                    Ok((expr, q))
                }
            },
        },
        None => Ok((left, pos)),
    }
}

#[verifier::opaque]
pub open spec fn sp_factor(ts: Seq<SpecTokenType>, pos: int) -> PResult<SpecExpr>
    decreases ts.len() - pos, 13int,
{
    match sp_unary(ts, pos) {
        Err(e) => Err(e),
        Ok((left, p)) => if fwd(ts, pos, p) {
            sp_factor_rest(ts, p, left)
        } else {
            Ok((left, p))
        },
    }
}

#[verifier::opaque]
pub open spec fn sp_factor_rest(ts: Seq<SpecTokenType>, pos: int, left: SpecExpr) -> PResult<
    SpecExpr,
>
    decreases ts.len() - pos, 12int,
{
    match factor_op(peek(ts, pos)) {
        Some(op) => match sp_unary(ts, pos + 1) {
            Err(e) => Err(e),
            Ok((right, q)) => {
                let expr = binary(left, op, right);
                if fwd(ts, pos + 1, q) {
                    sp_factor_rest(ts, q, expr)
                } else {
                    Ok((expr, q))
                }
            },
        },
        None => Ok((left, pos)),
    }
}

#[verifier::opaque]
pub open spec fn sp_unary(ts: Seq<SpecTokenType>, pos: int) -> PResult<SpecExpr>
    decreases ts.len() - pos, 11int,
{
    match unary_op(peek(ts, pos)) {
        Some(op) => match sp_unary(ts, pos + 1) {
            Err(e) => Err(e),
            Ok((expr, q)) => Ok((SpecExpr::Unary { op, expr: Box::new(expr) }, q)),
        },
        None => sp_call(ts, pos),
    }
}

#[verifier::opaque]
pub open spec fn sp_call(ts: Seq<SpecTokenType>, pos: int) -> PResult<SpecExpr>
    decreases ts.len() - pos, 10int,
{
    match sp_primary(ts, pos) {
        Err(e) => Err(e),
        Ok((callee, p)) => if fwd(ts, pos, p) {
            sp_call_rest(ts, p, callee)
        } else {
            Ok((callee, p))
        },
    }
}

/// The argument lists `( "(" arguments? ")" )*` that follow `callee`.
#[verifier::opaque]
pub open spec fn sp_call_rest(ts: Seq<SpecTokenType>, pos: int, callee: SpecExpr) -> PResult<
    SpecExpr,
>
    decreases ts.len() - pos, 9int,
{
    if peek(ts, pos) is LeftParen {
        match sp_finish_call(ts, pos + 1, callee) {
            Err(e) => Err(e),
            Ok((call, q)) => if fwd(ts, pos + 1, q) {
                sp_call_rest(ts, q, call)
            } else {
                Ok((call, q))
            },
        }
    } else {
        Ok((callee, pos))
    }
}

/// The arguments and `)` of a call, after its `(`.
#[verifier::opaque]
pub open spec fn sp_finish_call(ts: Seq<SpecTokenType>, pos: int, callee: SpecExpr) -> PResult<
    SpecExpr,
>
    decreases ts.len() - pos, 27int,
{
    let args = if peek(ts, pos) is RightParen {
        Ok((Seq::<SpecExpr>::empty(), pos))
    } else {
        sp_arguments(ts, pos, Seq::empty())
    };
    match args {
        Err(e) => Err(e),
        Ok((arguments, p)) => if peek(ts, p) is RightParen {
            Ok((SpecExpr::Call { callee: Box::new(callee), arguments }, p + 1))
        } else {
            expected(ts, p, "Expected ')' after arguments"@)
        },
    }
}

/// `expression ( "," expression )*`, appended to `acc`.
#[verifier::opaque]
pub open spec fn sp_arguments(ts: Seq<SpecTokenType>, pos: int, acc: Seq<SpecExpr>) -> PResult<
    Seq<SpecExpr>,
>
    decreases ts.len() - pos, 26int,
{
    match sp_expression(ts, pos) {
        Err(e) => Err(e),
        Ok((arg, p)) => if peek(ts, p) is Comma && fwd(ts, pos, p) {
            sp_arguments(ts, p + 1, acc.push(arg))
        } else {
            Ok((acc.push(arg), p))
        },
    }
}

#[verifier::opaque]
pub open spec fn sp_primary(ts: Seq<SpecTokenType>, pos: int) -> PResult<SpecExpr>
    decreases ts.len() - pos, 8int,
{
    match peek(ts, pos) {
        SpecTokenType::Nil => Ok((SpecExpr::Literal(SpecLiteral::Nil), pos + 1)),
        SpecTokenType::True => Ok((SpecExpr::Literal(SpecLiteral::True), pos + 1)),
        SpecTokenType::False => Ok((SpecExpr::Literal(SpecLiteral::False), pos + 1)),
        SpecTokenType::String(s) => Ok((SpecExpr::Literal(SpecLiteral::String(s)), pos + 1)),
        SpecTokenType::Number(s) => Ok((SpecExpr::Literal(SpecLiteral::Number(s)), pos + 1)),
        SpecTokenType::Identifier(name) => Ok((SpecExpr::Variable(name), pos + 1)),
        SpecTokenType::LeftParen => match sp_expression(ts, pos + 1) {
            Err(e) => Err(e),
            Ok((inner, q)) => if peek(ts, q) is RightParen {
                Ok((SpecExpr::Grouping(Box::new(inner)), q + 1))
            } else {
                expected(ts, q, "Missing ')' after expression."@)
            },
        },
        found => Err((SpecParseError::ExpectedExpression { found }, pos)),
    }
}

/// `expression ";"`
#[verifier::opaque]
pub open spec fn sp_expression_statement(ts: Seq<SpecTokenType>, pos: int) -> PResult<SpecStmt>
    decreases ts.len() - pos, 28int,
{
    match sp_expression(ts, pos) {
        Err(e) => Err(e),
        Ok((e, p)) => if peek(ts, p) is Semicolon {
            Ok((SpecStmt::Expression(e), p + 1))
        } else {
            expected(ts, p, "Expected ';' after statement."@)
        },
    }
}

/// After `print`: `expression ";"`
#[verifier::opaque]
pub open spec fn sp_print_statement(ts: Seq<SpecTokenType>, pos: int) -> PResult<SpecStmt>
    decreases ts.len() - pos, 28int,
{
    match sp_expression(ts, pos) {
        Err(e) => Err(e),
        Ok((e, p)) => if peek(ts, p) is Semicolon {
            Ok((SpecStmt::Print(e), p + 1))
        } else {
            expected(ts, p, "Expected ';' after statement."@)
        },
    }
}

/// After `var`: `IDENTIFIER ( "=" expression )? ";"`
#[verifier::opaque]
pub open spec fn sp_var_declaration(ts: Seq<SpecTokenType>, pos: int) -> PResult<SpecStmt>
    decreases ts.len() - pos, 28int,
{
    match peek(ts, pos) {
        SpecTokenType::Identifier(name) => {
            let init = if peek(ts, pos + 1) is Equal {
                match sp_expression(ts, pos + 2) {
                    Err(e) => Err(e),
                    Ok((e, q)) => Ok((Some(e), q)),
                }
            } else {
                Ok((None, pos + 1))
            };
            match init {
                Err(e) => Err(e),
                Ok((val, q)) => if peek(ts, q) is Semicolon {
                    Ok((SpecStmt::Var { name, val }, q + 1))
                } else {
                    expected(ts, q, "Expected ';' after var declaration."@)
                },
            }
        },
        _ => expected(ts, pos, "Missing variable name."@),
    }
}

/// After `if`: `"(" expression ")" statement ( "else" statement )?`
#[verifier::opaque]
pub open spec fn sp_if_statement(ts: Seq<SpecTokenType>, pos: int) -> PResult<SpecStmt>
    decreases ts.len() - pos, 28int,
{
    if !(peek(ts, pos) is LeftParen) {
        expected(ts, pos, "Expected '(' after 'if'."@)
    } else {
        match sp_expression(ts, pos + 1) {
            Err(e) => Err(e),
            Ok((condition, p)) => if !(peek(ts, p) is RightParen) {
                expected(ts, p, "Expected ')' after if condition."@)
            } else if !fwd(ts, pos, p) {
                Ok((SpecStmt::Block(Seq::empty()), p))
            } else {
                match sp_statement(ts, p + 1) {
                    Err(e) => Err(e),
                    Ok((then_branch, q)) => if peek(ts, q) is Else && fwd(ts, pos, q) {
                        match sp_statement(ts, q + 1) {
                            Err(e) => Err(e),
                            Ok((else_branch, r)) => Ok(
                                (
                                    SpecStmt::If {
                                        condition,
                                        then_branch: Box::new(then_branch),
                                        else_branch: Some(Box::new(else_branch)),
                                    },
                                    r,
                                ),
                            ),
                        }
                    } else {
                        Ok(
                            (
                                SpecStmt::If {
                                    condition,
                                    then_branch: Box::new(then_branch),
                                    else_branch: None,
                                },
                                q,
                            ),
                        )
                    },
                }
            },
        }
    }
}

/// After `while`: `"(" expression ")" statement`
#[verifier::opaque]
pub open spec fn sp_while_statement(ts: Seq<SpecTokenType>, pos: int) -> PResult<SpecStmt>
    decreases ts.len() - pos, 28int,
{
    if !(peek(ts, pos) is LeftParen) {
        expected(ts, pos, "Expected '(' after 'while'."@)
    } else {
        match sp_expression(ts, pos + 1) {
            Err(e) => Err(e),
            Ok((condition, p)) => if !(peek(ts, p) is RightParen) {
                expected(ts, p, "Expected ')' after condition."@)
            } else if !fwd(ts, pos, p) {
                Ok((SpecStmt::Block(Seq::empty()), p))
            } else {
                match sp_statement(ts, p + 1) {
                    Err(e) => Err(e),
                    Ok((body, q)) => Ok((SpecStmt::While { condition, body: Box::new(body) }, q)),
                }
            },
        }
    }
}

/// The loop that a `for` statement stands for:
/// `{ initializer; while (condition) { body; increment; } }`, leaving out
/// the parts that are absent, with `true` as the condition if it is.
pub open spec fn desugar_for(
    initializer: Option<SpecStmt>,
    condition: Option<SpecExpr>,
    increment: Option<SpecExpr>,
    body: SpecStmt,
) -> SpecStmt {
    let body = match increment {
        Some(i) => SpecStmt::Block(seq![body, SpecStmt::Expression(i)]),
        None => body,
    };
    let looped = SpecStmt::While {
        condition: match condition {
            Some(c) => c,
            None => SpecExpr::Literal(SpecLiteral::True),
        },
        body: Box::new(body),
    };
    match initializer {
        Some(init) => SpecStmt::Block(seq![init, looped]),
        None => looped,
    }
}

/// After `for`: `"(" ( ";" | var_declaration | expression ";" ) expression? ";" expression? ")" statement`
#[verifier::opaque]
pub open spec fn sp_for_statement(ts: Seq<SpecTokenType>, pos: int) -> PResult<SpecStmt>
    decreases ts.len() - pos, 28int,
{
    if !(peek(ts, pos) is LeftParen) {
        expected(ts, pos, "Expected '(' after 'for'."@)
    } else {
        let p0 = pos + 1;
        let init: PResult<Option<SpecStmt>> = if peek(ts, p0) is Semicolon {
            Ok((None, p0 + 1))
        } else if peek(ts, p0) is Var {
            match sp_var_declaration(ts, p0 + 1) {
                Err(e) => Err(e),
                Ok((s, p)) => Ok((Some(s), p)),
            }
        } else {
            match sp_expression_statement(ts, p0) {
                Err(e) => Err(e),
                Ok((s, p)) => Ok((Some(s), p)),
            }
        };
        match init {
            Err(e) => Err(e),
            Ok((initializer, p1)) => if !fwd(ts, pos + 1, p1) {
                Ok((SpecStmt::Block(Seq::empty()), p1))
            } else {
                let cond: PResult<Option<SpecExpr>> = if peek(ts, p1) is Semicolon {
                    Ok((None, p1))
                } else {
                    match sp_expression(ts, p1) {
                        Err(e) => Err(e),
                        Ok((c, p)) => Ok((Some(c), p)),
                    }
                };
                match cond {
                    Err(e) => Err(e),
                    Ok((condition, p2)) => if !(peek(ts, p2) is Semicolon) {
                        expected(ts, p2, "Expected ';' after loop condition."@)
                    } else if !fwd(ts, p1, p2) {
                        Ok((SpecStmt::Block(Seq::empty()), p2))
                    } else {
                        let p3 = p2 + 1;
                        let incr: PResult<Option<SpecExpr>> = if peek(ts, p3) is RightParen {
                            Ok((None, p3))
                        } else {
                            match sp_expression(ts, p3) {
                                Err(e) => Err(e),
                                Ok((i, p)) => Ok((Some(i), p)),
                            }
                        };
                        match incr {
                            Err(e) => Err(e),
                            Ok((increment, p4)) => if !(peek(ts, p4) is RightParen) {
                                expected(ts, p4, "Expected ')' after 'for' clauses."@)
                            } else if !fwd(ts, p3, p4) {
                                Ok((SpecStmt::Block(Seq::empty()), p4))
                            } else {
                                match sp_statement(ts, p4 + 1) {
                                    Err(e) => Err(e),
                                    Ok((body, p5)) => Ok(
                                        (desugar_for(initializer, condition, increment, body), p5),
                                    ),
                                }
                            },
                        }
                    },
                }
            },
        }
    }
}

/// After `{`: the declarations of a block and its `}`.
#[verifier::opaque]
pub open spec fn sp_block(ts: Seq<SpecTokenType>, pos: int) -> PResult<Seq<SpecStmt>>
    decreases ts.len() - pos, 32int,
{
    match sp_block_items(ts, pos, Seq::empty()) {
        Err(e) => Err(e),
        Ok((items, p)) => if peek(ts, p) is RightBrace {
            Ok((items, p + 1))
        } else {
            expected(ts, p, "Expected '}' after block."@)
        },
    }
}

/// Declarations up to a `}` or the end, appended to `acc`.
#[verifier::opaque]
pub open spec fn sp_block_items(ts: Seq<SpecTokenType>, pos: int, acc: Seq<SpecStmt>) -> PResult<
    Seq<SpecStmt>,
>
    decreases ts.len() - pos, 31int,
{
    if peek(ts, pos) is RightBrace || at_end(ts, pos) {
        Ok((acc, pos))
    } else {
        match sp_declaration(ts, pos) {
            Err(e) => Err(e),
            Ok((s, q)) => if fwd(ts, pos + 1, q) {
                sp_block_items(ts, q, acc.push(s))
            } else {
                Ok((acc.push(s), q))
            },
        }
    }
}

#[verifier::opaque]
pub open spec fn sp_statement(ts: Seq<SpecTokenType>, pos: int) -> PResult<SpecStmt>
    decreases ts.len() - pos, 29int,
{
    match peek(ts, pos) {
        SpecTokenType::For => sp_for_statement(ts, pos + 1),
        SpecTokenType::If => sp_if_statement(ts, pos + 1),
        SpecTokenType::Print => sp_print_statement(ts, pos + 1),
        SpecTokenType::While => sp_while_statement(ts, pos + 1),
        SpecTokenType::LeftBrace => match sp_block(ts, pos + 1) {
            Err(e) => Err(e),
            Ok((items, p)) => Ok((SpecStmt::Block(items), p)),
        },
        _ => sp_expression_statement(ts, pos),
    }
}

#[verifier::opaque]
pub open spec fn sp_declaration(ts: Seq<SpecTokenType>, pos: int) -> PResult<SpecStmt>
    decreases ts.len() - pos, 30int,
{
    match peek(ts, pos) {
        SpecTokenType::Fun => sp_function_declaration(ts, pos + 1),
        SpecTokenType::Var => sp_var_declaration(ts, pos + 1),
        _ => sp_statement(ts, pos),
    }
}

/// After `fun`: `IDENTIFIER "(" parameters? ")" "{" declaration* "}"`
#[verifier::opaque]
pub open spec fn sp_function_declaration(ts: Seq<SpecTokenType>, pos: int) -> PResult<SpecStmt>
    decreases ts.len() - pos, 28int,
{
    match peek(ts, pos) {
        SpecTokenType::Identifier(name) => if !(peek(ts, pos + 1) is LeftParen) {
            expected(ts, pos + 1, "Expected '(' after function name"@)
        } else {
            let p1 = pos + 2;
            let params = if peek(ts, p1) is RightParen {
                Ok((Seq::<Seq<char>>::empty(), p1))
            } else {
                sp_parameters(ts, p1, Seq::empty())
            };
            match params {
                Err(e) => Err(e),
                Ok((parameters, p2)) => if !(peek(ts, p2) is RightParen) {
                    expected(ts, p2, "Expected ')' after parameters"@)
                } else if !(peek(ts, p2 + 1) is LeftBrace) {
                    expected(ts, p2 + 1, "Expected '{' before function body"@)
                } else if !fwd(ts, pos, p2) {
                    Ok((SpecStmt::Block(Seq::empty()), p2))
                } else {
                    match sp_block(ts, p2 + 2) {
                        Err(e) => Err(e),
                        Ok((body, p3)) => Ok(
                            (SpecStmt::Function(SpecFnDefn { name, parameters, body }), p3),
                        ),
                    }
                },
            }
        },
        _ => expected(ts, pos, "Expected function name"@),
    }
}

/// `IDENTIFIER ( "," IDENTIFIER )*`, appended to `acc`; at most 255 names.
#[verifier::opaque]
pub open spec fn sp_parameters(ts: Seq<SpecTokenType>, pos: int, acc: Seq<Seq<char>>) -> PResult<
    Seq<Seq<char>>,
>
    decreases ts.len() - pos,
{
    if acc.len() >= 255 {
        expected(ts, pos, "Can't have more than 255 parameters."@)
    } else {
        match peek(ts, pos) {
            SpecTokenType::Identifier(name) => if peek(ts, pos + 1) is Comma {
                sp_parameters(ts, pos + 2, acc.push(name))
            } else {
                Ok((acc.push(name), pos + 1))
            },
            _ => expected(ts, pos, "Expected parameter name"@),
        }
    }
}

/// The kinds of token that start a statement, where recovery stops.
pub open spec fn starts_statement(t: SpecTokenType) -> bool {
    t is Class || t is Fun || t is Var || t is For || t is If || t is While || t is Print
        || t is Return
}

/// Whether parsing can resume at `pos` after an error: at the end, just after
/// a `;`, or where a statement starts.
pub open spec fn resumes_at(ts: Seq<SpecTokenType>, pos: int) -> bool {
    at_end(ts, pos) || peek(ts, pos - 1) is Semicolon || starts_statement(peek(ts, pos))
}

/// After an error: skip tokens until just after a `;`, or to the start of a
/// statement, or to the end.
#[verifier::opaque]
pub open spec fn sp_synchronize_from(ts: Seq<SpecTokenType>, pos: int) -> int
    decreases ts.len() - pos,
{
    if resumes_at(ts, pos) {
        pos
    } else {
        sp_synchronize_from(ts, pos + 1)
    }
}

/// Where parsing resumes after an error found at `pos`: at least one token on.
#[verifier::opaque]
pub open spec fn sp_synchronize(ts: Seq<SpecTokenType>, pos: int) -> int {
    if at_end(ts, pos) {
        pos
    } else {
        sp_synchronize_from(ts, pos + 1)
    }
}

/// Declarations from `pos` to the end: every statement parsed and every error
/// met, recovering after each error.
#[verifier::opaque]
pub open spec fn sp_program(
    ts: Seq<SpecTokenType>,
    pos: int,
    stmts: Seq<SpecStmt>,
    errors: Seq<SpecParseError>,
) -> (Seq<SpecStmt>, Seq<SpecParseError>)
    decreases ts.len() - pos,
{
    if at_end(ts, pos) {
        (stmts, errors)
    } else {
        match sp_declaration(ts, pos) {
            Ok((s, p)) => if fwd(ts, pos + 1, p) {
                sp_program(ts, p, stmts.push(s), errors)
            } else {
                (stmts.push(s), errors)
            },
            Err((e, p)) => {
                let q = sp_synchronize(ts, p);
                if fwd(ts, pos + 1, q) {
                    sp_program(ts, q, stmts, errors.push(e))
                } else {
                    (stmts, errors.push(e))
                }
            },
        }
    }
}

/// The kinds of a sequence of tokens.
pub open spec fn kinds(ts: Seq<SpecToken>) -> Seq<SpecTokenType> {
    ts.map_values(|t: SpecToken| t.value)
}

/// A whole program: its statements when no declaration is in error;
/// otherwise every error, in order.
pub open spec fn sp_parse(ts: Seq<SpecToken>) -> Result<Seq<SpecStmt>, Seq<SpecParseError>> {
    let (stmts, errors) = sp_program(kinds(ts), 0, Seq::empty(), Seq::empty());
    if errors.len() == 0 {
        Ok(stmts)
    } else {
        Err(errors)
    }
}

} // verus!

verus! {

// ---------------------------------------------------------------------------
// The parser as code.
type ParserResult<T> = Result<T, ParseError>;

/// Whether `r` is what the specification `s` gives, with `cur` as the index
/// the parser stands at afterwards (on error too).
pub open spec fn agrees<T: View>(r: Result<T, ParseError>, cur: int, s: PResult<T::V>) -> bool {
    match (r, s) {
        (Ok(v), Ok((sv, p))) => v@ == sv && cur == p,
        (Err(e), Err((se, p))) => e@ == se && cur == p,
        _ => false,
    }
}

/// The kinds of a list of tokens.
pub open spec fn token_kinds(ts: Seq<Token>) -> Seq<SpecTokenType> {
    ts.map_values(|t: Token| t.value@)
}

/// There is an `Eof` at index `pos` or after it.
#[verifier::opaque]
pub open spec fn has_eof_from(ts: Seq<SpecTokenType>, pos: int) -> bool {
    exists|e: int| pos <= e < ts.len() && ts[e] is Eof
}

/// An `Eof` ahead lies within the tokens.
pub proof fn lemma_eof_bound(ts: Seq<SpecTokenType>, pos: int)
    requires
        has_eof_from(ts, pos),
    ensures
        pos < ts.len(),
{
    reveal(has_eof_from);
}

/// Reading a token other than `Eof` keeps an `Eof` ahead.
pub proof fn lemma_eof_step(ts: Seq<SpecTokenType>, pos: int)
    requires
        has_eof_from(ts, pos),
        0 <= pos < ts.len(),
        !(ts[pos] is Eof),
    ensures
        has_eof_from(ts, pos + 1),
{
    reveal(has_eof_from);
    let e = choose|e: int| pos <= e < ts.len() && ts[e] is Eof;
    assert(pos + 1 <= e < ts.len() && ts[e] is Eof);
}

proof fn lemma_synchronize_from(ts: Seq<SpecTokenType>, pos: int)
    requires
        1 <= pos,
        has_eof_from(ts, pos),
    ensures
        pos <= sp_synchronize_from(ts, pos) < ts.len(),
        has_eof_from(ts, sp_synchronize_from(ts, pos)),
        resumes_at(ts, sp_synchronize_from(ts, pos)),
        forall|k: int| pos <= k < sp_synchronize_from(ts, pos) ==> !#[trigger] resumes_at(ts, k),
    decreases ts.len() - pos,
{
    reveal(sp_synchronize_from);
    lemma_eof_bound(ts, pos);
    if !resumes_at(ts, pos) {
        lemma_eof_step(ts, pos);
        lemma_synchronize_from(ts, pos + 1);
    }
}

/// After an error found at `pos`, parsing resumes at the first place past
/// it where a statement likely starts: just after a `;`, at a keyword that
/// begins a statement, or at the end. Only at the end does it not move.
pub proof fn lemma_synchronize(ts: Seq<SpecTokenType>, pos: int)
    requires
        0 <= pos,
        has_eof_from(ts, pos),
    ensures
        at_end(ts, pos) ==> sp_synchronize(ts, pos) == pos,
        !at_end(ts, pos) ==> pos < sp_synchronize(ts, pos),
        sp_synchronize(ts, pos) < ts.len(),
        has_eof_from(ts, sp_synchronize(ts, pos)),
        resumes_at(ts, sp_synchronize(ts, pos)),
        forall|k: int| pos < k < sp_synchronize(ts, pos) ==> !#[trigger] resumes_at(ts, k),
{
    reveal(sp_synchronize);
    lemma_eof_bound(ts, pos);
    if !at_end(ts, pos) {
        lemma_eof_step(ts, pos);
        lemma_synchronize_from(ts, pos + 1);
    }
}

/// Every operator token builds the operator that it writes: the operator
/// that a binary or prefix node gets from a token is the one whose symbol is
/// the token's text. Each group of operators is read from exactly its own
/// tokens.
pub proof fn lemma_operator_tables(t: SpecTokenType)
    ensures
        equality_op(t) matches Some(op) ==> binary_op_symbol(op) == lexeme(t),
        comparison_op(t) matches Some(op) ==> binary_op_symbol(op) == lexeme(t),
        term_op(t) matches Some(op) ==> binary_op_symbol(op) == lexeme(t),
        factor_op(t) matches Some(op) ==> binary_op_symbol(op) == lexeme(t),
        token_binary_op(t) matches Some(op) ==> binary_op_symbol(op) == lexeme(t),
        unary_op(t) matches Some(op) ==> unary_op_symbol(op) == lexeme(t),
        (equality_op(t) is Some) == (t is BangEqual || t is EqualEqual),
        (comparison_op(t) is Some) == (t is GreaterThan || t is GreaterThanEqual || t is LessThan
            || t is LessThanEqual),
        (term_op(t) is Some) == (t is Minus || t is Plus),
        (factor_op(t) is Some) == (t is Slash || t is Star),
        (unary_op(t) is Some) == (t is Bang || t is Minus),
        (token_binary_op(t) is Some) == (equality_op(t) is Some || comparison_op(t) is Some
            || term_op(t) is Some || factor_op(t) is Some),
{
    reveal_strlit("+");
    reveal_strlit("-");
    reveal_strlit("*");
    reveal_strlit("/");
    reveal_strlit("<");
    reveal_strlit("<=");
    reveal_strlit(">");
    reveal_strlit(">=");
    reveal_strlit("==");
    reveal_strlit("!=");
    reveal_strlit("!");
}

/// Reading `==` or `!=` after `left`: the node built joins `left` and the
/// comparison on the right with the operator the token writes, and reading
/// goes on after it.
pub proof fn lemma_equality_step(ts: Seq<SpecTokenType>, pos: int, left: SpecExpr)
    requires
        peek(ts, pos) is BangEqual || peek(ts, pos) is EqualEqual,
        sp_comparison(ts, pos + 1) matches Ok((_, q)) && pos + 1 <= q <= ts.len(),
    ensures
        binary_op_symbol(equality_op(peek(ts, pos))->0) == lexeme(peek(ts, pos)),
        sp_equality_rest(ts, pos, left) == sp_equality_rest(
            ts,
            sp_comparison(ts, pos + 1)->Ok_0.1,
            binary(left, equality_op(peek(ts, pos))->0, sp_comparison(ts, pos + 1)->Ok_0.0),
        ),
{
    reveal(sp_equality_rest);
    reveal(sp_comparison);
    lemma_operator_tables(peek(ts, pos));
}

/// Reading `>`, `>=`, `<` or `<=` after `left`, likewise.
pub proof fn lemma_comparison_step(ts: Seq<SpecTokenType>, pos: int, left: SpecExpr)
    requires
        peek(ts, pos) is GreaterThan || peek(ts, pos) is GreaterThanEqual || peek(ts, pos) is LessThan
            || peek(ts, pos) is LessThanEqual,
        sp_term(ts, pos + 1) matches Ok((_, q)) && pos + 1 <= q <= ts.len(),
    ensures
        binary_op_symbol(comparison_op(peek(ts, pos))->0) == lexeme(peek(ts, pos)),
        sp_comparison_rest(ts, pos, left) == sp_comparison_rest(
            ts,
            sp_term(ts, pos + 1)->Ok_0.1,
            binary(left, comparison_op(peek(ts, pos))->0, sp_term(ts, pos + 1)->Ok_0.0),
        ),
{
    reveal(sp_comparison_rest);
    reveal(sp_term);
    lemma_operator_tables(peek(ts, pos));
}

/// Reading `-` or `+` after `left`, likewise, with a factor on the right.
pub proof fn lemma_term_step(ts: Seq<SpecTokenType>, pos: int, left: SpecExpr)
    requires
        peek(ts, pos) is Minus || peek(ts, pos) is Plus,
        sp_factor(ts, pos + 1) matches Ok((_, q)) && pos + 1 <= q <= ts.len(),
    ensures
        binary_op_symbol(term_op(peek(ts, pos))->0) == lexeme(peek(ts, pos)),
        sp_term_rest(ts, pos, left) == sp_term_rest(
            ts,
            sp_factor(ts, pos + 1)->Ok_0.1,
            binary(left, term_op(peek(ts, pos))->0, sp_factor(ts, pos + 1)->Ok_0.0),
        ),
{
    reveal(sp_term_rest);
    reveal(sp_factor);
    lemma_operator_tables(peek(ts, pos));
}

/// Reading `/` or `*` after `left`, likewise, with a unary on the right.
pub proof fn lemma_factor_step(ts: Seq<SpecTokenType>, pos: int, left: SpecExpr)
    requires
        peek(ts, pos) is Slash || peek(ts, pos) is Star,
        sp_unary(ts, pos + 1) matches Ok((_, q)) && pos + 1 <= q <= ts.len(),
    ensures
        binary_op_symbol(factor_op(peek(ts, pos))->0) == lexeme(peek(ts, pos)),
        sp_factor_rest(ts, pos, left) == sp_factor_rest(
            ts,
            sp_unary(ts, pos + 1)->Ok_0.1,
            binary(left, factor_op(peek(ts, pos))->0, sp_unary(ts, pos + 1)->Ok_0.0),
        ),
{
    reveal(sp_factor_rest);
    reveal(sp_unary);
    lemma_operator_tables(peek(ts, pos));
}

/// Reading `!` or `-` before an operand: a prefix node with the operator
/// the token writes.
pub proof fn lemma_unary_step(ts: Seq<SpecTokenType>, pos: int)
    requires
        peek(ts, pos) is Bang || peek(ts, pos) is Minus,
        sp_unary(ts, pos + 1) is Ok,
    ensures
        unary_op_symbol(unary_op(peek(ts, pos))->0) == lexeme(peek(ts, pos)),
        sp_unary(ts, pos) == Ok::<_, (SpecParseError, int)>(
            (
                SpecExpr::Unary {
                    op: unary_op(peek(ts, pos))->0,
                    expr: Box::new(sp_unary(ts, pos + 1)->Ok_0.0),
                },
                sp_unary(ts, pos + 1)->Ok_0.1,
            ),
        ),
{
    reveal(sp_unary);
    lemma_operator_tables(peek(ts, pos));
}

/// Reading `or` after `left` joins it with the next `and`-expression by
/// logical or; reading `and` after `left` joins it with the next equality by
/// logical and.
pub proof fn lemma_logical_steps(ts: Seq<SpecTokenType>, pos: int, left: SpecExpr)
    ensures
        peek(ts, pos) is Or ==> (sp_logical_and(ts, pos + 1) matches Ok((right, q)) ==> (pos + 1
            <= q <= ts.len() ==> sp_or_rest(ts, pos, left) == sp_or_rest(
            ts,
            q,
            logical(left, LogicalOp::Or, right),
        ))),
        peek(ts, pos) is And ==> (sp_equality(ts, pos + 1) matches Ok((right, q)) ==> (pos + 1
            <= q <= ts.len() ==> sp_and_rest(ts, pos, left) == sp_and_rest(
            ts,
            q,
            logical(left, LogicalOp::And, right),
        ))),
        !(peek(ts, pos) is Or) ==> sp_or_rest(ts, pos, left) == Ok::<_, (SpecParseError, int)>(
            (left, pos),
        ),
        !(peek(ts, pos) is And) ==> sp_and_rest(ts, pos, left) == Ok::<_, (SpecParseError, int)>(
            (left, pos),
        ),
{
    reveal(sp_or_rest);
    reveal(sp_logical_and);
    reveal(sp_and_rest);
    reveal(sp_equality);
}

/// A literal or a name is read as what its token holds: `nil`, `true` and
/// `false` as those literals, a string or a number with its text, a name as
/// a variable of that name; each takes its one token.
pub proof fn lemma_primary_token(ts: Seq<SpecTokenType>, pos: int)
    ensures
        peek(ts, pos) is Nil ==> sp_primary(ts, pos) == Ok::<_, (SpecParseError, int)>(
            (SpecExpr::Literal(SpecLiteral::Nil), pos + 1),
        ),
        peek(ts, pos) is True ==> sp_primary(ts, pos) == Ok::<_, (SpecParseError, int)>(
            (SpecExpr::Literal(SpecLiteral::True), pos + 1),
        ),
        peek(ts, pos) is False ==> sp_primary(ts, pos) == Ok::<_, (SpecParseError, int)>(
            (SpecExpr::Literal(SpecLiteral::False), pos + 1),
        ),
        peek(ts, pos) matches SpecTokenType::String(v) ==> sp_primary(ts, pos) == Ok::<
            _,
            (SpecParseError, int),
        >((SpecExpr::Literal(SpecLiteral::String(v)), pos + 1)),
        peek(ts, pos) matches SpecTokenType::Number(d) ==> sp_primary(ts, pos) == Ok::<
            _,
            (SpecParseError, int),
        >((SpecExpr::Literal(SpecLiteral::Number(d)), pos + 1)),
        peek(ts, pos) matches SpecTokenType::Identifier(w) ==> sp_primary(ts, pos) == Ok::<
            _,
            (SpecParseError, int),
        >((SpecExpr::Variable(w), pos + 1)),
{
    reveal(sp_primary);
}

/// A declaration or statement is read by the rule its first token names:
/// `fun`, `var`, `for`, `if`, `print`, `while` and `{` each start their own
/// kind; anything else is an expression statement.
pub proof fn lemma_statement_dispatch(ts: Seq<SpecTokenType>, pos: int)
    ensures
        peek(ts, pos) is Fun ==> sp_declaration(ts, pos) == sp_function_declaration(ts, pos + 1),
        peek(ts, pos) is Var ==> sp_declaration(ts, pos) == sp_var_declaration(ts, pos + 1),
        !(peek(ts, pos) is Fun || peek(ts, pos) is Var) ==> sp_declaration(ts, pos) == sp_statement(
            ts,
            pos,
        ),
        peek(ts, pos) is For ==> sp_statement(ts, pos) == sp_for_statement(ts, pos + 1),
        peek(ts, pos) is If ==> sp_statement(ts, pos) == sp_if_statement(ts, pos + 1),
        peek(ts, pos) is Print ==> sp_statement(ts, pos) == sp_print_statement(ts, pos + 1),
        peek(ts, pos) is While ==> sp_statement(ts, pos) == sp_while_statement(ts, pos + 1),
        peek(ts, pos) is LeftBrace ==> sp_statement(ts, pos) == sp_block_stmt(ts, pos + 1),
        !(peek(ts, pos) is For || peek(ts, pos) is If || peek(ts, pos) is Print || peek(ts, pos) is While
            || peek(ts, pos) is LeftBrace) ==> sp_statement(ts, pos) == sp_expression_statement(
            ts,
            pos,
        ),
        sp_print_statement(ts, pos) matches Ok((s, _)) ==> s == SpecStmt::Print(
            sp_expression(ts, pos)->Ok_0.0,
        ),
        sp_expression_statement(ts, pos) matches Ok((s, _)) ==> s == SpecStmt::Expression(
            sp_expression(ts, pos)->Ok_0.0,
        ),
{
    reveal(sp_declaration);
    reveal(sp_statement);
    reveal(sp_function_declaration);
    reveal(sp_var_declaration);
    reveal(sp_for_statement);
    reveal(sp_if_statement);
    reveal(sp_print_statement);
    reveal(sp_while_statement);
    reveal(sp_block);
    reveal(sp_expression_statement);
    reveal(sp_expression);
}

/// After an error found at `pos`, parsing resumes at the end, just after a
/// `;`, or at one of `class`, `fun`, `var`, `for`, `if`, `while`, `print`,
/// `return`, and at the first such place after `pos`: no token skipped is
/// one of them or follows a `;`.
pub proof fn lemma_recovery_point(ts: Seq<SpecTokenType>, pos: int)
    requires
        0 <= pos,
        has_eof_from(ts, pos),
    ensures
        ({
            let q = sp_synchronize(ts, pos);
            let t = peek(ts, q);
            at_end(ts, q) || peek(ts, q - 1) is Semicolon || t is Class || t is Fun || t is Var
                || t is For || t is If || t is While || t is Print || t is Return
        }),
        forall|k: int|
            pos < k < sp_synchronize(ts, pos) ==> {
                let t = #[trigger] peek(ts, k);
                &&& !at_end(ts, k)
                &&& !(peek(ts, k - 1) is Semicolon)
                &&& !(t is Class || t is Fun || t is Var || t is For || t is If || t is While
                    || t is Print || t is Return)
            },
{
    lemma_synchronize(ts, pos);
    let q = sp_synchronize(ts, pos);
    assert forall|k: int| pos < k < q implies {
        let t = #[trigger] peek(ts, k);
        &&& !at_end(ts, k)
        &&& !(peek(ts, k - 1) is Semicolon)
        &&& !(t is Class || t is Fun || t is Var || t is For || t is If || t is While || t is Print
            || t is Return)
    } by {
        assert(!resumes_at(ts, k));
    }
}

/// The tokens of every scan can be parsed: an `Eof` ends them.
pub proof fn lemma_scanned_tokens_parse(cs: Seq<char>)
    ensures
        has_eof_from(kinds(scan(cs).0), 0),
{
    reveal(has_eof_from);
    lemma_scan_ends_with_eof(cs);
    let ks = kinds(scan(cs).0);
    assert(ks[ks.len() - 1] is Eof);
}

pub open spec fn sp_block_stmt(ts: Seq<SpecTokenType>, pos: int) -> PResult<SpecStmt> {
    match sp_block(ts, pos) {
        Err(e) => Err(e),
        Ok((items, p)) => Ok((SpecStmt::Block(items), p)),
    }
}

/// A parser over a list of tokens and the index of the next one to read.
pub struct Parser {
    tokens: Vec<Token>,
    current: usize,
}

impl Parser {
    /// The kinds of the tokens being parsed.
    pub closed spec fn ks(&self) -> Seq<SpecTokenType> {
        token_kinds(self.tokens@)
    }

    /// The index of the next token to read.
    pub closed spec fn pos(&self) -> int {
        self.current as int
    }

    /// An `Eof` lies ahead, so reading never runs off the tokens.
    pub closed spec fn wf(&self) -> bool {
        &&& self.current < self.tokens@.len()
        &&& has_eof_from(self.ks(), self.current as int)
    }

    /// From `self` to `after` the parser kept its tokens and moved forward,
    /// strictly when `moved` holds.
    pub closed spec fn advanced_to(&self, after: Parser, moved: bool) -> bool {
        &&& after.wf()
        &&& after.tokens@ == self.tokens@
        &&& self.current <= after.current
        &&& moved ==> self.current < after.current
    }

    /// A parser at the first of `tokens`; it can run when an `Eof` is among them.
    pub fn new(tokens: Vec<Token>) -> (p: Self)
        ensures
            p.ks() == token_kinds(tokens@),
            p.pos() == 0,
            p.wf() == has_eof_from(token_kinds(tokens@), 0),
    {
        proof {
            if has_eof_from(token_kinds(tokens@), 0) {
                lemma_eof_bound(token_kinds(tokens@), 0);
            }
        }
        Self { tokens, current: 0 }
    }

    proof fn lemma_in_bounds(&self)
        requires
            self.wf(),
        ensures
            self.current < self.tokens@.len(),
            self.ks().len() == self.tokens@.len(),
            peek(self.ks(), self.current as int) == self.tokens@[self.current as int].value@,
    {
    }

    /// Parses declarations to the end. The statements when none is in error;
    /// otherwise every error, after recovering from each at the next statement.
    pub fn parse(self) -> (r: Result<Ast, Vec<ParseError>>)
        requires
            self.wf(),
        ensures
            ({
                let (stmts, errors) = sp_program(self.ks(), self.pos(), Seq::empty(), Seq::empty());
                match r {
                    Ok(ast) => errors.len() == 0 && ast@ == stmts,
                    Err(es) => errors.len() > 0 && parse_errors_view(es@) == errors,
                }
            }),
    {
        let ghost ts = self.ks();
        let ghost pos0 = self.current as int;
        let mut p = self;
        let mut statements: Vec<Stmt> = Vec::new();
        let mut errors: Vec<ParseError> = Vec::new();
        assert(parse_errors_view(errors@) =~= Seq::<SpecParseError>::empty());
        while !p.is_at_end()
            invariant
                p.wf(),
                p.ks() == ts,
                sp_program(ts, pos0, Seq::empty(), Seq::empty()) == sp_program(
                    ts,
                    p.current as int,
                    stmts_view(statements@),
                    parse_errors_view(errors@),
                ),
            decreases p.tokens@.len() - p.current,
        {
            proof {
                reveal(sp_program);
                reveal(sp_declaration);
                p.lemma_in_bounds();
            }
            let ghost e0 = parse_errors_view(errors@);
            match p.parse_declaration() {
                Ok(statement) => {
                    proof {
                        p.lemma_in_bounds();
                        lemma_stmts_view_push(statements@, statement);
                    }
                    statements.push(statement);
                },
                Err(err) => {
                    errors.push(err);
                    assert(parse_errors_view(errors@) =~= e0.push(err@));
                    p.syncronize();
                    proof {
                        p.lemma_in_bounds();
                    }
                },
            }
        }
        proof {
            reveal(sp_program);
        }
        if errors.len() == 0 {
            Ok(Ast { statements })
        } else {
            Err(errors)
        }
    }

    // HELPERS
    fn peek(&self) -> (t: &TokenType)
        requires
            self.wf(),
        ensures
            t@ == peek(self.ks(), self.current as int),
    {
        proof {
            self.lemma_in_bounds();
        }
        &self.tokens[self.current].value
    }

    fn next_is(&self, t: TokenType) -> (r: bool)
        requires
            self.wf(),
            is_plain(t@),
        ensures
            r == (peek(self.ks(), self.current as int) == t@),
    {
        let found = self.peek();
        proof {
            lemma_plain_tag(found@, t@);
        }
        found.tag() == t.tag()
    }

    fn is_at_end(&self) -> (r: bool)
        requires
            self.wf(),
        ensures
            r == at_end(self.ks(), self.current as int),
    {
        self.next_is(TokenType::Eof)
    }

    /// Moves to the next token, unless at the end.
    fn next(&mut self)
        requires
            old(self).wf(),
        ensures
            old(self).advanced_to(*final(self), !at_end(old(self).ks(), old(self).current as int)),
            final(self).current == if at_end(old(self).ks(), old(self).current as int) {
                old(self).current
            } else {
                (old(self).current + 1) as usize
            },
    {
        if !self.is_at_end() {
            let n = self.tokens.len();
            proof {
                self.lemma_in_bounds();
                lemma_eof_step(self.ks(), self.current as int);
                lemma_eof_bound(self.ks(), self.current + 1);
            }
            self.current = self.current + 1;
        }
    }

    fn previous(&self) -> (t: &Token)
        requires
            1 <= self.current <= self.tokens@.len(),
        ensures
            t.value@ == self.ks()[self.current - 1],
    {
        &self.tokens[self.current - 1]
    }

    /// Moves past the next token when it is of kind `token_type`.
    fn next_if(&mut self, token_type: TokenType) -> (r: bool)
        requires
            old(self).wf(),
            is_plain(token_type@),
            !(token_type@ is Eof),
        ensures
            r == (peek(old(self).ks(), old(self).current as int) == token_type@),
            old(self).advanced_to(*final(self), r),
            final(self).current == if r {
                (old(self).current + 1) as usize
            } else {
                old(self).current
            },
    {
        if self.next_is(token_type) {
            self.next();
            true
        } else {
            false
        }
    }

    fn build_error(&self, msg: &str) -> (e: ParseError)
        requires
            self.wf(),
        ensures
            e@ == (SpecParseError::Unexpected {
                found: peek(self.ks(), self.current as int),
                message: msg@,
            }),
    {
        ParseError::Unexpected { found: self.peek().duplicate(), message: String::from_str(msg) }
    }

    fn next_if_or_err(&mut self, t: TokenType, msg: &str) -> (r: ParserResult<()>)
        requires
            old(self).wf(),
            is_plain(t@),
            !(t@ is Eof),
        ensures
            old(self).advanced_to(*final(self), r is Ok),
            ({
                let ks = old(self).ks();
                let c = old(self).current as int;
                if peek(ks, c) == t@ {
                    r is Ok && final(self).current == c + 1
                } else {
                    final(self).current == c && match r {
                        Err(e) => e@ == (SpecParseError::Unexpected {
                            found: peek(ks, c),
                            message: msg@,
                        }),
                        Ok(_) => false,
                    }
                }
            }),
    {
        if self.next_if(t) {
            Ok(())
        } else {
            Err(self.build_error(msg))
        }
    }

    /// Reads an identifier's name, or fails with `err_msg`.
    fn next_if_identifier(&mut self, err_msg: &str) -> (r: ParserResult<String>)
        requires
            old(self).wf(),
        ensures
            old(self).advanced_to(*final(self), r is Ok),
            ({
                let ks = old(self).ks();
                let c = old(self).current as int;
                match peek(ks, c) {
                    SpecTokenType::Identifier(name) => final(self).current == c + 1 && match r {
                        Ok(s) => s@ == name,
                        Err(_) => false,
                    },
                    found => final(self).current == c && match r {
                        Err(e) => e@ == (SpecParseError::Unexpected { found, message: err_msg@ }),
                        Ok(_) => false,
                    },
                }
            }),
    {
        let name = match self.peek() {
            TokenType::Identifier(name) => Some(name.clone()),
            _ => None,
        };
        match name {
            Some(name) => {
                self.next();
                Ok(name)
            },
            None => Err(self.build_error(err_msg)),
        }
    }

    /// After an error, skips to where a new statement likely starts, to keep
    /// one mistake from causing many errors.
    fn syncronize(&mut self)
        requires
            old(self).wf(),
            old(self).current >= 1 || !at_end(old(self).ks(), old(self).current as int),
        ensures
            old(self).advanced_to(*final(self), !at_end(old(self).ks(), old(self).current as int)),
            final(self).current == sp_synchronize(old(self).ks(), old(self).current as int),
    {
        proof {
            reveal(sp_synchronize);
            reveal(sp_synchronize_from);
        }
        let ghost ts = self.ks();
        let ghost c0 = self.current as int;
        self.next();
        while !self.is_at_end()
            invariant
                self.wf(),
                self.tokens@ == old(self).tokens@,
                self.ks() == ts,
                ts == old(self).ks(),
                c0 == old(self).current,
                self.current >= 1,
                at_end(ts, c0) ==> self.current == c0,
                !at_end(ts, c0) ==> c0 < self.current,
                sp_synchronize(ts, c0) == if at_end(ts, c0) {
                    c0
                } else {
                    sp_synchronize_from(ts, self.current as int)
                },
            decreases self.tokens@.len() - self.current,
        {
            proof {
                reveal(sp_synchronize_from);
                self.lemma_in_bounds();
                lemma_plain_tag(ts[self.current - 1], SpecTokenType::Semicolon);
            }
            if self.previous().value.tag() == TokenType::Semicolon.tag() {
                return;
            }
            if starts_statement_kind(self.peek()) {
                return;
            }
            self.next();
        }
    }
}

/// Whether a token of this kind starts a statement.
fn starts_statement_kind(t: &TokenType) -> (r: bool)
    ensures
        r == starts_statement(t@),
{
    match t {
        TokenType::Class | TokenType::Fun | TokenType::Var | TokenType::For | TokenType::If
        | TokenType::While | TokenType::Print | TokenType::Return => true,
        _ => false,
    }
}

} // verus!
verus! {

/// The operator that a token stands for, among those of binary expressions.
pub open spec fn token_binary_op(t: SpecTokenType) -> Option<BinaryOp> {
    match t {
        SpecTokenType::BangEqual => Some(BinaryOp::Ne),
        SpecTokenType::EqualEqual => Some(BinaryOp::Eq),
        SpecTokenType::GreaterThan => Some(BinaryOp::Gt),
        SpecTokenType::GreaterThanEqual => Some(BinaryOp::Gte),
        SpecTokenType::LessThan => Some(BinaryOp::Lt),
        SpecTokenType::LessThanEqual => Some(BinaryOp::Lte),
        SpecTokenType::Minus => Some(BinaryOp::Sub),
        SpecTokenType::Plus => Some(BinaryOp::Add),
        SpecTokenType::Slash => Some(BinaryOp::Div),
        SpecTokenType::Star => Some(BinaryOp::Mul),
        _ => None,
    }
}

fn binary_op_of(t: &TokenType) -> (op: BinaryOp)
    requires
        token_binary_op(t@) is Some,
    ensures
        token_binary_op(t@) == Some(op),
{
    match t {
        TokenType::BangEqual => BinaryOp::Ne,
        TokenType::EqualEqual => BinaryOp::Eq,
        TokenType::GreaterThan => BinaryOp::Gt,
        TokenType::GreaterThanEqual => BinaryOp::Gte,
        TokenType::LessThan => BinaryOp::Lt,
        TokenType::LessThanEqual => BinaryOp::Lte,
        TokenType::Minus => BinaryOp::Sub,
        TokenType::Plus => BinaryOp::Add,
        TokenType::Slash => BinaryOp::Div,
        _ => BinaryOp::Mul,
    }
}

/// `{ a; b }`
fn block_of_two(a: Stmt, b: Stmt) -> (s: Stmt)
    ensures
        s@ == SpecStmt::Block(seq![a@, b@]),
{
    let mut v: Vec<Stmt> = Vec::new();
    proof {
        lemma_stmts_view_push(v@, a);
    }
    v.push(a);
    proof {
        lemma_stmts_view_push(v@, b);
    }
    v.push(b);
    assert(stmts_view(v@) =~= seq![a@, b@]);
    Stmt::Block(v)
}

impl Parser {
    // this is a recursive descent parser: each function handles one level of
    // the grammar, and calls down to the levels that bind more tightly

    fn parse_declaration(&mut self) -> (r: ParserResult<Stmt>)
        requires
            old(self).wf(),
        ensures
            old(self).advanced_to(*final(self), r is Ok),
            agrees(r, final(self).current as int, sp_declaration(old(self).ks(), old(self).current as int)),
        decreases old(self).tokens@.len() - old(self).current, 30int,
    {
        proof {
            reveal(sp_declaration);
            reveal(sp_function_declaration);
            reveal(sp_var_declaration);
            reveal(sp_statement);
        }
        if self.next_if(TokenType::Fun) {
            self.parse_function_declaration()
        } else if self.next_if(TokenType::Var) {
            self.parse_var_declaration()
        } else {
            self.parse_statement()
        }
    }

    fn parse_function_declaration(&mut self) -> (r: ParserResult<Stmt>)
        requires
            old(self).wf(),
        ensures
            old(self).advanced_to(*final(self), r is Ok),
            agrees(r, final(self).current as int, sp_function_declaration(old(self).ks(), old(self).current as int)),
        decreases old(self).tokens@.len() - old(self).current, 28int,
    {
        proof {
            reveal(sp_function_declaration);
            reveal(sp_parameters);
            reveal(sp_block);
        }
        let ghost ts = self.ks();
        let ghost pos = self.current as int;
        let name = self.next_if_identifier("Expected function name")?;
        self.next_if_or_err(TokenType::LeftParen, "Expected '(' after function name")?;
        let ghost p1 = self.current as int;
        let mut parameters: Vec<String> = Vec::new();
        assert(names_view(parameters@) =~= Seq::<Seq<char>>::empty());
        if !self.next_is(TokenType::RightParen) {
            loop
                invariant_except_break
                    self.wf(),
                    self.tokens@ == old(self).tokens@,
                    self.ks() == ts,
                    ts == old(self).ks(),
                    pos == old(self).current,
                    p1 == pos + 2,
                    peek(ts, pos) == SpecTokenType::Identifier(name@),
                    peek(ts, pos + 1) is LeftParen,
                    !(peek(ts, p1) is RightParen),
                    p1 <= self.current,
                    sp_parameters(ts, p1, Seq::empty()) == sp_parameters(
                        ts,
                        self.current as int,
                        names_view(parameters@),
                    ),
                ensures
                    self.wf(),
                    self.tokens@ == old(self).tokens@,
                    self.ks() == ts,
                    p1 < self.current,
                    sp_parameters(ts, p1, Seq::empty()) == Ok::<_, (SpecParseError, int)>(
                        (names_view(parameters@), self.current as int),
                    ),
                decreases self.tokens@.len() - self.current,
            {
                proof {
                    reveal(sp_function_declaration);
                    reveal(sp_parameters);
                    reveal(sp_block);
                }
                if parameters.len() >= 255 {
                    return Err(self.build_error("Can't have more than 255 parameters."));
                }
                let parameter = self.next_if_identifier("Expected parameter name")?;
                let ghost before = names_view(parameters@);
                parameters.push(parameter);
                assert(names_view(parameters@) =~= before.push(parameter@));
                if !self.next_if(TokenType::Comma) {
                    break;
                }
            }
        }
        self.next_if_or_err(TokenType::RightParen, "Expected ')' after parameters")?;
        self.next_if_or_err(TokenType::LeftBrace, "Expected '{' before function body")?;
        let body = match self.parse_block()? {
            Stmt::Block(stmts) => stmts,
            _ => {
                proof {
                    assert(false);
                }
                Vec::new()
            },
        };
        Ok(Stmt::Function(FnDefn { name, parameters, body }))
    }

    #[verifier::rlimit(40)]
    fn parse_var_declaration(&mut self) -> (r: ParserResult<Stmt>)
        requires
            old(self).wf(),
        ensures
            old(self).advanced_to(*final(self), r is Ok),
            agrees(r, final(self).current as int, sp_var_declaration(old(self).ks(), old(self).current as int)),
        decreases old(self).tokens@.len() - old(self).current, 28int,
    {
        proof {
            reveal(sp_var_declaration);
            reveal(sp_expression);
        }
        let name = self.next_if_identifier("Missing variable name.")?;
        let val = if self.next_if(TokenType::Equal) {
            Some(self.parse_expression()?)
        } else {
            None
        };
        self.next_if_or_err(TokenType::Semicolon, "Expected ';' after var declaration.")?;
        Ok(Stmt::Var { name, val })
    }

    fn parse_statement(&mut self) -> (r: ParserResult<Stmt>)
        requires
            old(self).wf(),
        ensures
            old(self).advanced_to(*final(self), r is Ok),
            agrees(r, final(self).current as int, sp_statement(old(self).ks(), old(self).current as int)),
        decreases old(self).tokens@.len() - old(self).current, 29int,
    {
        proof {
            reveal(sp_statement);
            reveal(sp_for_statement);
            reveal(sp_if_statement);
            reveal(sp_print_statement);
            reveal(sp_while_statement);
            reveal(sp_block);
            reveal(sp_expression_statement);
        }
        if self.next_if(TokenType::For) {
            self.parse_for_statement()
        } else if self.next_if(TokenType::If) {
            self.parse_if_statement()
        } else if self.next_if(TokenType::Print) {
            self.parse_print_statement()
        } else if self.next_if(TokenType::While) {
            self.print_while_statement()
        } else if self.next_if(TokenType::LeftBrace) {
            self.parse_block()
        } else {
            self.parse_expression_statement()
        }
    }

    fn parse_for_statement(&mut self) -> (r: ParserResult<Stmt>)
        requires
            old(self).wf(),
        ensures
            old(self).advanced_to(*final(self), r is Ok),
            agrees(r, final(self).current as int, sp_for_statement(old(self).ks(), old(self).current as int)),
        decreases old(self).tokens@.len() - old(self).current, 28int,
    {
        proof {
            reveal(sp_for_statement);
            reveal(sp_var_declaration);
            reveal(sp_expression_statement);
            reveal(sp_expression);
            reveal(sp_statement);
        }
        self.next_if_or_err(TokenType::LeftParen, "Expected '(' after 'for'.")?;
        let initializer: Option<Stmt> = if self.next_if(TokenType::Semicolon) {
            None
        } else if self.next_if(TokenType::Var) {
            Some(self.parse_var_declaration()?)
        } else {
            Some(self.parse_expression_statement()?)
        };
        // an expression if present, and in any case a semicolon
        let condition = if self.next_is(TokenType::Semicolon) {
            None
        } else {
            Some(self.parse_expression()?)
        };
        self.next_if_or_err(TokenType::Semicolon, "Expected ';' after loop condition.")?;
        // an expression if present, and in any case a right paren
        let increment = if self.next_is(TokenType::RightParen) {
            None
        } else {
            Some(self.parse_expression()?)
        };
        self.next_if_or_err(TokenType::RightParen, "Expected ')' after 'for' clauses.")?;
        let mut body = self.parse_statement()?;
        // for (A; B; C) D  becomes  { A; while (B) { D; C; } }
        if let Some(increment) = increment {
            body = block_of_two(body, Stmt::Expression(increment));
        }
        body = Stmt::While {
            condition: match condition {
                Some(c) => c,
                // with no condition, the loop is a `while (true)`
                None => Expr::Literal(Literal::True),
            },
            body: Box::new(body),
        };
        if let Some(initializer) = initializer {
            body = block_of_two(initializer, body);
        }
        Ok(body)
    }

    fn parse_if_statement(&mut self) -> (r: ParserResult<Stmt>)
        requires
            old(self).wf(),
        ensures
            old(self).advanced_to(*final(self), r is Ok),
            agrees(r, final(self).current as int, sp_if_statement(old(self).ks(), old(self).current as int)),
        decreases old(self).tokens@.len() - old(self).current, 28int,
    {
        proof {
            reveal(sp_if_statement);
            reveal(sp_expression);
            reveal(sp_statement);
        }
        self.next_if_or_err(TokenType::LeftParen, "Expected '(' after 'if'.")?;
        let condition = self.parse_expression()?;
        self.next_if_or_err(TokenType::RightParen, "Expected ')' after if condition.")?;
        let then_branch = Box::new(self.parse_statement()?);
        let else_branch = if self.next_if(TokenType::Else) {
            Some(Box::new(self.parse_statement()?))
        } else {
            None
        };
        Ok(Stmt::If { condition, then_branch, else_branch })
    }

    fn parse_print_statement(&mut self) -> (r: ParserResult<Stmt>)
        requires
            old(self).wf(),
        ensures
            old(self).advanced_to(*final(self), r is Ok),
            agrees(r, final(self).current as int, sp_print_statement(old(self).ks(), old(self).current as int)),
        decreases old(self).tokens@.len() - old(self).current, 28int,
    {
        proof {
            reveal(sp_print_statement);
            reveal(sp_expression);
        }
        let value = self.parse_expression()?;
        self.next_if_or_err(TokenType::Semicolon, "Expected ';' after statement.")?;
        Ok(Stmt::Print(value))
    }

    fn print_while_statement(&mut self) -> (r: ParserResult<Stmt>)
        requires
            old(self).wf(),
        ensures
            old(self).advanced_to(*final(self), r is Ok),
            agrees(r, final(self).current as int, sp_while_statement(old(self).ks(), old(self).current as int)),
        decreases old(self).tokens@.len() - old(self).current, 28int,
    {
        proof {
            reveal(sp_while_statement);
            reveal(sp_expression);
            reveal(sp_statement);
        }
        self.next_if_or_err(TokenType::LeftParen, "Expected '(' after 'while'.")?;
        let condition = self.parse_expression()?;
        self.next_if_or_err(TokenType::RightParen, "Expected ')' after condition.")?;
        let body = Box::new(self.parse_statement()?);
        Ok(Stmt::While { condition, body })
    }

    fn parse_block(&mut self) -> (r: ParserResult<Stmt>)
        requires
            old(self).wf(),
        ensures
            old(self).advanced_to(*final(self), r is Ok),
            agrees(r, final(self).current as int, sp_block_stmt(old(self).ks(), old(self).current as int)),
        decreases old(self).tokens@.len() - old(self).current, 32int,
    {
        proof {
            reveal(sp_block);
            reveal(sp_block_items);
            reveal(sp_declaration);
        }
        let ghost ts = self.ks();
        let ghost pos = self.current as int;
        let mut res: Vec<Stmt> = Vec::new();
        while !self.next_is(TokenType::RightBrace) && !self.is_at_end()
            invariant
                self.wf(),
                self.tokens@ == old(self).tokens@,
                self.ks() == ts,
                ts == old(self).ks(),
                pos == old(self).current,
                pos <= self.current,
                sp_block_items(ts, pos, Seq::empty()) == sp_block_items(
                    ts,
                    self.current as int,
                    stmts_view(res@),
                ),
            decreases self.tokens@.len() - self.current,
        {
            proof {
                reveal(sp_block);
                reveal(sp_block_items);
                reveal(sp_declaration);
                self.lemma_in_bounds();
            }
            let statement = self.parse_declaration()?;
            proof {
                self.lemma_in_bounds();
                lemma_stmts_view_push(res@, statement);
            }
            res.push(statement);
        }
        self.next_if_or_err(TokenType::RightBrace, "Expected '}' after block.")?;
        Ok(Stmt::Block(res))
    }

    fn parse_expression_statement(&mut self) -> (r: ParserResult<Stmt>)
        requires
            old(self).wf(),
        ensures
            old(self).advanced_to(*final(self), r is Ok),
            agrees(r, final(self).current as int, sp_expression_statement(old(self).ks(), old(self).current as int)),
        decreases old(self).tokens@.len() - old(self).current, 28int,
    {
        proof {
            reveal(sp_expression_statement);
            reveal(sp_expression);
        }
        let value = self.parse_expression()?;
        self.next_if_or_err(TokenType::Semicolon, "Expected ';' after statement.")?;
        Ok(Stmt::Expression(value))
    }

    fn parse_expression(&mut self) -> (r: ParserResult<Expr>)
        requires
            old(self).wf(),
        ensures
            old(self).advanced_to(*final(self), r is Ok),
            agrees(r, final(self).current as int, sp_expression(old(self).ks(), old(self).current as int)),
        decreases old(self).tokens@.len() - old(self).current, 25int,
    {
        proof {
            reveal(sp_expression);
            reveal(sp_assignment);
        }
        self.parse_assignment()
    }

    fn parse_assignment(&mut self) -> (r: ParserResult<Expr>)
        requires
            old(self).wf(),
        ensures
            old(self).advanced_to(*final(self), r is Ok),
            agrees(r, final(self).current as int, sp_assignment(old(self).ks(), old(self).current as int)),
        decreases old(self).tokens@.len() - old(self).current, 24int,
    {
        proof {
            reveal(sp_assignment);
            reveal(sp_logical_or);
        }
        let expr = self.parse_logical_or()?;
        proof {
            self.lemma_in_bounds();
        }
        if self.next_if(TokenType::Equal) {
            let value = self.parse_assignment()?;
            return match expr {
                Expr::Variable(name) => Ok(Expr::Assign { name, value: Box::new(value) }),
                _ => Err(self.build_error("Invalid assignment target.")),
            };
        }
        Ok(expr)
    }

    fn parse_logical_or(&mut self) -> (r: ParserResult<Expr>)
        requires
            old(self).wf(),
        ensures
            old(self).advanced_to(*final(self), r is Ok),
            agrees(r, final(self).current as int, sp_logical_or(old(self).ks(), old(self).current as int)),
        decreases old(self).tokens@.len() - old(self).current, 23int,
    {
        proof {
            reveal(sp_logical_or);
            reveal(sp_or_rest);
            reveal(sp_logical_and);
        }
        let ghost ts = self.ks();
        let ghost pos = self.current as int;
        let mut expr = self.parse_logical_and()?;
        proof {
            self.lemma_in_bounds();
        }
        loop
            invariant
                self.wf(),
                self.tokens@ == old(self).tokens@,
                self.ks() == ts,
                ts == old(self).ks(),
                pos == old(self).current,
                pos < self.current,
                sp_logical_or(ts, pos) == sp_or_rest(ts, self.current as int, expr@),
            decreases self.tokens@.len() - self.current,
        {
            proof {
                reveal(sp_or_rest);
                reveal(sp_logical_and);
            }
            if !self.next_if(TokenType::Or) {
                return Ok(expr);
            }
            let right = self.parse_logical_and()?;
            proof {
                self.lemma_in_bounds();
            }
            expr = Expr::Logical { left: Box::new(expr), op: LogicalOp::Or, right: Box::new(right) };
        }
    }

    fn parse_logical_and(&mut self) -> (r: ParserResult<Expr>)
        requires
            old(self).wf(),
        ensures
            old(self).advanced_to(*final(self), r is Ok),
            agrees(r, final(self).current as int, sp_logical_and(old(self).ks(), old(self).current as int)),
        decreases old(self).tokens@.len() - old(self).current, 21int,
    {
        proof {
            reveal(sp_logical_and);
            reveal(sp_and_rest);
            reveal(sp_equality);
        }
        let ghost ts = self.ks();
        let ghost pos = self.current as int;
        let mut expr = self.parse_equality()?;
        proof {
            self.lemma_in_bounds();
        }
        loop
            invariant
                self.wf(),
                self.tokens@ == old(self).tokens@,
                self.ks() == ts,
                ts == old(self).ks(),
                pos == old(self).current,
                pos < self.current,
                sp_logical_and(ts, pos) == sp_and_rest(ts, self.current as int, expr@),
            decreases self.tokens@.len() - self.current,
        {
            proof {
                reveal(sp_and_rest);
                reveal(sp_equality);
            }
            if !self.next_if(TokenType::And) {
                return Ok(expr);
            }
            let right = self.parse_equality()?;
            proof {
                self.lemma_in_bounds();
            }
            expr = Expr::Logical { left: Box::new(expr), op: LogicalOp::And, right: Box::new(right) };
        }
    }

    fn parse_equality(&mut self) -> (r: ParserResult<Expr>)
        requires
            old(self).wf(),
        ensures
            old(self).advanced_to(*final(self), r is Ok),
            agrees(r, final(self).current as int, sp_equality(old(self).ks(), old(self).current as int)),
        decreases old(self).tokens@.len() - old(self).current, 19int,
    {
        proof {
            reveal(sp_equality);
            reveal(sp_equality_rest);
            reveal(sp_comparison);
        }
        let ghost ts = self.ks();
        let ghost pos = self.current as int;
        let mut expr = self.parse_comparison()?;
        proof {
            self.lemma_in_bounds();
        }
        loop
            invariant
                self.wf(),
                self.tokens@ == old(self).tokens@,
                self.ks() == ts,
                ts == old(self).ks(),
                pos == old(self).current,
                pos < self.current,
                sp_equality(ts, pos) == sp_equality_rest(ts, self.current as int, expr@),
            decreases self.tokens@.len() - self.current,
        {
            proof {
                reveal(sp_equality_rest);
                reveal(sp_comparison);
            }
            let matched = if self.next_if(TokenType::BangEqual) {
                true
            } else {
                self.next_if(TokenType::EqualEqual)
            };
            if !matched {
                return Ok(expr);
            }
            let op = binary_op_of(&self.previous().value);
            let right = self.parse_comparison()?;
            proof {
                self.lemma_in_bounds();
            }
            expr = Expr::Binary { left: Box::new(expr), op, right: Box::new(right) };
        }
    }

    fn parse_comparison(&mut self) -> (r: ParserResult<Expr>)
        requires
            old(self).wf(),
        ensures
            old(self).advanced_to(*final(self), r is Ok),
            agrees(r, final(self).current as int, sp_comparison(old(self).ks(), old(self).current as int)),
        decreases old(self).tokens@.len() - old(self).current, 17int,
    {
        proof {
            reveal(sp_comparison);
            reveal(sp_comparison_rest);
            reveal(sp_term);
        }
        let ghost ts = self.ks();
        let ghost pos = self.current as int;
        let mut expr = self.parse_term()?;
        proof {
            self.lemma_in_bounds();
        }
        loop
            invariant
                self.wf(),
                self.tokens@ == old(self).tokens@,
                self.ks() == ts,
                ts == old(self).ks(),
                pos == old(self).current,
                pos < self.current,
                sp_comparison(ts, pos) == sp_comparison_rest(ts, self.current as int, expr@),
            decreases self.tokens@.len() - self.current,
        {
            proof {
                reveal(sp_comparison_rest);
                reveal(sp_term);
            }
            let matched = if self.next_if(TokenType::GreaterThan) {
                true
            } else if self.next_if(TokenType::GreaterThanEqual) {
                true
            } else if self.next_if(TokenType::LessThan) {
                true
            } else {
                self.next_if(TokenType::LessThanEqual)
            };
            if !matched {
                return Ok(expr);
            }
            let op = binary_op_of(&self.previous().value);
            let right = self.parse_term()?;
            proof {
                self.lemma_in_bounds();
            }
            expr = Expr::Binary { left: Box::new(expr), op, right: Box::new(right) };
        }
    }

    // addition / subtraction
    fn parse_term(&mut self) -> (r: ParserResult<Expr>)
        requires
            old(self).wf(),
        ensures
            old(self).advanced_to(*final(self), r is Ok),
            agrees(r, final(self).current as int, sp_term(old(self).ks(), old(self).current as int)),
        decreases old(self).tokens@.len() - old(self).current, 15int,
    {
        proof {
            reveal(sp_term);
            reveal(sp_term_rest);
            reveal(sp_factor);
        }
        let ghost ts = self.ks();
        let ghost pos = self.current as int;
        let mut expr = self.parse_factor()?;
        proof {
            self.lemma_in_bounds();
        }
        loop
            invariant
                self.wf(),
                self.tokens@ == old(self).tokens@,
                self.ks() == ts,
                ts == old(self).ks(),
                pos == old(self).current,
                pos < self.current,
                sp_term(ts, pos) == sp_term_rest(ts, self.current as int, expr@),
            decreases self.tokens@.len() - self.current,
        {
            proof {
                reveal(sp_term_rest);
                reveal(sp_factor);
            }
            let matched = if self.next_if(TokenType::Minus) {
                true
            } else {
                self.next_if(TokenType::Plus)
            };
            if !matched {
                return Ok(expr);
            }
            let op = binary_op_of(&self.previous().value);
            let right = self.parse_factor()?;
            proof {
                self.lemma_in_bounds();
            }
            expr = Expr::Binary { left: Box::new(expr), op, right: Box::new(right) };
        }
    }

    // multiplication / division
    fn parse_factor(&mut self) -> (r: ParserResult<Expr>)
        requires
            old(self).wf(),
        ensures
            old(self).advanced_to(*final(self), r is Ok),
            agrees(r, final(self).current as int, sp_factor(old(self).ks(), old(self).current as int)),
        decreases old(self).tokens@.len() - old(self).current, 13int,
    {
        proof {
            reveal(sp_factor);
            reveal(sp_factor_rest);
            reveal(sp_unary);
        }
        let ghost ts = self.ks();
        let ghost pos = self.current as int;
        let mut expr = self.parse_unary()?;
        proof {
            self.lemma_in_bounds();
        }
        loop
            invariant
                self.wf(),
                self.tokens@ == old(self).tokens@,
                self.ks() == ts,
                ts == old(self).ks(),
                pos == old(self).current,
                pos < self.current,
                sp_factor(ts, pos) == sp_factor_rest(ts, self.current as int, expr@),
            decreases self.tokens@.len() - self.current,
        {
            proof {
                reveal(sp_factor_rest);
                reveal(sp_unary);
            }
            let matched = if self.next_if(TokenType::Slash) {
                true
            } else {
                self.next_if(TokenType::Star)
            };
            if !matched {
                return Ok(expr);
            }
            let op = binary_op_of(&self.previous().value);
            let right = self.parse_unary()?;
            proof {
                self.lemma_in_bounds();
            }
            expr = Expr::Binary { left: Box::new(expr), op, right: Box::new(right) };
        }
    }

    // prefix operators, like `!true` and `-1`
    fn parse_unary(&mut self) -> (r: ParserResult<Expr>)
        requires
            old(self).wf(),
        ensures
            old(self).advanced_to(*final(self), r is Ok),
            agrees(r, final(self).current as int, sp_unary(old(self).ks(), old(self).current as int)),
        decreases old(self).tokens@.len() - old(self).current, 11int,
    {
        proof {
            reveal(sp_unary);
            reveal(sp_call);
        }
        if self.next_if(TokenType::Bang) {
            let expr = self.parse_unary()?;
            Ok(Expr::Unary { op: UnaryOp::Not, expr: Box::new(expr) })
        } else if self.next_if(TokenType::Minus) {
            let expr = self.parse_unary()?;
            Ok(Expr::Unary { op: UnaryOp::Neg, expr: Box::new(expr) })
        } else {
            self.parse_call()
        }
    }

    /// invoking anything that's callable
    fn parse_call(&mut self) -> (r: ParserResult<Expr>)
        requires
            old(self).wf(),
        ensures
            old(self).advanced_to(*final(self), r is Ok),
            agrees(r, final(self).current as int, sp_call(old(self).ks(), old(self).current as int)),
        decreases old(self).tokens@.len() - old(self).current, 10int,
    {
        proof {
            reveal(sp_call);
            reveal(sp_call_rest);
            reveal(sp_primary);
            reveal(sp_finish_call);
        }
        let ghost ts = self.ks();
        let ghost pos = self.current as int;
        let mut expr = self.parse_primary()?;
        proof {
            self.lemma_in_bounds();
        }
        loop
            invariant
                self.wf(),
                self.tokens@ == old(self).tokens@,
                self.ks() == ts,
                ts == old(self).ks(),
                pos == old(self).current,
                pos < self.current,
                sp_call(ts, pos) == sp_call_rest(ts, self.current as int, expr@),
            decreases self.tokens@.len() - self.current,
        {
            proof {
                reveal(sp_call_rest);
                reveal(sp_finish_call);
            }
            if !self.next_if(TokenType::LeftParen) {
                return Ok(expr);
            }
            expr = self.finish_call(expr)?;
            proof {
                self.lemma_in_bounds();
            }
        }
    }

    fn finish_call(&mut self, callee: Expr) -> (r: ParserResult<Expr>)
        requires
            old(self).wf(),
        ensures
            old(self).advanced_to(*final(self), r is Ok),
            agrees(
                r,
                final(self).current as int,
                sp_finish_call(old(self).ks(), old(self).current as int, callee@),
            ),
        decreases old(self).tokens@.len() - old(self).current, 27int,
    {
        proof {
            reveal(sp_finish_call);
            reveal(sp_arguments);
            reveal(sp_expression);
        }
        let ghost ts = self.ks();
        let ghost pos = self.current as int;
        let ghost callee_view = callee@;
        let mut arguments: Vec<Expr> = Vec::new();
        if !self.next_is(TokenType::RightParen) {
            loop
                invariant_except_break
                    self.wf(),
                    self.tokens@ == old(self).tokens@,
                    self.ks() == ts,
                    ts == old(self).ks(),
                    pos == old(self).current,
                    callee_view == callee@,
                    !(peek(ts, pos) is RightParen),
                    pos <= self.current,
                    sp_arguments(ts, pos, Seq::empty()) == sp_arguments(
                        ts,
                        self.current as int,
                        exprs_view(arguments@),
                    ),
                ensures
                    self.wf(),
                    self.tokens@ == old(self).tokens@,
                    self.ks() == ts,
                    pos < self.current,
                    sp_arguments(ts, pos, Seq::empty()) == Ok::<_, (SpecParseError, int)>(
                        (exprs_view(arguments@), self.current as int),
                    ),
                decreases self.tokens@.len() - self.current,
            {
                proof {
                    reveal(sp_finish_call);
                    reveal(sp_arguments);
                    reveal(sp_expression);
                }
                let argument = self.parse_expression()?;
                proof {
                    self.lemma_in_bounds();
                    lemma_exprs_view_push(arguments@, argument);
                }
                arguments.push(argument);
                if !self.next_if(TokenType::Comma) {
                    break;
                }
            }
        }
        self.next_if_or_err(TokenType::RightParen, "Expected ')' after arguments")?;
        Ok(Expr::Call { callee: Box::new(callee), arguments })
    }

    // the base case, with the highest precedence: literals no longer recurse
    fn parse_primary(&mut self) -> (r: ParserResult<Expr>)
        requires
            old(self).wf(),
        ensures
            old(self).advanced_to(*final(self), r is Ok),
            agrees(r, final(self).current as int, sp_primary(old(self).ks(), old(self).current as int)),
        decreases old(self).tokens@.len() - old(self).current, 8int,
    {
        proof {
            reveal(sp_primary);
            reveal(sp_expression);
            self.lemma_in_bounds();
        }
        let literal = match self.peek() {
            TokenType::Nil => Some(Literal::Nil),
            TokenType::True => Some(Literal::True),
            TokenType::False => Some(Literal::False),
            TokenType::String(s) => Some(Literal::String(s.clone())),
            TokenType::Number(s) => Some(Literal::Number(s.clone())),
            _ => None,
        };
        if let Some(literal) = literal {
            self.next();
            return Ok(Expr::Literal(literal));
        }
        let name = match self.peek() {
            TokenType::Identifier(name) => Some(name.clone()),
            _ => None,
        };
        if let Some(name) = name {
            self.next();
            return Ok(Expr::Variable(name));
        }
        // otherwise, try a grouping
        if self.next_if(TokenType::LeftParen) {
            let expr = self.parse_expression()?;
            self.next_if_or_err(TokenType::RightParen, "Missing ')' after expression.")?;
            return Ok(Expr::Grouping(Box::new(expr)));
        }
        Err(ParseError::ExpectedExpression { found: self.peek().duplicate() })
    }
}

} // verus!

verus! {

/// Parses the tokens of a whole program. Its statements when no declaration
/// is in error; otherwise one error that lists every parse error, a line each.
pub fn parse(tokens: Tokens) -> (r: Result<Ast, LoxError>)
    requires
        has_eof_from(kinds(tokens@), 0),
    ensures
        ({
            let (stmts, errors) = sp_program(kinds(tokens@), 0, Seq::empty(), Seq::empty());
            match r {
                Ok(ast) => errors.len() == 0 && ast@ == stmts,
                Err(e) => errors.len() > 0 && e.message@ == joined(parse_error_texts(errors)),
            }
        }),
{
    assert(kinds(tokens@) =~= token_kinds(tokens.tokens@));
    match Parser::new(tokens.tokens).parse() {
        Ok(ast) => Ok(ast),
        Err(errors) => {
            let mut messages: Vec<String> = Vec::new();
            let mut i: usize = 0;
            while i < errors.len()
                invariant
                    i <= errors@.len(),
                    texts(messages@) == parse_error_texts(parse_errors_view(errors@)).take(i as int),
                decreases errors@.len() - i,
            {
                let m = errors[i].message();
                let ghost before = texts(messages@);
                messages.push(m);
                assert(texts(messages@) =~= before.push(m@));
                assert(parse_error_texts(parse_errors_view(errors@)).take(i + 1) =~= before.push(m@));
                i = i + 1;
            }
            assert(texts(messages@) =~= parse_error_texts(parse_errors_view(errors@)));
            Err(join_errors(messages))
        },
    }
}

} // verus!
