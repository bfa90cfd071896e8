//! How far the grammar reads: every rule moves forward through the tokens
//! and never past their `Eof`, and the rules that parse something take at
//! least one token.
use vstd::prelude::*;

use crate::parser::{
    at_end, has_eof_from, lemma_eof_bound, lemma_eof_step, peek, sp_and_rest, sp_arguments,
    sp_assignment, sp_block, sp_block_items, sp_call, sp_call_rest, sp_comparison,
    sp_comparison_rest, sp_declaration, sp_equality, sp_equality_rest, sp_expression,
    sp_expression_statement, sp_factor, sp_factor_rest, sp_finish_call, sp_for_statement,
    sp_function_declaration, sp_if_statement, sp_logical_and, sp_logical_or, sp_or_rest,
    sp_parameters, sp_primary, sp_print_statement, sp_statement, sp_term, sp_term_rest, sp_unary,
    sp_var_declaration, sp_while_statement, PResult,
};
use crate::parser::{lemma_synchronize, sp_program, sp_synchronize, SpecParseError};
use crate::ast::{SpecExpr, SpecStmt};
use crate::scanner::SpecTokenType;

verus! {

/// A rule started at `pos` ended at or after it with an `Eof` still ahead,
/// and strictly after it when `strict` and it parsed something; an error was
/// found at or after `pos`, again with an `Eof` ahead.
pub open spec fn stays_ahead<T>(r: PResult<T>, ts: Seq<SpecTokenType>, pos: int, strict: bool) -> bool {
    match r {
        Ok((_, p)) => pos <= p && (strict ==> pos < p) && has_eof_from(ts, p),
        Err((_, q)) => pos <= q && has_eof_from(ts, q),
    }
}

/// Reading the token at `pos`, which is not `Eof`.
proof fn lemma_read(ts: Seq<SpecTokenType>, pos: int)
    requires
        0 <= pos,
        has_eof_from(ts, pos),
        !at_end(ts, pos),
    ensures
        pos < ts.len(),
        has_eof_from(ts, pos + 1),
{
    lemma_eof_bound(ts, pos);
    lemma_eof_step(ts, pos);
}

proof fn lemma_expression(ts: Seq<SpecTokenType>, pos: int)
    requires
        0 <= pos,
        has_eof_from(ts, pos),
    ensures
        stays_ahead(sp_expression(ts, pos), ts, pos, true),
    decreases ts.len() - pos, 25int,
{
    reveal(sp_expression);
    reveal(sp_assignment);
    lemma_assignment(ts, pos);
}

proof fn lemma_assignment(ts: Seq<SpecTokenType>, pos: int)
    requires
        0 <= pos,
        has_eof_from(ts, pos),
    ensures
        stays_ahead(sp_assignment(ts, pos), ts, pos, true),
    decreases ts.len() - pos, 24int,
{
    reveal(sp_assignment);
    reveal(sp_logical_or);
    lemma_logical_or(ts, pos);
    if let Ok((_, p)) = sp_logical_or(ts, pos) {
        if peek(ts, p) is Equal {
            lemma_read(ts, p);
            lemma_eof_bound(ts, p);
            lemma_assignment(ts, p + 1);
        }
    }
}

proof fn lemma_logical_or(ts: Seq<SpecTokenType>, pos: int)
    requires
        0 <= pos,
        has_eof_from(ts, pos),
    ensures
        stays_ahead(sp_logical_or(ts, pos), ts, pos, true),
    decreases ts.len() - pos, 23int,
{
    reveal(sp_logical_or);
    reveal(sp_logical_and);
    reveal(sp_or_rest);
    lemma_logical_and(ts, pos);
    if let Ok((left, p)) = sp_logical_and(ts, pos) {
        lemma_eof_bound(ts, p);
        lemma_or_rest(ts, p, left);
    }
}

proof fn lemma_or_rest(ts: Seq<SpecTokenType>, pos: int, left: SpecExpr)
    requires
        0 <= pos,
        has_eof_from(ts, pos),
    ensures
        stays_ahead(sp_or_rest(ts, pos, left), ts, pos, false),
    decreases ts.len() - pos, 22int,
{
    reveal(sp_or_rest);
    reveal(sp_logical_and);
    if peek(ts, pos) is Or {
        lemma_read(ts, pos);
        lemma_logical_and(ts, pos + 1);
        if let Ok((right, q)) = sp_logical_and(ts, pos + 1) {
            lemma_eof_bound(ts, q);
            lemma_or_rest(ts, q, SpecExpr::Logical {
                left: Box::new(left),
                op: crate::ast::LogicalOp::Or,
                right: Box::new(right),
            });
        }
    }
}

proof fn lemma_logical_and(ts: Seq<SpecTokenType>, pos: int)
    requires
        0 <= pos,
        has_eof_from(ts, pos),
    ensures
        stays_ahead(sp_logical_and(ts, pos), ts, pos, true),
    decreases ts.len() - pos, 21int,
{
    reveal(sp_logical_and);
    reveal(sp_equality);
    reveal(sp_and_rest);
    lemma_equality(ts, pos);
    if let Ok((left, p)) = sp_equality(ts, pos) {
        lemma_eof_bound(ts, p);
        lemma_and_rest(ts, p, left);
    }
}

proof fn lemma_and_rest(ts: Seq<SpecTokenType>, pos: int, left: SpecExpr)
    requires
        0 <= pos,
        has_eof_from(ts, pos),
    ensures
        stays_ahead(sp_and_rest(ts, pos, left), ts, pos, false),
    decreases ts.len() - pos, 20int,
{
    reveal(sp_and_rest);
    reveal(sp_equality);
    if peek(ts, pos) is And {
        lemma_read(ts, pos);
        lemma_equality(ts, pos + 1);
        if let Ok((right, q)) = sp_equality(ts, pos + 1) {
            lemma_eof_bound(ts, q);
            lemma_and_rest(ts, q, SpecExpr::Logical {
                left: Box::new(left),
                op: crate::ast::LogicalOp::And,
                right: Box::new(right),
            });
        }
    }
}

proof fn lemma_equality(ts: Seq<SpecTokenType>, pos: int)
    requires
        0 <= pos,
        has_eof_from(ts, pos),
    ensures
        stays_ahead(sp_equality(ts, pos), ts, pos, true),
    decreases ts.len() - pos, 19int,
{
    reveal(sp_equality);
    reveal(sp_comparison);
    reveal(sp_equality_rest);
    lemma_comparison(ts, pos);
    if let Ok((left, p)) = sp_comparison(ts, pos) {
        lemma_eof_bound(ts, p);
        lemma_equality_rest(ts, p, left);
    }
}

proof fn lemma_equality_rest(ts: Seq<SpecTokenType>, pos: int, left: SpecExpr)
    requires
        0 <= pos,
        has_eof_from(ts, pos),
    ensures
        stays_ahead(sp_equality_rest(ts, pos, left), ts, pos, false),
    decreases ts.len() - pos, 18int,
{
    reveal(sp_equality_rest);
    reveal(sp_comparison);
    if let Some(op) = crate::parser::equality_op(peek(ts, pos)) {
        lemma_read(ts, pos);
        lemma_comparison(ts, pos + 1);
        if let Ok((right, q)) = sp_comparison(ts, pos + 1) {
            lemma_eof_bound(ts, q);
            lemma_equality_rest(ts, q, crate::parser::binary(left, op, right));
        }
    }
}

proof fn lemma_comparison(ts: Seq<SpecTokenType>, pos: int)
    requires
        0 <= pos,
        has_eof_from(ts, pos),
    ensures
        stays_ahead(sp_comparison(ts, pos), ts, pos, true),
    decreases ts.len() - pos, 17int,
{
    reveal(sp_comparison);
    reveal(sp_term);
    reveal(sp_comparison_rest);
    lemma_term(ts, pos);
    if let Ok((left, p)) = sp_term(ts, pos) {
        lemma_eof_bound(ts, p);
        lemma_comparison_rest(ts, p, left);
    }
}

proof fn lemma_comparison_rest(ts: Seq<SpecTokenType>, pos: int, left: SpecExpr)
    requires
        0 <= pos,
        has_eof_from(ts, pos),
    ensures
        stays_ahead(sp_comparison_rest(ts, pos, left), ts, pos, false),
    decreases ts.len() - pos, 16int,
{
    reveal(sp_comparison_rest);
    reveal(sp_term);
    if let Some(op) = crate::parser::comparison_op(peek(ts, pos)) {
        lemma_read(ts, pos);
        lemma_term(ts, pos + 1);
        if let Ok((right, q)) = sp_term(ts, pos + 1) {
            lemma_eof_bound(ts, q);
            lemma_comparison_rest(ts, q, crate::parser::binary(left, op, right));
        }
    }
}

proof fn lemma_term(ts: Seq<SpecTokenType>, pos: int)
    requires
        0 <= pos,
        has_eof_from(ts, pos),
    ensures
        stays_ahead(sp_term(ts, pos), ts, pos, true),
    decreases ts.len() - pos, 15int,
{
    reveal(sp_term);
    reveal(sp_factor);
    reveal(sp_term_rest);
    lemma_factor(ts, pos);
    if let Ok((left, p)) = sp_factor(ts, pos) {
        lemma_eof_bound(ts, p);
        lemma_term_rest(ts, p, left);
    }
}

proof fn lemma_term_rest(ts: Seq<SpecTokenType>, pos: int, left: SpecExpr)
    requires
        0 <= pos,
        has_eof_from(ts, pos),
    ensures
        stays_ahead(sp_term_rest(ts, pos, left), ts, pos, false),
    decreases ts.len() - pos, 14int,
{
    reveal(sp_term_rest);
    reveal(sp_factor);
    if let Some(op) = crate::parser::term_op(peek(ts, pos)) {
        lemma_read(ts, pos);
        lemma_factor(ts, pos + 1);
        if let Ok((right, q)) = sp_factor(ts, pos + 1) {
            lemma_eof_bound(ts, q);
            lemma_term_rest(ts, q, crate::parser::binary(left, op, right));
        }
    }
}

proof fn lemma_factor(ts: Seq<SpecTokenType>, pos: int)
    requires
        0 <= pos,
        has_eof_from(ts, pos),
    ensures
        stays_ahead(sp_factor(ts, pos), ts, pos, true),
    decreases ts.len() - pos, 13int,
{
    reveal(sp_factor);
    reveal(sp_unary);
    reveal(sp_factor_rest);
    lemma_unary(ts, pos);
    if let Ok((left, p)) = sp_unary(ts, pos) {
        lemma_eof_bound(ts, p);
        lemma_factor_rest(ts, p, left);
    }
}

proof fn lemma_factor_rest(ts: Seq<SpecTokenType>, pos: int, left: SpecExpr)
    requires
        0 <= pos,
        has_eof_from(ts, pos),
    ensures
        stays_ahead(sp_factor_rest(ts, pos, left), ts, pos, false),
    decreases ts.len() - pos, 12int,
{
    reveal(sp_factor_rest);
    reveal(sp_unary);
    if let Some(op) = crate::parser::factor_op(peek(ts, pos)) {
        lemma_read(ts, pos);
        lemma_unary(ts, pos + 1);
        if let Ok((right, q)) = sp_unary(ts, pos + 1) {
            lemma_eof_bound(ts, q);
            lemma_factor_rest(ts, q, crate::parser::binary(left, op, right));
        }
    }
}

proof fn lemma_unary(ts: Seq<SpecTokenType>, pos: int)
    requires
        0 <= pos,
        has_eof_from(ts, pos),
    ensures
        stays_ahead(sp_unary(ts, pos), ts, pos, true),
    decreases ts.len() - pos, 11int,
{
    reveal(sp_unary);
    reveal(sp_call);
    if crate::parser::unary_op(peek(ts, pos)) is Some {
        lemma_read(ts, pos);
        lemma_unary(ts, pos + 1);
    } else {
        lemma_call(ts, pos);
    }
}

proof fn lemma_call(ts: Seq<SpecTokenType>, pos: int)
    requires
        0 <= pos,
        has_eof_from(ts, pos),
    ensures
        stays_ahead(sp_call(ts, pos), ts, pos, true),
    decreases ts.len() - pos, 10int,
{
    reveal(sp_call);
    reveal(sp_primary);
    reveal(sp_call_rest);
    lemma_primary(ts, pos);
    if let Ok((callee, p)) = sp_primary(ts, pos) {
        lemma_eof_bound(ts, p);
        lemma_call_rest(ts, p, callee);
    }
}

proof fn lemma_call_rest(ts: Seq<SpecTokenType>, pos: int, callee: SpecExpr)
    requires
        0 <= pos,
        has_eof_from(ts, pos),
    ensures
        stays_ahead(sp_call_rest(ts, pos, callee), ts, pos, false),
    decreases ts.len() - pos, 9int,
{
    reveal(sp_call_rest);
    reveal(sp_finish_call);
    if peek(ts, pos) is LeftParen {
        lemma_read(ts, pos);
        lemma_finish_call(ts, pos + 1, callee);
        if let Ok((call, q)) = sp_finish_call(ts, pos + 1, callee) {
            lemma_eof_bound(ts, q);
            lemma_call_rest(ts, q, call);
        }
    }
}

proof fn lemma_finish_call(ts: Seq<SpecTokenType>, pos: int, callee: SpecExpr)
    requires
        0 <= pos,
        has_eof_from(ts, pos),
    ensures
        stays_ahead(sp_finish_call(ts, pos, callee), ts, pos, true),
    decreases ts.len() - pos, 27int,
{
    reveal(sp_finish_call);
    reveal(sp_arguments);
    if !(peek(ts, pos) is RightParen) {
        lemma_arguments(ts, pos, Seq::empty());
    }
    let args = if peek(ts, pos) is RightParen {
        Ok((Seq::<SpecExpr>::empty(), pos))
    } else {
        sp_arguments(ts, pos, Seq::empty())
    };
    if let Ok((_, p)) = args {
        if peek(ts, p) is RightParen {
            lemma_read(ts, p);
        }
    }
}

proof fn lemma_arguments(ts: Seq<SpecTokenType>, pos: int, acc: Seq<SpecExpr>)
    requires
        0 <= pos,
        has_eof_from(ts, pos),
    ensures
        stays_ahead(sp_arguments(ts, pos, acc), ts, pos, true),
    decreases ts.len() - pos, 26int,
{
    reveal(sp_arguments);
    reveal(sp_expression);
    lemma_expression(ts, pos);
    if let Ok((arg, p)) = sp_expression(ts, pos) {
        if peek(ts, p) is Comma {
            lemma_read(ts, p);
            lemma_eof_bound(ts, p);
            lemma_arguments(ts, p + 1, acc.push(arg));
        }
    }
}

proof fn lemma_primary(ts: Seq<SpecTokenType>, pos: int)
    requires
        0 <= pos,
        has_eof_from(ts, pos),
    ensures
        stays_ahead(sp_primary(ts, pos), ts, pos, true),
    decreases ts.len() - pos, 8int,
{
    reveal(sp_primary);
    reveal(sp_expression);
    if !at_end(ts, pos) {
        lemma_read(ts, pos);
    }
    if peek(ts, pos) is LeftParen {
        lemma_expression(ts, pos + 1);
        if let Ok((_, q)) = sp_expression(ts, pos + 1) {
            if peek(ts, q) is RightParen {
                lemma_read(ts, q);
            }
        }
    }
}

proof fn lemma_expression_statement(ts: Seq<SpecTokenType>, pos: int)
    requires
        0 <= pos,
        has_eof_from(ts, pos),
    ensures
        stays_ahead(sp_expression_statement(ts, pos), ts, pos, true),
    decreases ts.len() - pos, 28int,
{
    reveal(sp_expression_statement);
    reveal(sp_expression);
    lemma_expression(ts, pos);
    if let Ok((_, p)) = sp_expression(ts, pos) {
        if peek(ts, p) is Semicolon {
            lemma_read(ts, p);
        }
    }
}

proof fn lemma_print_statement(ts: Seq<SpecTokenType>, pos: int)
    requires
        0 <= pos,
        has_eof_from(ts, pos),
    ensures
        stays_ahead(sp_print_statement(ts, pos), ts, pos, true),
    decreases ts.len() - pos, 28int,
{
    reveal(sp_print_statement);
    reveal(sp_expression);
    lemma_expression(ts, pos);
    if let Ok((_, p)) = sp_expression(ts, pos) {
        if peek(ts, p) is Semicolon {
            lemma_read(ts, p);
        }
    }
}

proof fn lemma_var_declaration(ts: Seq<SpecTokenType>, pos: int)
    requires
        0 <= pos,
        has_eof_from(ts, pos),
    ensures
        stays_ahead(sp_var_declaration(ts, pos), ts, pos, true),
    decreases ts.len() - pos, 28int,
{
    reveal(sp_var_declaration);
    reveal(sp_expression);
    if peek(ts, pos) is Identifier {
        lemma_read(ts, pos);
        let q = if peek(ts, pos + 1) is Equal {
            lemma_read(ts, pos + 1);
            lemma_expression(ts, pos + 2);
            match sp_expression(ts, pos + 2) {
                Err(_) => pos + 1,
                Ok((_, q)) => q,
            }
        } else {
            pos + 1
        };
        if peek(ts, q) is Semicolon {
            lemma_read(ts, q);
        }
    }
}

proof fn lemma_if_statement(ts: Seq<SpecTokenType>, pos: int)
    requires
        0 <= pos,
        has_eof_from(ts, pos),
    ensures
        stays_ahead(sp_if_statement(ts, pos), ts, pos, true),
    decreases ts.len() - pos, 28int,
{
    reveal(sp_if_statement);
    reveal(sp_expression);
    reveal(sp_statement);
    if peek(ts, pos) is LeftParen {
        lemma_read(ts, pos);
        lemma_expression(ts, pos + 1);
        if let Ok((_, p)) = sp_expression(ts, pos + 1) {
            if peek(ts, p) is RightParen {
                lemma_read(ts, p);
                lemma_statement(ts, p + 1);
                if let Ok((_, q)) = sp_statement(ts, p + 1) {
                    if peek(ts, q) is Else {
                        lemma_read(ts, q);
                        lemma_statement(ts, q + 1);
                    }
                }
            }
        }
    }
}

proof fn lemma_while_statement(ts: Seq<SpecTokenType>, pos: int)
    requires
        0 <= pos,
        has_eof_from(ts, pos),
    ensures
        stays_ahead(sp_while_statement(ts, pos), ts, pos, true),
    decreases ts.len() - pos, 28int,
{
    reveal(sp_while_statement);
    reveal(sp_expression);
    reveal(sp_statement);
    if peek(ts, pos) is LeftParen {
        lemma_read(ts, pos);
        lemma_expression(ts, pos + 1);
        if let Ok((_, p)) = sp_expression(ts, pos + 1) {
            if peek(ts, p) is RightParen {
                lemma_read(ts, p);
                lemma_statement(ts, p + 1);
            }
        }
    }
}

proof fn lemma_for_statement(ts: Seq<SpecTokenType>, pos: int)
    requires
        0 <= pos,
        has_eof_from(ts, pos),
    ensures
        stays_ahead(sp_for_statement(ts, pos), ts, pos, true),
    decreases ts.len() - pos, 28int,
{
    reveal(sp_for_statement);
    reveal(sp_var_declaration);
    reveal(sp_expression_statement);
    reveal(sp_expression);
    reveal(sp_statement);
    if peek(ts, pos) is LeftParen {
        lemma_read(ts, pos);
        let p0 = pos + 1;
        if peek(ts, p0) is Semicolon {
            lemma_read(ts, p0);
        } else if peek(ts, p0) is Var {
            lemma_read(ts, p0);
            lemma_var_declaration(ts, p0 + 1);
        } else {
            lemma_expression_statement(ts, p0);
        }
        let init: PResult<Option<SpecStmt>> = if peek(ts, p0) is Semicolon {
            Ok((None, p0 + 1))
        } else if peek(ts, p0) is Var {
            match sp_var_declaration(ts, p0 + 1) {
                Err(e) => Err(e),
                Ok((s, p)) => Ok((Some(s), p)),
            }
        } else {
            match sp_expression_statement(ts, p0) {
                Err(e) => Err(e),
                Ok((s, p)) => Ok((Some(s), p)),
            }
        };
        if let Ok((_, p1)) = init {
            if !(peek(ts, p1) is Semicolon) {
                lemma_expression(ts, p1);
            }
            let cond: PResult<Option<SpecExpr>> = if peek(ts, p1) is Semicolon {
                Ok((None, p1))
            } else {
                match sp_expression(ts, p1) {
                    Err(e) => Err(e),
                    Ok((c, p)) => Ok((Some(c), p)),
                }
            };
            if let Ok((_, p2)) = cond {
                if peek(ts, p2) is Semicolon {
                    lemma_read(ts, p2);
                    let p3 = p2 + 1;
                    if !(peek(ts, p3) is RightParen) {
                        lemma_expression(ts, p3);
                    }
                    let incr: PResult<Option<SpecExpr>> = if peek(ts, p3) is RightParen {
                        Ok((None, p3))
                    } else {
                        match sp_expression(ts, p3) {
                            Err(e) => Err(e),
                            Ok((i, p)) => Ok((Some(i), p)),
                        }
                    };
                    if let Ok((_, p4)) = incr {
                        if peek(ts, p4) is RightParen {
                            lemma_read(ts, p4);
                            lemma_statement(ts, p4 + 1);
                        }
                    }
                }
            }
        }
    }
}

proof fn lemma_block(ts: Seq<SpecTokenType>, pos: int)
    requires
        0 <= pos,
        has_eof_from(ts, pos),
    ensures
        stays_ahead(sp_block(ts, pos), ts, pos, true),
    decreases ts.len() - pos, 32int,
{
    reveal(sp_block);
    reveal(sp_block_items);
    lemma_block_items(ts, pos, Seq::empty());
    if let Ok((_, p)) = sp_block_items(ts, pos, Seq::empty()) {
        if peek(ts, p) is RightBrace {
            lemma_read(ts, p);
        }
    }
}

proof fn lemma_block_items(ts: Seq<SpecTokenType>, pos: int, acc: Seq<SpecStmt>)
    requires
        0 <= pos,
        has_eof_from(ts, pos),
    ensures
        stays_ahead(sp_block_items(ts, pos, acc), ts, pos, false),
    decreases ts.len() - pos, 31int,
{
    reveal(sp_block_items);
    reveal(sp_declaration);
    if !(peek(ts, pos) is RightBrace || at_end(ts, pos)) {
        lemma_declaration_advances(ts, pos);
        if let Ok((s, q)) = sp_declaration(ts, pos) {
            lemma_eof_bound(ts, q);
            lemma_block_items(ts, q, acc.push(s));
        }
    }
}

proof fn lemma_statement(ts: Seq<SpecTokenType>, pos: int)
    requires
        0 <= pos,
        has_eof_from(ts, pos),
    ensures
        stays_ahead(sp_statement(ts, pos), ts, pos, true),
    decreases ts.len() - pos, 29int,
{
    reveal(sp_statement);
    reveal(sp_for_statement);
    reveal(sp_if_statement);
    reveal(sp_print_statement);
    reveal(sp_while_statement);
    reveal(sp_block);
    reveal(sp_expression_statement);
    match peek(ts, pos) {
        SpecTokenType::For => {
            lemma_read(ts, pos);
            lemma_for_statement(ts, pos + 1);
        },
        SpecTokenType::If => {
            lemma_read(ts, pos);
            lemma_if_statement(ts, pos + 1);
        },
        SpecTokenType::Print => {
            lemma_read(ts, pos);
            lemma_print_statement(ts, pos + 1);
        },
        SpecTokenType::While => {
            lemma_read(ts, pos);
            lemma_while_statement(ts, pos + 1);
        },
        SpecTokenType::LeftBrace => {
            lemma_read(ts, pos);
            lemma_block(ts, pos + 1);
        },
        _ => {
            lemma_expression_statement(ts, pos);
        },
    }
}

/// A declaration that parses takes at least one token; one in error is
/// found at or after where it started. Either way the parser stays at or
/// before the `Eof`.
pub proof fn lemma_declaration_advances(ts: Seq<SpecTokenType>, pos: int)
    requires
        0 <= pos,
        has_eof_from(ts, pos),
    ensures
        stays_ahead(sp_declaration(ts, pos), ts, pos, true),
    decreases ts.len() - pos, 30int,
{
    reveal(sp_declaration);
    reveal(sp_function_declaration);
    reveal(sp_var_declaration);
    reveal(sp_statement);
    match peek(ts, pos) {
        SpecTokenType::Fun => {
            lemma_read(ts, pos);
            lemma_function_declaration(ts, pos + 1);
        },
        SpecTokenType::Var => {
            lemma_read(ts, pos);
            lemma_var_declaration(ts, pos + 1);
        },
        _ => {
            lemma_statement(ts, pos);
        },
    }
}

proof fn lemma_function_declaration(ts: Seq<SpecTokenType>, pos: int)
    requires
        0 <= pos,
        has_eof_from(ts, pos),
    ensures
        stays_ahead(sp_function_declaration(ts, pos), ts, pos, true),
    decreases ts.len() - pos, 28int,
{
    reveal(sp_function_declaration);
    reveal(sp_block);
    if peek(ts, pos) is Identifier {
        lemma_read(ts, pos);
        if peek(ts, pos + 1) is LeftParen {
            lemma_read(ts, pos + 1);
            let p1 = pos + 2;
            if !(peek(ts, p1) is RightParen) {
                lemma_parameters(ts, p1, Seq::empty());
            }
            let params = if peek(ts, p1) is RightParen {
                Ok((Seq::<Seq<char>>::empty(), p1))
            } else {
                sp_parameters(ts, p1, Seq::empty())
            };
            if let Ok((_, p2)) = params {
                if peek(ts, p2) is RightParen {
                    lemma_read(ts, p2);
                    if peek(ts, p2 + 1) is LeftBrace {
                        lemma_read(ts, p2 + 1);
                        lemma_block(ts, p2 + 2);
                    }
                }
            }
        }
    }
}

proof fn lemma_parameters(ts: Seq<SpecTokenType>, pos: int, acc: Seq<Seq<char>>)
    requires
        0 <= pos,
        has_eof_from(ts, pos),
    ensures
        stays_ahead(sp_parameters(ts, pos, acc), ts, pos, true),
    decreases ts.len() - pos,
{
    reveal(sp_parameters);
    if acc.len() < 255 && peek(ts, pos) is Identifier {
        lemma_read(ts, pos);
        if peek(ts, pos + 1) is Comma {
            lemma_read(ts, pos + 1);
            if let SpecTokenType::Identifier(name) = peek(ts, pos) {
                lemma_parameters(ts, pos + 2, acc.push(name));
            }
        }
    }
}

/// Parsing a program reads each token at most once: every statement and
/// every error it reports takes at least one token of its own.
pub proof fn lemma_program_size(
    ts: Seq<SpecTokenType>,
    pos: int,
    stmts: Seq<SpecStmt>,
    errors: Seq<SpecParseError>,
)
    requires
        0 <= pos,
        has_eof_from(ts, pos),
    ensures
        sp_program(ts, pos, stmts, errors).0.len() + sp_program(ts, pos, stmts, errors).1.len()
            <= stmts.len() + errors.len() + ts.len() - pos,
    decreases ts.len() - pos,
{
    reveal(sp_program);
    reveal(sp_declaration);
    lemma_eof_bound(ts, pos);
    if !at_end(ts, pos) {
        lemma_declaration_advances(ts, pos);
        match sp_declaration(ts, pos) {
            Ok((s, p)) => {
                assert(pos < p);
                lemma_eof_bound(ts, p);
                lemma_program_size(ts, p, stmts.push(s), errors);
            },
            Err((e, p)) => {
                lemma_synchronize(ts, p);
                let q = sp_synchronize(ts, p);
                if pos + 1 <= q {
                    lemma_program_size(ts, q, stmts, errors.push(e));
                }
            },
        }
    }
}

/// Parsing a program only adds to what it has found: the statements and
/// errors found before `pos` stay, in order, at the front of the result.
pub proof fn lemma_program_keeps_found(
    ts: Seq<SpecTokenType>,
    pos: int,
    stmts: Seq<SpecStmt>,
    errors: Seq<SpecParseError>,
)
    ensures
        sp_program(ts, pos, stmts, errors).0.len() >= stmts.len(),
        sp_program(ts, pos, stmts, errors).0.subrange(0, stmts.len() as int) == stmts,
        sp_program(ts, pos, stmts, errors).1.len() >= errors.len(),
        sp_program(ts, pos, stmts, errors).1.subrange(0, errors.len() as int) == errors,
    decreases ts.len() - pos,
{
    reveal(sp_program);
    if !at_end(ts, pos) {
        match sp_declaration(ts, pos) {
            Ok((s, p)) => {
                if pos + 1 <= p <= ts.len() {
                    lemma_program_keeps_found(ts, p, stmts.push(s), errors);
                    let r = sp_program(ts, p, stmts.push(s), errors);
                    assert(r.0.subrange(0, stmts.len() as int) =~= r.0.subrange(
                        0,
                        (stmts.len() + 1) as int,
                    ).subrange(0, stmts.len() as int));
                } else {
                    assert(stmts.push(s).subrange(0, stmts.len() as int) =~= stmts);
                }
            },
            Err((e, p)) => {
                let q = sp_synchronize(ts, p);
                if pos + 1 <= q <= ts.len() {
                    lemma_program_keeps_found(ts, q, stmts, errors.push(e));
                    let r = sp_program(ts, q, stmts, errors.push(e));
                    assert(r.1.subrange(0, errors.len() as int) =~= r.1.subrange(
                        0,
                        (errors.len() + 1) as int,
                    ).subrange(0, errors.len() as int));
                } else {
                    assert(errors.push(e).subrange(0, errors.len() as int) =~= errors);
                }
            },
        }
    } else {
        assert(stmts.subrange(0, stmts.len() as int) =~= stmts);
        assert(errors.subrange(0, errors.len() as int) =~= errors);
    }
}

/// A `for` loop keeps its initializer: when the clause after `(` parses as
/// a statement `s` (a `var` declaration or an expression statement), the
/// loop reads as the block of `s` followed by a `while` loop; with no
/// initializer, it reads as the `while` loop alone.
pub proof fn lemma_for_keeps_initializer(ts: Seq<SpecTokenType>, pos: int)
    requires
        0 <= pos,
        has_eof_from(ts, pos),
        sp_for_statement(ts, pos) is Ok,
    ensures
        ({
            let r = sp_for_statement(ts, pos)->Ok_0.0;
            if peek(ts, pos + 1) is Semicolon {
                r is While
            } else {
                let init = if peek(ts, pos + 1) is Var {
                    sp_var_declaration(ts, pos + 2)
                } else {
                    sp_expression_statement(ts, pos + 1)
                };
                &&& init is Ok
                &&& r matches SpecStmt::Block(b) && b.len() == 2 && b[0] == init->Ok_0.0
                    && b[1] is While
            }
        }),
{
    reveal(sp_for_statement);
    lemma_read(ts, pos);
    let p0 = pos + 1;
    if peek(ts, p0) is Semicolon {
        lemma_read(ts, p0);
    } else if peek(ts, p0) is Var {
        lemma_read(ts, p0);
        lemma_var_declaration(ts, p0 + 1);
    } else {
        lemma_expression_statement(ts, p0);
    }
    let init: PResult<Option<SpecStmt>> = if peek(ts, p0) is Semicolon {
        Ok((None, p0 + 1))
    } else if peek(ts, p0) is Var {
        match sp_var_declaration(ts, p0 + 1) {
            Err(e) => Err(e),
            Ok((s, p)) => Ok((Some(s), p)),
        }
    } else {
        match sp_expression_statement(ts, p0) {
            Err(e) => Err(e),
            Ok((s, p)) => Ok((Some(s), p)),
        }
    };
    if let Ok((_, p1)) = init {
        lemma_eof_bound(ts, p1);
        if !(peek(ts, p1) is Semicolon) {
            lemma_expression(ts, p1);
        }
        let cond: PResult<Option<SpecExpr>> = if peek(ts, p1) is Semicolon {
            Ok((None, p1))
        } else {
            match sp_expression(ts, p1) {
                Err(e) => Err(e),
                Ok((c, p)) => Ok((Some(c), p)),
            }
        };
        if let Ok((_, p2)) = cond {
            lemma_eof_bound(ts, p2);
            if peek(ts, p2) is Semicolon {
                lemma_read(ts, p2);
                let p3 = p2 + 1;
                if !(peek(ts, p3) is RightParen) {
                    lemma_expression(ts, p3);
                }
                let incr: PResult<Option<SpecExpr>> = if peek(ts, p3) is RightParen {
                    Ok((None, p3))
                } else {
                    match sp_expression(ts, p3) {
                        Err(e) => Err(e),
                        Ok((i, p)) => Ok((Some(i), p)),
                    }
                };
                if let Ok((_, p4)) = incr {
                    lemma_eof_bound(ts, p4);
                }
            }
        }
    }
}

} // verus!
