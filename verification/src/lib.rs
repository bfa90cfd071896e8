use vstd::prelude::*;

pub mod ast;
pub mod callable;
pub mod environment;
pub mod parser;
pub mod progress;
pub mod reader;
pub mod scanner;
pub mod text;

use crate::ast::Ast;
use crate::parser::{
    kinds, lemma_scanned_tokens_parse, parse, parse_error_texts, sp_program,
};
use crate::reader::Source;
use crate::scanner::{scan, scan_error_texts, tokenize};

verus! {

/// What a stage of the interpreter reports when the program is at fault:
/// the text of every error it found, each followed by a newline.
#[derive(Debug)]
pub struct LoxError {
    pub message: String,
}

/// The texts of `msgs` run together, each followed by a newline.
pub open spec fn joined(msgs: Seq<Seq<char>>) -> Seq<char>
    decreases msgs.len(),
{
    if msgs.len() == 0 {
        Seq::empty()
    } else {
        joined(msgs.drop_last()) + msgs.last() + seq!['\n']
    }
}

/// The texts of a list of strings.
pub open spec fn texts(msgs: Seq<String>) -> Seq<Seq<char>> {
    msgs.map_values(|m: String| m@)
}

/// Turns the many errors of a stage into one, a line per error.
pub fn join_errors(errors: Vec<String>) -> (e: LoxError)
    ensures
        e.message@ == joined(texts(errors@)),
{
    let mut message = String::new();
    let mut i: usize = 0;
    while i < errors.len()
        invariant
            i <= errors@.len(),
            message@ == joined(texts(errors@).take(i as int)),
        decreases errors@.len() - i,
    {
        message.append(errors[i].as_str());
        crate::text::push_char(&mut message, '\n');
        assert(texts(errors@).take(i + 1).drop_last() =~= texts(errors@).take(i as int));
        i = i + 1;
    }
    assert(texts(errors@).take(errors@.len() as int) =~= texts(errors@));
    LoxError { message }
}

/// Reads a program's text into its syntax tree: scans it, then parses the
/// tokens. The first stage that finds errors reports all of them.
pub fn tokenize_and_parse(source: &Source) -> (r: Result<Ast, LoxError>)
    requires
        source.text@.len() < usize::MAX,
    ensures
        ({
            let (tokens, scan_errors) = scan(source.text@);
            let (stmts, parse_errors) = sp_program(kinds(tokens), 0, Seq::empty(), Seq::empty());
            match r {
                Ok(ast) => scan_errors.len() == 0 && parse_errors.len() == 0 && ast@ == stmts,
                Err(e) => if scan_errors.len() > 0 {
                    e.message@ == joined(scan_error_texts(scan_errors))
                } else {
                    parse_errors.len() > 0 && e.message@ == joined(parse_error_texts(parse_errors))
                },
            }
        }),
{
    let tokens = tokenize(source)?;
    proof {
        lemma_scanned_tokens_parse(source.text@);
    }
    parse(tokens)
}

} // verus!
