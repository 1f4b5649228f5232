//! A tree-walking interpreter for a small dynamically typed scripting language:
//! a scanner, a recursive-descent parser and an evaluator over an arena of scopes.
pub mod ast;
pub mod environment;
pub mod parser;
pub mod runner;
pub mod scanner;
pub mod text;
pub mod tokens;

use vstd::prelude::*;
use crate::ast::Program;
use crate::parser::{messages, program_o, read_whole};
use crate::runner::{ran_to, Interpreter, Numbers};
use crate::scanner::{scans_to, Scanner};
use crate::tokens::Token;

verus! {

/// What running `code` in a session does: the scanner's and the parser's
/// diagnostics, if any, are reported together and the session is left as it was;
/// otherwise the parsed program runs, and a runtime error is reported alone.
pub open spec fn source_ran(
    code: Seq<char>,
    before: Interpreter,
    after: Interpreter,
    r: Result<(), Vec<String>>,
) -> bool {
    exists|tokens: Seq<Token>, lexed: Seq<String>|
        #[trigger] scans_to(code, tokens, lexed) && {
            let parsed = program_o(tokens, 0);
            if lexed.len() > 0 || parsed.1.len() > 0 {
                &&& after == before
                &&& r matches Err(errors) && messages(errors@) == messages(lexed) + parsed.1
            } else {
                exists|p: Program, out: Result<(), String>|
                    #[trigger] ran_to(p, before, after, out) && read_whole(tokens, p.statements@)
                        && p.statements@.len() == parsed.0 && match out {
                        Ok(()) => r is Ok,
                        Err(m) => (r matches Err(errors) && messages(errors@) == seq![m@]),
                    }
            }
        }
}

/// Scans, parses and runs `code` in an interpreter session. Diagnostics of the
/// scanner and the parser are reported together, and then nothing runs; a
/// runtime error stops the program. The printed lines are added to the session's
/// output.
pub fn run_in<N: Numbers>(interpreter: &mut Interpreter, code: &str, numbers: &N) -> (r: Result<
    (),
    Vec<String>,
>)
    requires
        old(interpreter).wf(),
        code@.len() < usize::MAX,
    ensures
        final(interpreter).wf(),
        final(interpreter).grows_from(old(interpreter)),
        r is Err ==> r->Err_0@.len() > 0,
        source_ran(code@, *old(interpreter), *final(interpreter), r),
{
    let mut scanner = Scanner::new(code);
    let (tokens, mut errors) = scanner.tokenize();
    let ghost lexed = errors@;
    let ghost before = *interpreter;
    let parsed = Program::parse(&tokens);
    match parsed {
        Err(mut parse_errors) => {
            let ghost pe = parse_errors@;
            errors.append(&mut parse_errors);
            proof {
                assert(errors@ == lexed + pe);
                assert(messages(errors@) =~= messages(lexed) + messages(pe));
                assert(scans_to(code@, tokens@, lexed));
            }
            Err(errors)
        },
        Ok(program) => {
            if errors.len() > 0 {
                proof {
                    assert(program_o(tokens@, 0).1.len() == 0);
                    assert(messages(lexed) + program_o(tokens@, 0).1 =~= messages(lexed));
                    assert(scans_to(code@, tokens@, lexed));
                }
                return Err(errors);
            }
            match program.run(interpreter, numbers) {
                Ok(()) => {
                    proof {
                        assert(ran_to(program, before, *interpreter, Ok(())));
                        assert(scans_to(code@, tokens@, lexed));
                    }
                    Ok(())
                },
                Err(m) => {
                    let ghost gm = m;
                    let mut v: Vec<String> = Vec::new();
                    v.push(m);
                    proof {
                        assert(ran_to(program, before, *interpreter, Err(gm)));
                        assert(messages(v@) =~= seq![gm@]);
                        assert(scans_to(code@, tokens@, lexed));
                    }
                    Err(v)
                },
            }
        },
    }
}

/// A session as `Interpreter::new` makes it with no limit on loop iterations.
pub open spec fn fresh(i: Interpreter) -> bool {
    &&& i.env.scopes@.len() == 1
    &&& i.env.scopes@[0].entries@.len() == 0
    &&& i.env.scopes@[0].parent is None
    &&& i.functions@.len() == 0
    &&& i.output@.len() == 0
    &&& i.steps == u64::MAX
}

/// Names the sessions of a run, so that a proof can point at them.
pub open spec fn session(before: Interpreter, after: Interpreter, out: Result<(), Vec<String>>) -> bool {
    true
}

/// Runs `code` in a fresh session and returns the printed lines and the
/// diagnostics: the diagnostics are empty exactly when scanning, parsing and the
/// run all succeeded.
pub fn run<N: Numbers>(code: &str, numbers: &N) -> (r: (Vec<String>, Vec<String>))
    requires
        code@.len() < usize::MAX,
    ensures
        exists|before: Interpreter, after: Interpreter, out: Result<(), Vec<String>>|
            #[trigger] session(before, after, out) && fresh(before) && source_ran(
                code@,
                before,
                after,
                out,
            ) && r.0@ == after.output@ && match out {
                Ok(()) => r.1@.len() == 0,
                Err(errors) => r.1@ == errors@ && errors@.len() > 0,
            },
{
    let mut interpreter = Interpreter::new(u64::MAX);
    let ghost before = interpreter;
    let out = run_in(&mut interpreter, code, numbers);
    let ghost after = interpreter;
    let ghost gout = out;
    proof {
        assert(session(before, after, gout));
    }
    match out {
        Ok(()) => (interpreter.output, Vec::new()),
        Err(errors) => (interpreter.output, errors),
    }
}

} // verus!
