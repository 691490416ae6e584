//! A tree-walking interpreter for a small dynamically typed scripting
//! language: arithmetic, string concatenation, comparisons, variables,
//! block scoping, `if` and `while`.  Source text is scanned into tokens,
//! parsed by recursive descent into statement and expression trees, and
//! evaluated against a chain of lexical scopes.  Every stage is specified
//! against a mathematical model of the language and verified.

pub mod environment;
pub mod error;
pub mod expression;
pub mod interpreter;
pub mod laws;
pub mod parser;
pub mod render;
pub mod scanner;
pub mod statement;
pub mod token;

use vstd::prelude::*;
use crate::error::{parse_error_text, runtime_error_text, scan_error_text, ParseError, ScanError};
use crate::interpreter::{errs_model, out_texts, spec_run_program, Interpreter};
use crate::parser::{sp_parse, Parser};
use crate::scanner::{lemma_scan_wf, spec_scan, Scanner};
use crate::token::SpecValue;

verus! {

/// What one run of a source text produces: the print lines in order, every
/// error report in order (scan errors, then parse errors, then runtime
/// errors), and whether the step budget ran out inside a loop.
pub struct RunOutcome {
    pub output: Vec<String>,
    pub errors: Vec<String>,
    pub exhausted: bool,
}

pub open spec fn scan_error_texts(es: Seq<ScanError>) -> Seq<Seq<char>> {
    es.map(|i: int, e: ScanError| scan_error_text(e))
}

pub open spec fn parse_error_texts(es: Seq<ParseError>) -> Seq<Seq<char>> {
    es.map(|i: int, e: ParseError| parse_error_text(e))
}

pub open spec fn runtime_error_texts(es: Seq<crate::error::RuntimeErrorModel>) -> Seq<Seq<char>> {
    es.map(|i: int, e: crate::error::RuntimeErrorModel| runtime_error_text(e))
}

/// Runs a source text through the whole pipeline against a fresh global
/// scope: scan, parse with recovery, then execute, reporting every error as
/// a human-readable line and never panicking on user input.
pub fn run(source: &str) -> (r: RunOutcome)
    requires
        source@.len() < usize::MAX,
    ensures
        ({
            let scanned = spec_scan(source@);
            let parsed = sp_parse(scanned.tokens, 0);
            match spec_run_program(
                parsed.stmts,
                seq![Seq::<(Seq<char>, SpecValue)>::empty()],
                u64::MAX as nat,
            ) {
                Some(p) => {
                    &&& r.exhausted == false
                    &&& out_texts(r.output@) == p.out
                    &&& out_texts(r.errors@) == scan_error_texts(scanned.errors)
                        + parse_error_texts(parsed.errs) + runtime_error_texts(p.errs)
                },
                None => r.exhausted == true,
            }
        }),
{
    let ghost src = source@;
    let scanner = Scanner::new(String::from_str(source));
    let (tokens, scan_errors) = scanner.scan_tokens();
    proof {
        lemma_scan_wf(src, 0, 1);
    }
    let mut parser = Parser::new(tokens);
    let statements = parser.parse();
    let mut interpreter = Interpreter::new();
    let result = interpreter.interpret(&statements, u64::MAX);
    let mut errors: Vec<String> = Vec::new();
    let ghost scanned = spec_scan(src);
    let ghost parsed = sp_parse(scanned.tokens, 0);
    proof {
        assert(out_texts(errors@) =~= Seq::<Seq<char>>::empty());
    }
    let mut i: usize = 0;
    while i < scan_errors.len()
        invariant
            i <= scan_errors.len(),
            scan_errors@ == scanned.errors,
            out_texts(errors@) == scan_error_texts(scanned.errors).take(i as int),
        decreases scan_errors.len() - i,
    {
        let line = scan_errors[i].message();
        let ghost before = errors@;
        errors.push(line);
        proof {
            assert(out_texts(errors@) =~= out_texts(before).push(line@));
            assert(scan_error_texts(scanned.errors).take(i + 1) =~= scan_error_texts(
                scanned.errors,
            ).take(i as int).push(scan_error_text(scanned.errors[i as int])));
        }
        i = i + 1;
    }
    proof {
        assert(scan_error_texts(scanned.errors).take(scanned.errors.len() as int)
            =~= scan_error_texts(scanned.errors));
    }
    let parse_errors = parser.errors();
    let ghost base1 = out_texts(errors@);
    let mut j: usize = 0;
    while j < parse_errors.len()
        invariant
            j <= parse_errors.len(),
            parse_errors@ == parsed.errs,
            base1 == scan_error_texts(scanned.errors),
            out_texts(errors@) == base1 + parse_error_texts(parsed.errs).take(j as int),
        decreases parse_errors.len() - j,
    {
        let line = parse_errors[j].message();
        let ghost before = errors@;
        errors.push(line);
        proof {
            assert(out_texts(errors@) =~= out_texts(before).push(line@));
            assert(parse_error_texts(parsed.errs).take(j + 1) =~= parse_error_texts(
                parsed.errs,
            ).take(j as int).push(parse_error_text(parsed.errs[j as int])));
            assert(base1 + parse_error_texts(parsed.errs).take(j as int).push(line@) =~= (base1
                + parse_error_texts(parsed.errs).take(j + 1)));
        }
        j = j + 1;
    }
    proof {
        assert(parse_error_texts(parsed.errs).take(parsed.errs.len() as int) =~= parse_error_texts(
            parsed.errs,
        ));
    }
    let ghost base2 = out_texts(errors@);
    let mut k: usize = 0;
    while k < result.errors.len()
        invariant
            k <= result.errors.len(),
            base2 == scan_error_texts(scanned.errors) + parse_error_texts(parsed.errs),
            out_texts(errors@) == base2 + runtime_error_texts(errs_model(result.errors@)).take(
                k as int,
            ),
        decreases result.errors.len() - k,
    {
        let line = result.errors[k].message();
        let ghost before = errors@;
        errors.push(line);
        proof {
            assert(out_texts(errors@) =~= out_texts(before).push(line@));
            assert(runtime_error_texts(errs_model(result.errors@)).take(k + 1)
                =~= runtime_error_texts(errs_model(result.errors@)).take(k as int).push(
                runtime_error_text(result.errors@[k as int]@),
            ));
            assert(base2 + runtime_error_texts(errs_model(result.errors@)).take(k as int).push(
                line@,
            ) =~= (base2 + runtime_error_texts(errs_model(result.errors@)).take(k + 1)));
        }
        k = k + 1;
    }
    proof {
        assert(runtime_error_texts(errs_model(result.errors@)).take(result.errors@.len() as int)
            =~= runtime_error_texts(errs_model(result.errors@)));
        if !result.exhausted {
            assert((scan_error_texts(scanned.errors) + parse_error_texts(parsed.errs))
                + runtime_error_texts(errs_model(result.errors@)) =~= scan_error_texts(
                scanned.errors,
            ) + parse_error_texts(parsed.errs) + runtime_error_texts(
                errs_model(result.errors@),
            ));
        }
    }
    RunOutcome { output: result.output, errors, exhausted: result.exhausted }
}

} // verus!
